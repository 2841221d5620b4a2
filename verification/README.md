# protogalaxy

Folding of the traces of a circuit: a power of two of them are folded into one, so
that one check, or one proof, serves all of them. The library is written and proved
in Verus.

The prover interpolates the traces, commits to the quotient of the polynomial that
tells by how much the interpolated trace misses the circuit, and keeps the trace at
a challenge. The verifier does the same with the commitments, and comes to the
error term that the folded trace has to have.

## Layout

- `src/limbs.rs`, `src/words.rs`, `src/u256.rs`, `src/u384.rs`, `src/word_laws.rs`:
  integers of 64-bit words, seen as natural numbers.
- `src/residues.rs`, `src/field.rs`, `src/fq.rs`, `src/goldilocks.rs`: prime fields,
  seen as residues.
- `src/polynomial.rs`, `src/roots.rs`, `src/fft.rs`, `src/interpolation.rs`,
  `src/domain.rs`: polynomials by coefficients and by values, and the domains on
  which they have them.
- `src/linear.rs`, `src/traces.rs`, `src/commitment.rs`, `src/point_scheme.rs`,
  `src/transcript.rs`: what is folded, what stands for it, and how it is sent.
- `src/circuit.rs`, `src/evaluator.rs`, `src/constraint_system.rs`: the identities
  of a circuit, and the value of each row of a trace.
- `src/powers.rs`, `src/parallel.rs`, `src/folding.rs`: the steps of a round.
- `src/folding_prover.rs`, `src/folding_verifier.rs`: folding round by round.
- `src/prover_oneshot.rs`, `src/verifier_oneshot.rs`: folding in a single round, with
  what the proof of the folded trace needs.
- `src/error_polynomial.rs`, `src/completeness.rs`, `src/completeness_oneshot.rs`:
  what prover and verifier have to do with each other.
- `tests/`: the same on concrete values.
- `app/`: ordinary Rust around the library. It asks a proof system for traces,
  transcripts and the final proof, and checks what the library requires.

## What the proofs rest on

- The contracts of the two functions in `src/parallel.rs`, which stand for the work of
  rayon's parallel iterators.
- Where a function or a law is used with types from outside `src/`: that their impls
  of `PrimeField`, `Linear`, `PolynomialCommitmentScheme`, `Evaluator` and
  `Transcript` meet the contracts of these traits. Those in `src/` are proved to.
- Where ordinary Rust calls the library: that it meets the `requires` of what it
  calls. `app/` tests them first.
