//! The verifier that folds the commitments of traces.
use crate::commitment::{self, PolynomialCommitmentScheme};
use crate::domain::{self, EvaluationDomain};
use crate::error::Error;
use crate::evaluator::{Evaluator, Selectors};
use crate::field::{self, PrimeField};
use crate::folding;
use crate::interpolation;
use crate::linear::{self, Linear};
use crate::polynomial;
use crate::folding_prover;
use crate::residues;
use crate::traces::{FoldingProverTrace, Trace, TraceModel, VerifierFoldingTrace};
use crate::transcript::{Message, Transcript};
use vstd::arithmetic::power2::*;
use vstd::prelude::*;

verus! {

/// This verifier folds the commitments of traces into those of one: 2^k - 1 of
/// them at a time. The rows of a trace are joined by the products of `K`
/// challenges.
pub struct ProtogalaxyVerifier<
    F: PrimeField,
    CS: PolynomialCommitmentScheme<F>,
    const K: usize,
> {
    /// The commitments that were folded so far.
    pub verifier_folding_trace: VerifierFoldingTrace<F, CS::Commitment>,
    /// By how much the folded trace has to miss the circuit.
    pub error_term: F,
    /// The challenges that join the rows.
    pub beta_powers: [F; K],
}

/// The error term after a round, from the one before, the value of the error
/// polynomial, the last challenge and the value of the quotient there.
pub open spec fn next_error<F: PrimeField>(
    dk: nat,
    error: int,
    f_eval: int,
    gamma: int,
    k_eval: int,
) -> int {
    ((error + f_eval) * interpolation::lagrange::<F>(dk, 0, gamma) + interpolation::vanishing(
        dk,
        gamma,
    ) * k_eval) % F::modulus()
}

/// All traces are of one proof.
pub open spec fn of_one_proof<F: PrimeField, C: Linear<F>>(t: VerifierFoldingTrace<F, C>) -> bool {
    &&& t.advice@.len() == 1
    &&& t.lookups@.len() == 1
    &&& t.permutations@.len() == 1
    &&& t.trashcans@.len() == 1
}

impl<F: PrimeField, CS: PolynomialCommitmentScheme<F>, const K: usize> ProtogalaxyVerifier<
    F,
    CS,
    K,
> {
    /// The challenges that join the rows.
    pub open spec fn betas(&self) -> Seq<int> {
        field::values(self.beta_powers@)
    }

    /// The traces that are folded: the one that was folded so far, and the new
    /// ones.
    pub open spec fn parts(
        &self,
        traces: Seq<VerifierFoldingTrace<F, CS::Commitment>>,
    ) -> Seq<TraceModel<<CS::Commitment as Linear<F>>::Model>> {
        seq![self.verifier_folding_trace.model()] + linear::list_model::<
            F,
            Trace<F, CS::Commitment>,
        >(traces)
    }

    /// What the verifier reads in a round, and the challenges in between.
    pub open spec fn messages(
        delta: int,
        committed_f: <CS::Commitment as Linear<F>>::Model,
        alpha: int,
        f_eval: int,
        committed_k: <CS::Commitment as Linear<F>>::Model,
        gamma: int,
        k_eval: int,
    ) -> Seq<Message<<CS::Commitment as Linear<F>>::Model>> {
        seq![
            Message::Challenge(delta),
            Message::Commitment(committed_f),
            Message::Challenge(alpha),
            Message::Scalar(f_eval),
            Message::Commitment(committed_k),
            Message::Challenge(gamma),
            Message::Scalar(k_eval),
        ]
    }

    /// The commitments after a round with the last challenge `gamma`.
    pub open spec fn next_trace(
        &self,
        traces: Seq<VerifierFoldingTrace<F, CS::Commitment>>,
        gamma: int,
    ) -> TraceModel<<CS::Commitment as Linear<F>>::Model> {
        let parts = self.parts(traces);
        <Trace<F, CS::Commitment> as Linear<F>>::combined(
            interpolation::lagranges::<F>(folding::log2(parts.len()), gamma),
            parts,
        )
    }

    /// What comes in a run is what a round draws and reads, in its order.
    pub open spec fn is_round(run: Seq<Message<<CS::Commitment as Linear<F>>::Model>>) -> bool {
        &&& run.len() >= 7
        &&& run[0] is Challenge
        &&& run[1] is Commitment
        &&& run[2] is Challenge
        &&& run[3] is Scalar
        &&& run[4] is Commitment
        &&& run[5] is Challenge
        &&& run[6] is Scalar
    }

    /// A round takes the verifier to `next`, and its transcript from `before` to
    /// `after`.
    pub open spec fn folds_to(
        &self,
        traces: Seq<VerifierFoldingTrace<F, CS::Commitment>>,
        before: Seq<Message<<CS::Commitment as Linear<F>>::Model>>,
        after: Seq<Message<<CS::Commitment as Linear<F>>::Model>>,
        next: Self,
    ) -> bool {
        exists|
            delta: int,
            committed_f: <CS::Commitment as Linear<F>>::Model,
            alpha: int,
            f_eval: int,
            committed_k: <CS::Commitment as Linear<F>>::Model,
            gamma: int,
            k_eval: int,
        |
            {
                &&& after == before + #[trigger] Self::messages(
                    delta,
                    committed_f,
                    alpha,
                    f_eval,
                    committed_k,
                    gamma,
                    k_eval,
                )
                &&& next.betas() == folding::shifted(
                    self.betas(),
                    folding::squares(delta, K as nat, F::modulus()),
                    alpha,
                    F::modulus(),
                )
                &&& next.error_term.value() == next_error::<F>(
                    folding::log2(self.parts(traces).len()),
                    self.error_term.value(),
                    f_eval,
                    gamma,
                    k_eval,
                )
                &&& next.verifier_folding_trace.model() == self.next_trace(traces, gamma)
            }
    }

    /// What a round that takes the transcript from `before` to `after` returns. It
    /// fails where the transcript does, and succeeds where the transcript follows a
    /// round.
    pub open spec fn outcome<T: Transcript<F, CS::Commitment>>(
        &self,
        traces: Seq<VerifierFoldingTrace<F, CS::Commitment>>,
        before: T,
        after: T,
        r: Result<Self, Error>,
    ) -> bool {
        &&& (r matches Err(Error::Transcript)) == after.failed()
        &&& r matches Err(e) ==> e == Error::Transcript
        &&& r matches Ok(next) ==> self.folds_to(traces, before.history(), after.history(), next)
        &&& forall|run: Seq<Message<<CS::Commitment as Linear<F>>::Model>>| #[trigger]
            before.follows(run) && Self::is_round(run) ==> {
                &&& r is Ok
                &&& after.history() == before.history() + run.take(7)
                &&& after.follows(run.skip(7))
            }
    }

    /// Starts with the commitments of a trace. The challenges are one and the
    /// error is zero.
    pub fn init(folded_trace: VerifierFoldingTrace<F, CS::Commitment>) -> (r: Self)
        ensures
            r.verifier_folding_trace == folded_trace,
            r.error_term.value() == 0,
            r.betas() == Seq::new(K as nat, |i: int| 1int),
    {
        let one = F::one();
        let beta_powers = [one; K];
        assert(field::values(beta_powers@) =~= Seq::new(K as nat, |i: int| 1int));
        ProtogalaxyVerifier {
            verifier_folding_trace: folded_trace,
            error_term: F::zero(),
            beta_powers,
        }
    }

    /// Folds the commitments of `traces` into those that were folded so far.
    /// `degree` bounds that of the identities of the circuit.
    ///
    /// The openings of the commitments that are read are not verified here.
    pub fn fold<T: Transcript<F, CS::Commitment>>(
        self,
        degree: u32,
        traces: Vec<VerifierFoldingTrace<F, CS::Commitment>>,
        transcript: &mut T,
    ) -> (r: Result<Self, Error>)
        requires
            degree + 3 <= u32::MAX,
            folding::is_power_of_two(self.parts(traces@).len()),
            self.parts(traces@).len() <= usize::MAX,
            domain::fits::<F>(
                (degree + 3) as nat,
                folding::log2(self.parts(traces@).len()),
            ),
            linear::all_alike::<F, Trace<F, CS::Commitment>>(self.parts(traces@)),
            of_one_proof(self.verifier_folding_trace),
            !old(transcript).failed(),
        ensures
            self.outcome(traces@, *old(transcript), *final(transcript), r),
    {
        let ghost start = transcript.history();
        let ghost parts = self.parts(traces@);
        proof {
            F::lemma_field();
        }
        let all = folding_prover::gather(&self.verifier_folding_trace, &traces);
        proof {
            assert(linear::models::<F, Trace<F, CS::Commitment>>(all@) =~= parts);
        }
        let dk_domain: EvaluationDomain<F> = EvaluationDomain::new(
            degree + 3,
            folding::exact_log2(all.len()),
        );
        let delta = transcript.squeeze_challenge();
        let delta_powers: [F; K] = folding::repeated_squares(&delta);
        let committed_f = match transcript.read_commitment() {
            Ok(c) => c,
            Err(e) => {
                return Err(e);
            },
        };
        let alpha = transcript.squeeze_challenge();
        let eval_committed_f = match transcript.read_scalar() {
            Ok(v) => v,
            Err(e) => {
                return Err(e);
            },
        };
        let beta_powers = folding::shift_challenges(&self.beta_powers, &delta_powers, &alpha);
        let poly_k = match transcript.read_commitment() {
            Ok(c) => c,
            Err(e) => {
                return Err(e);
            },
        };
        let gamma = transcript.squeeze_challenge();
        let k_at_gamma = match transcript.read_scalar() {
            Ok(v) => v,
            Err(e) => {
                return Err(e);
            },
        };
        let error_term = next_error_term(
            &dk_domain,
            &self.error_term,
            &eval_committed_f,
            &gamma,
            &k_at_gamma,
        );
        let verifier_folding_trace = fold_traces(&dk_domain, &all, &gamma);
        proof {
            assert(transcript.history() =~= start + Self::messages(
                delta.value(),
                committed_f.model(),
                alpha.value(),
                eval_committed_f.value(),
                poly_k.model(),
                gamma.value(),
                k_at_gamma.value(),
            ));
            assert forall|run: Seq<Message<<CS::Commitment as Linear<F>>::Model>>| #[trigger]
                old(transcript).follows(run) && Self::is_round(run) implies transcript.history()
                == start + run.take(7) && transcript.follows(run.skip(7)) by {
                assert(run.skip(1).skip(1).skip(1).skip(1).skip(1).skip(1).skip(1) =~= run.skip(
                    7,
                ));
                assert(transcript.history() =~= start + run.take(7));
            }
        }
        Ok(ProtogalaxyVerifier { verifier_folding_trace, error_term, beta_powers })
    }

    /// Tells whether the commitments of a trace are those that were folded.
    pub fn has_commitments(
        &self,
        params: &CS::Parameters,
        folded_witness: &FoldingProverTrace<F>,
    ) -> (r: bool)
        requires
            commitment::served::<F, CS>(params, folded_witness.model()),
        ensures
            r == (commitment::committed::<F, CS>(params, folded_witness.model())
                == self.verifier_folding_trace.model()),
    {
        let committed_folded_witness = folded_witness.commit::<CS>(params);
        committed_folded_witness.same(&self.verifier_folding_trace)
    }

    /// Checks that a trace, whose commitments are those that were folded, satisfies
    /// the relaxed circuit: it misses the circuit by the error term.
    pub fn is_sat<E: Evaluator<F>>(
        &self,
        params: &CS::Parameters,
        domain: &EvaluationDomain<F>,
        evaluator: &E,
        folded_witness: &FoldingProverTrace<F>,
        selectors: &Selectors<F>,
    ) -> (r: Result<(), Error>)
        requires
            domain.wf(),
            evaluator.accepts(domain.k as nat, selectors.model(), folded_witness.model()),
            commitment::served::<F, CS>(params, folded_witness.model()),
            commitment::committed::<F, CS>(params, folded_witness.model())
                == self.verifier_folding_trace.model(),
            pow2(K as nat) <= usize::MAX,
        ensures
            r == (if folding::joined(
                evaluator.h(domain.k as nat, selectors.model(), folded_witness.model()),
                self.betas(),
                F::modulus(),
            ) != self.error_term.value() {
                Err(Error::Opening)
            } else {
                Ok(())
            }),
    {
        let witness_poly = evaluator.evaluate_h(domain, selectors, folded_witness);
        let expected_result = folding::join_rows(&witness_poly, &self.beta_powers);
        if expected_result.is(&self.error_term) {
            Ok(())
        } else {
            Err(Error::Opening)
        }
    }
}

/// Returns the error term after a round.
pub fn next_error_term<F: PrimeField>(
    domain: &EvaluationDomain<F>,
    error: &F,
    f_eval: &F,
    gamma: &F,
    k_eval: &F,
) -> (r: F)
    requires
        domain.wf(),
    ensures
        r.value() == next_error::<F>(
            domain.k as nat,
            error.value(),
            f_eval.value(),
            gamma.value(),
            k_eval.value(),
        ),
{
    let ghost p = F::modulus();
    let ghost dk = domain.k as nat;
    proof {
        F::lemma_field();
    }
    let f_at_alpha = error.add(f_eval);
    let z_in_gamma = folding::eval_vanishing(domain, gamma);
    let mut l0 = domain.empty_lagrange();
    assert(l0@.len() == domain.size()) by {
        assert(field::values(l0@).len() == domain.size());
    }
    let ghost blank = l0@;
    proof {
        lemma_pow2_pos(dk);
    }
    l0.set(0, F::one());
    let l0_coeff = domain.lagrange_to_coeff(&l0);
    let l0_at_gamma = polynomial::eval_polynomial(&l0_coeff, gamma);
    let r = f_at_alpha.mul(&l0_at_gamma).add(&z_in_gamma.mul(k_eval));
    proof {
        assert(field::values(l0@) =~= interpolation::unit(pow2(dk), 0)) by {
            assert forall|t: int| 0 < t < pow2(dk) implies #[trigger] field::values(l0@)[t]
                == 0 by {
                assert(field::values(blank)[t] == 0);
            }
        }
        let c = gamma.value();
        let l = interpolation::lagrange::<F>(dk, 0, c);
        assert(l0_at_gamma.value() == l);
        let z = interpolation::vanishing(dk, c);
        residues::lemma_mod_cong(z, p);
        let s = error.value() + f_eval.value();
        residues::lemma_mod_cong(s, p);
        residues::lemma_cong_ops(f_at_alpha.value(), s, l, l, p);
        residues::lemma_mod_cong(f_at_alpha.value() * l, p);
        let kv = k_eval.value();
        residues::lemma_cong_ops(z_in_gamma.value(), z, kv, kv, p);
        residues::lemma_mod_cong(z_in_gamma.value() * kv, p);
        residues::lemma_cong_ops(
            (f_at_alpha.value() * l) % p,
            s * l,
            (z_in_gamma.value() * kv) % p,
            z * kv,
            p,
        );
    }
    r
}

/// Returns the commitments that interpolate the given ones, at `gamma`. Only traces
/// of one proof are folded.
pub fn fold_traces<F: PrimeField, C: Linear<F>>(
    dk_domain: &EvaluationDomain<F>,
    traces: &Vec<&VerifierFoldingTrace<F, C>>,
    gamma: &F,
) -> (r: VerifierFoldingTrace<F, C>)
    requires
        dk_domain.wf(),
        traces@.len() == dk_domain.size(),
        linear::all_alike::<F, Trace<F, C>>(linear::models::<F, Trace<F, C>>(traces@)),
        of_one_proof(*traces@[0]),
    ensures
        r.model() == <Trace<F, C> as Linear<F>>::combined(
            interpolation::lagranges::<F>(dk_domain.k as nat, gamma.value()),
            linear::models::<F, Trace<F, C>>(traces@),
        ),
{
    folding::interpolate_traces(dk_domain, traces, gamma)
}

} // verus!
