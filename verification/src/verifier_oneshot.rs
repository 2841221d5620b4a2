//! The verifier that folds the commitments of traces in a single round, and
//! prepares the check of the proof of the folded trace.
use crate::commitment::{self, PolynomialCommitmentScheme};
use crate::constraint_system::ConstraintSystem;
use crate::domain::{self, EvaluationDomain};
use crate::error::Error;
use crate::evaluator::{Evaluator, Selectors};
use crate::field::{self, PrimeField};
use crate::circuit::Queried;
use crate::folding;
use crate::folding_verifier;
use crate::interpolation;
use crate::linear::{self, Linear};
use crate::parallel;
use crate::polynomial;
use crate::residues;
use crate::traces::{FoldingProverTrace, Trace, TraceModel, VerifierFoldingTrace};
use crate::transcript::{Message, Transcript};
use vstd::arithmetic::div_mod::*;
use vstd::arithmetic::power2::*;
use vstd::prelude::*;

verus! {

/// This verifier folds the commitments of a power of two of traces, in a single
/// round. A trace has 2^`K` rows.
pub struct ProtogalaxyVerifierOneShot<
    F: PrimeField,
    CS: PolynomialCommitmentScheme<F>,
    const K: usize,
> {
    /// The folded commitments.
    pub verifier_folding_trace: VerifierFoldingTrace<F, CS::Commitment>,
    /// By how much the folded trace has to miss the circuit.
    pub error_term: F,
    /// The challenge that joins the rows.
    pub beta: F,
}

/// What else a verifier has after folding, for the check of the proof of the folded
/// trace.
pub struct OneShotOpening<F: PrimeField, C> {
    /// The challenge at which the traces were folded.
    pub gamma: F,
    /// The commitment to the error terms.
    pub committed_error: C,
}

/// The error term: the value of the quotient times that of the polynomial that
/// vanishes on the domain.
pub open spec fn one_shot_error<F: PrimeField>(dk: nat, gamma: int, k_eval: int) -> int {
    (interpolation::vanishing(dk, gamma) * k_eval) % F::modulus()
}

/// What a list of traces stands for.
pub open spec fn parts_of<F: PrimeField, C: Linear<F>>(
    traces: Seq<VerifierFoldingTrace<F, C>>,
) -> Seq<TraceModel<C::Model>> {
    linear::list_model::<F, Trace<F, C>>(traces)
}

impl<F: PrimeField, CS: PolynomialCommitmentScheme<F>, const K: usize> ProtogalaxyVerifierOneShot<
    F,
    CS,
    K,
> {
    /// What the verifier reads, and the challenges in between.
    pub open spec fn messages(
        beta: int,
        committed_k: <CS::Commitment as Linear<F>>::Model,
        gamma: int,
        k_eval: int,
        committed_error: <CS::Commitment as Linear<F>>::Model,
    ) -> Seq<Message<<CS::Commitment as Linear<F>>::Model>> {
        seq![
            Message::Challenge(beta),
            Message::Commitment(committed_k),
            Message::Challenge(gamma),
            Message::Scalar(k_eval),
            Message::Commitment(committed_error),
        ]
    }

    /// What comes in a run is what the round draws and reads, in its order.
    pub open spec fn is_round(run: Seq<Message<<CS::Commitment as Linear<F>>::Model>>) -> bool {
        &&& run.len() >= 5
        &&& run[0] is Challenge
        &&& run[1] is Commitment
        &&& run[2] is Challenge
        &&& run[3] is Scalar
        &&& run[4] is Commitment
    }

    /// A round over `traces` gives `folded` and `opening`, and takes the transcript
    /// from `before` to `after`.
    pub open spec fn folds_to(
        traces: Seq<VerifierFoldingTrace<F, CS::Commitment>>,
        before: Seq<Message<<CS::Commitment as Linear<F>>::Model>>,
        after: Seq<Message<<CS::Commitment as Linear<F>>::Model>>,
        folded: Self,
        opening: OneShotOpening<F, CS::Commitment>,
    ) -> bool {
        exists|
            beta: int,
            committed_k: <CS::Commitment as Linear<F>>::Model,
            gamma: int,
            k_eval: int,
            committed_error: <CS::Commitment as Linear<F>>::Model,
        |
            {
                &&& after == before + #[trigger] Self::messages(
                    beta,
                    committed_k,
                    gamma,
                    k_eval,
                    committed_error,
                )
                &&& folded.beta.value() == beta
                &&& folded.error_term.value() == one_shot_error::<F>(
                    folding::log2(traces.len()),
                    gamma,
                    k_eval,
                )
                &&& folded.verifier_folding_trace.model() == <Trace<
                    F,
                    CS::Commitment,
                > as Linear<F>>::combined(
                    interpolation::lagranges::<F>(folding::log2(traces.len()), gamma),
                    parts_of::<F, CS::Commitment>(traces),
                )
                &&& opening.gamma.value() == gamma
                &&& opening.committed_error.model() == committed_error
            }
    }

    /// What a round that takes the transcript from `before` to `after` returns. It
    /// fails where the transcript does, and succeeds where the transcript follows a
    /// round.
    pub open spec fn outcome<T: Transcript<F, CS::Commitment>>(
        traces: Seq<VerifierFoldingTrace<F, CS::Commitment>>,
        before: T,
        after: T,
        r: Result<(Self, OneShotOpening<F, CS::Commitment>), Error>,
    ) -> bool {
        &&& (r matches Err(Error::Transcript)) == after.failed()
        &&& r matches Err(e) ==> e == Error::Transcript
        &&& r matches Ok((folded, opening)) ==> Self::folds_to(
            traces,
            before.history(),
            after.history(),
            folded,
            opening,
        )
        &&& forall|run: Seq<Message<<CS::Commitment as Linear<F>>::Model>>| #[trigger]
            before.follows(run) && Self::is_round(run) ==> {
                &&& r is Ok
                &&& after.history() == before.history() + run.take(5)
                &&& after.follows(run.skip(5))
            }
    }

    /// Folds the commitments of `traces`. `degree` bounds that of the identities of
    /// the circuit.
    pub fn fold<T: Transcript<F, CS::Commitment>>(
        degree: u32,
        traces: &Vec<VerifierFoldingTrace<F, CS::Commitment>>,
        transcript: &mut T,
    ) -> (r: Result<(Self, OneShotOpening<F, CS::Commitment>), Error>)
        requires
            degree + 3 <= u32::MAX,
            folding::is_power_of_two(traces@.len()),
            domain::fits::<F>((degree + 3) as nat, folding::log2(traces@.len())),
            linear::all_alike::<F, Trace<F, CS::Commitment>>(
                parts_of::<F, CS::Commitment>(traces@),
            ),
            folding_verifier::of_one_proof(traces@[0]),
            !old(transcript).failed(),
        ensures
            Self::outcome(traces@, *old(transcript), *final(transcript), r),
    {
        let ghost p = F::modulus();
        let ghost start = transcript.history();
        let ghost dk = folding::log2(traces@.len());
        proof {
            F::lemma_field();
        }
        let all = crate::prover_oneshot::references(traces);
        proof {
            assert(linear::models::<F, Trace<F, CS::Commitment>>(all@) =~= parts_of::<
                F,
                CS::Commitment,
            >(traces@));
        }
        let dk_domain: EvaluationDomain<F> = EvaluationDomain::new(
            degree + 3,
            folding::exact_log2(all.len()),
        );
        let beta_pg = transcript.squeeze_challenge();
        let poly_k = match transcript.read_commitment() {
            Ok(c) => c,
            Err(e) => {
                return Err(e);
            },
        };
        let gamma = transcript.squeeze_challenge();
        let k_at_gamma = match transcript.read_scalar() {
            Ok(v) => v,
            Err(e) => {
                return Err(e);
            },
        };
        let z_in_gamma = folding::eval_vanishing(&dk_domain, &gamma);
        let error_term = z_in_gamma.mul(&k_at_gamma);
        proof {
            let z = interpolation::vanishing(dk, gamma.value());
            residues::lemma_mod_cong(z, p);
            residues::lemma_cong_ops(
                z_in_gamma.value(),
                z,
                k_at_gamma.value(),
                k_at_gamma.value(),
                p,
            );
        }
        let verifier_folding_trace = folding_verifier::fold_traces(&dk_domain, &all, &gamma);
        let committed_error = match transcript.read_commitment() {
            Ok(c) => c,
            Err(e) => {
                return Err(e);
            },
        };
        proof {
            assert(transcript.history() =~= start + Self::messages(
                beta_pg.value(),
                poly_k.model(),
                gamma.value(),
                k_at_gamma.value(),
                committed_error.model(),
            ));
            assert forall|run: Seq<Message<<CS::Commitment as Linear<F>>::Model>>| #[trigger]
                old(transcript).follows(run) && Self::is_round(run) implies transcript.history()
                == start + run.take(5) && transcript.follows(run.skip(5)) by {
                assert(run.skip(1).skip(1).skip(1).skip(1).skip(1) =~= run.skip(5));
                assert(transcript.history() =~= start + run.take(5));
            }
        }
        let folded = ProtogalaxyVerifierOneShot {
            verifier_folding_trace,
            error_term,
            beta: beta_pg,
        };
        Ok((folded, OneShotOpening { gamma, committed_error }))
    }

    /// Returns the openings that the check of the proof of the folded trace asks for:
    /// of the folded advice columns, and of the error terms that were committed to,
    /// at the point of the proof and at the challenge that joins the rows, where they
    /// have to open to the error term.
    pub fn queries<'a>(
        &'a self,
        opening: &'a OneShotOpening<F, CS::Commitment>,
        domain: &EvaluationDomain<F>,
        cs: &ConstraintSystem<F>,
        committed_instances: &'a Vec<CS::Commitment>,
        fixed_commitments: &'a Vec<CS::Commitment>,
        evals: &FinalEvals<F>,
        arguments: Vec<VerifierQuery<'a, F, CS::Commitment>>,
        closing: Vec<VerifierQuery<'a, F, CS::Commitment>>,
    ) -> (r: Vec<VerifierQuery<'a, F, CS::Commitment>>)
        requires
            domain.wf(),
            self.verifier_folding_trace.advice@.len() > 0,
            evals.instance_evals@.len() == cs.instance_queries@.len(),
            evals.advice_evals@.len() == cs.advice_queries@.len(),
            evals.fixed_evals@.len() == cs.fixed_queries@.len(),
            forall|q: int|
                0 <= q < cs.advice_queries@.len() ==> (#[trigger] cs.advice_queries@[q]).0
                    < self.verifier_folding_trace.advice@[0]@.len(),
            forall|q: int|
                0 <= q < cs.fixed_queries@.len() ==> (#[trigger] cs.fixed_queries@[q]).0
                    < fixed_commitments@.len(),
        ensures
            query_models(r@) == self.openings(
                opening,
                domain.k as nat,
                cs,
                committed_instances@,
                fixed_commitments@,
                evals,
                query_models(arguments@),
                query_models(closing@),
            ),
    {
        final_queries(
            domain,
            cs,
            committed_instances,
            &self.verifier_folding_trace.advice[0],
            fixed_commitments,
            evals,
            arguments,
            closing,
            &opening.committed_error,
            &self.beta,
            &self.error_term,
        )
    }

    /// The openings that the check of the proof of the folded trace asks for.
    pub open spec fn openings(
        &self,
        opening: &OneShotOpening<F, CS::Commitment>,
        k: nat,
        cs: &ConstraintSystem<F>,
        committed_instances: Seq<CS::Commitment>,
        fixed_commitments: Seq<CS::Commitment>,
        evals: &FinalEvals<F>,
        arguments: Seq<QueryModel<CS::Commitment>>,
        closing: Seq<QueryModel<CS::Commitment>>,
    ) -> Seq<QueryModel<CS::Commitment>> {
        final_openings::<F, CS::Commitment>(
            k,
            cs.instance_queries@,
            cs.advice_queries@,
            cs.fixed_queries@,
            committed_instances,
            self.verifier_folding_trace.advice@[0]@,
            fixed_commitments,
            arguments,
            closing,
            opening.committed_error,
            field::values(evals.instance_evals@),
            field::values(evals.advice_evals@),
            field::values(evals.fixed_evals@),
            evals.correction_eval.value(),
            evals.x.value(),
            self.beta.value(),
            self.error_term.value(),
        )
    }

    /// Tells whether the commitments of a trace are those that were folded.
    pub fn has_commitments(
        &self,
        params: &CS::Parameters,
        folded_witness: &FoldingProverTrace<F>,
    ) -> (r: bool)
        requires
            commitment::served::<F, CS>(params, folded_witness.model()),
        ensures
            r == (commitment::committed::<F, CS>(params, folded_witness.model())
                == self.verifier_folding_trace.model()),
    {
        let committed_folded_witness = folded_witness.commit::<CS>(params);
        committed_folded_witness.same(&self.verifier_folding_trace)
    }

    /// Checks that a trace, whose commitments are those that were folded, satisfies
    /// the relaxed circuit: it misses the circuit by the error term, with the rows
    /// joined by the values of the basis polynomials at the challenge.
    pub fn is_sat<E: Evaluator<F>>(
        &self,
        params: &CS::Parameters,
        domain: &EvaluationDomain<F>,
        evaluator: &E,
        folded_witness: &FoldingProverTrace<F>,
        selectors: &Selectors<F>,
    ) -> (r: Result<(), Error>)
        requires
            domain.wf(),
            evaluator.accepts(domain.k as nat, selectors.model(), folded_witness.model()),
            commitment::served::<F, CS>(params, folded_witness.model()),
            commitment::committed::<F, CS>(params, folded_witness.model())
                == self.verifier_folding_trace.model(),
        ensures
            r == (if polynomial::dot(
                evaluator.h(domain.k as nat, selectors.model(), folded_witness.model()),
                interpolation::lagranges::<F>(domain.k as nat, self.beta.value()),
            ) % F::modulus() != self.error_term.value() {
                Err(Error::Opening)
            } else {
                Ok(())
            }),
    {
        let witness_poly = evaluator.evaluate_h(domain, selectors, folded_witness);
        let beta_coeffs = domain::lagrange_evals_at(domain, &self.beta);
        assert(field::values(beta_coeffs@) =~= interpolation::lagranges::<F>(
            domain.k as nat,
            self.beta.value(),
        ));
        let expected_result = parallel::inner_product(&witness_poly, &beta_coeffs);
        if expected_result.is(&self.error_term) {
            Ok(())
        } else {
            Err(Error::Opening)
        }
    }
}

/// The least rotation of the first `n` queries, and zero.
pub open spec fn least_rotation(queries: Seq<(usize, i32)>, n: nat) -> int
    decreases n,
{
    if n == 0 {
        0
    } else {
        let m = least_rotation(queries, (n - 1) as nat);
        if queries[n - 1].1 < m {
            queries[n - 1].1 as int
        } else {
            m
        }
    }
}

/// The greatest rotation of the first `n` queries, and zero.
pub open spec fn greatest_rotation(queries: Seq<(usize, i32)>, n: nat) -> int
    decreases n,
{
    if n == 0 {
        0
    } else {
        let m = greatest_rotation(queries, (n - 1) as nat);
        if queries[n - 1].1 > m {
            queries[n - 1].1 as int
        } else {
            m
        }
    }
}

/// The least and the greatest rotation bound all of them, and zero.
pub proof fn lemma_rotations(queries: Seq<(usize, i32)>, n: nat)
    requires
        n <= queries.len(),
    ensures
        i32::MIN <= least_rotation(queries, n) <= 0,
        0 <= greatest_rotation(queries, n) <= i32::MAX,
        forall|q: int|
            0 <= q < n ==> least_rotation(queries, n) <= (#[trigger] queries[q]).1
                <= greatest_rotation(queries, n),
    decreases n,
{
    if n > 0 {
        lemma_rotations(queries, (n - 1) as nat);
    }
}

/// Returns the least and the greatest rotation of the queries, zero among them.
pub fn rotation_range(queries: &Vec<(usize, i32)>) -> (r: (i32, i32))
    ensures
        r.0 == least_rotation(queries@, queries@.len()),
        r.1 == greatest_rotation(queries@, queries@.len()),
{
    let mut min: i32 = 0;
    let mut max: i32 = 0;
    for q in 0..queries.len()
        invariant
            min == least_rotation(queries@, q as nat),
            max == greatest_rotation(queries@, q as nat),
            min <= 0 <= max,
    {
        let rotation: i32 = queries[q].1;
        if rotation < min {
            min = rotation;
        } else if rotation > max {
            max = rotation;
        }
    }
    (min, max)
}

/// The value at `x`, rotated by `rotation` rows, of the polynomial of an instance
/// column: its values combined with those of the basis polynomials of the rows that
/// lie `rotation` rows before.
pub open spec fn instance_eval<F: PrimeField>(
    k: nat,
    instance: Seq<int>,
    rotation: int,
    x: int,
) -> int {
    residues::sum(
        instance.len(),
        |j: int| instance[j] * interpolation::lagrange::<F>(k, domain::wrap(
            j - rotation,
            pow2(k),
        ), x),
    ) % F::modulus()
}

/// The value of a query of an instance column, folded over the proofs.
pub open spec fn folded_instance_eval<F: PrimeField>(
    k: nat,
    dk: nat,
    instances: Seq<Seq<Seq<int>>>,
    column: int,
    rotation: int,
    x: int,
    gamma: int,
) -> int {
    residues::sum(
        instances.len(),
        |i: int|
            instance_eval::<F>(k, instances[i][column], rotation, x) * interpolation::lagrange::<
                F,
            >(dk, i, gamma),
    ) % F::modulus()
}

/// The values of the queries of committed columns, among the first `n` queries, in
/// their order.
pub open spec fn committed_values(
    queries: Seq<(usize, i32)>,
    nb_committed_instances: nat,
    evals: Seq<int>,
    n: nat,
) -> Seq<int>
    decreases n,
{
    if n == 0 {
        Seq::empty()
    } else {
        let below = committed_values(queries, nb_committed_instances, evals, (n - 1) as nat);
        if queries[n - 1].0 < nb_committed_instances {
            below.push(evals[n - 1])
        } else {
            below
        }
    }
}

/// The number of queries of committed columns among the first `n` queries.
pub open spec fn committed_count(
    queries: Seq<(usize, i32)>,
    nb_committed_instances: nat,
    n: nat,
) -> nat
    decreases n,
{
    if n == 0 {
        0
    } else {
        committed_count(queries, nb_committed_instances, (n - 1) as nat) + if queries[n - 1].0
            < nb_committed_instances {
            1nat
        } else {
            0
        }
    }
}

/// There are no more such queries among the first than among all.
proof fn lemma_committed_count(
    queries: Seq<(usize, i32)>,
    nb_committed_instances: nat,
    n: nat,
    all: nat,
)
    requires
        n <= all,
    ensures
        committed_count(queries, nb_committed_instances, n) <= committed_count(
            queries,
            nb_committed_instances,
            all,
        ),
        committed_count(queries, nb_committed_instances, n) <= n,
    decreases all,
{
    if n < all {
        lemma_committed_count(queries, nb_committed_instances, n, (all - 1) as nat);
    } else if n > 0 {
        lemma_committed_count(
            queries,
            nb_committed_instances,
            (n - 1) as nat,
            (n - 1) as nat,
        );
    }
}

/// The values of the queries of committed columns depend on the first values only.
proof fn lemma_committed_values(
    queries: Seq<(usize, i32)>,
    nb_committed_instances: nat,
    a: Seq<int>,
    b: Seq<int>,
    n: nat,
)
    requires
        n <= a.len(),
        n <= b.len(),
        forall|i: int| 0 <= i < n ==> #[trigger] a[i] == b[i],
    ensures
        committed_values(queries, nb_committed_instances, a, n) == committed_values(
            queries,
            nb_committed_instances,
            b,
            n,
        ),
    decreases n,
{
    if n > 0 {
        lemma_committed_values(queries, nb_committed_instances, a, b, (n - 1) as nat);
        assert(a[n - 1] == b[n - 1]);
    }
}

/// Returns the number of queries of committed columns.
pub fn count_committed(queries: &Vec<(usize, i32)>, nb_committed_instances: usize) -> (r: usize)
    ensures
        r == committed_count(queries@, nb_committed_instances as nat, queries@.len()),
{
    let mut r: usize = 0;
    for q in 0..queries.len()
        invariant
            r == committed_count(queries@, nb_committed_instances as nat, q as nat),
            r <= q,
    {
        if queries[q].0 < nb_committed_instances {
            r = r + 1;
        }
    }
    r
}

/// Every proof has the queried columns, and their rows can be counted.
pub open spec fn have_instances(
    queries: Seq<(usize, i32)>,
    nb_committed_instances: nat,
    instances: Seq<Seq<Seq<int>>>,
) -> bool {
    let low = least_rotation(queries, queries.len());
    &&& low > i32::MIN
    &&& forall|q: int, i: int|
        #![trigger queries[q], instances[i]]
        0 <= q < queries.len() && queries[q].0 >= nb_committed_instances && 0 <= i
            < instances.len() ==> queries[q].0 - nb_committed_instances < instances[i].len()
    &&& forall|i: int, c: int|
        #![trigger instances[i][c]]
        0 <= i < instances.len() && 0 <= c < instances[i].len() ==> instances[i][c].len() - low
            <= i32::MAX
}

/// Returns the greatest length of an instance column, or zero.
fn max_instance_len<F: PrimeField>(instances: &Vec<Vec<Vec<F>>>) -> (r: usize)
    ensures
        forall|i: int, c: int|
            #![trigger instances@[i]@[c]]
            0 <= i < instances@.len() && 0 <= c < instances@[i]@.len()
                ==> instances@[i]@[c]@.len() <= r,
        r == 0 || exists|i: int, c: int|
            #![trigger instances@[i]@[c]]
            0 <= i < instances@.len() && 0 <= c < instances@[i]@.len()
                && instances@[i]@[c]@.len() == r,
{
    let mut max: usize = 0;
    for i in 0..instances.len()
        invariant
            forall|l: int, c: int|
                #![trigger instances@[l]@[c]]
                0 <= l < i && 0 <= c < instances@[l]@.len() ==> instances@[l]@[c]@.len() <= max,
            max == 0 || exists|l: int, c: int|
                #![trigger instances@[l]@[c]]
                0 <= l < instances@.len() && 0 <= c < instances@[l]@.len()
                    && instances@[l]@[c]@.len() == max,
    {
        let columns: usize = instances[i].len();
        for c in 0..columns
            invariant
                i < instances@.len(),
                columns == instances@[i as int]@.len(),
                forall|l: int, d: int|
                    #![trigger instances@[l]@[d]]
                    0 <= l < i && 0 <= d < instances@[l]@.len() ==> instances@[l]@[d]@.len()
                        <= max,
                forall|d: int|
                    0 <= d < c ==> (#[trigger] instances@[i as int]@[d])@.len() <= max,
                max == 0 || exists|l: int, d: int|
                    #![trigger instances@[l]@[d]]
                    0 <= l < instances@.len() && 0 <= d < instances@[l]@.len()
                        && instances@[l]@[d]@.len() == max,
        {
            let len: usize = instances[i][c].len();
            if len > max {
                max = len;
                assert(instances@[i as int]@[c as int]@.len() == max);
            }
        }
    }
    max
}

/// Returns the sum of the values of a column with the elements of `weights` from
/// `offset` on.
fn weighted_from<F: PrimeField>(instance: &Vec<F>, weights: &Vec<F>, offset: usize) -> (r: F)
    requires
        offset + instance@.len() <= weights@.len(),
    ensures
        r.value() == residues::sum(
            instance@.len(),
            |j: int| instance@[j].value() * weights@[offset + j].value(),
        ) % F::modulus(),
{
    let ghost p = F::modulus();
    let ghost f = |j: int| instance@[j].value() * weights@[offset + j].value();
    let mut r = F::zero();
    let size: usize = weights.len();
    proof {
        F::lemma_field();
    }
    for j in 0..instance.len()
        invariant
            p == F::modulus(),
            p > 3,
            size == weights@.len(),
            offset + instance@.len() <= size,
            f == (|j: int| instance@[j].value() * weights@[offset + j].value()),
            0 <= r.value() < p,
            residues::cong(r.value(), residues::sum(j as nat, f), p),
    {
        let t = instance[j].mul(&weights[offset + j]);
        proof {
            residues::lemma_mod_cong(f(j as int), p);
            residues::lemma_cong_ops(
                r.value(),
                residues::sum(j as nat, f),
                t.value(),
                f(j as int),
                p,
            );
            residues::lemma_mod_cong(r.value() + t.value(), p);
        }
        r = r.add(&t);
    }
    proof {
        residues::lemma_residue_is(r.value(), residues::sum(instance@.len(), f), p);
    }
    r
}

/// Returns the values of the queries of instance columns at `x`.
///
/// Those of committed columns are given, in the order of the queries. Those of
/// other columns are computed from the instances of all proofs, and folded over the
/// proofs at `gamma`, as all else was.
pub fn instance_evals<F: PrimeField>(
    domain: &EvaluationDomain<F>,
    dk_domain: &EvaluationDomain<F>,
    instance_queries: &Vec<(usize, i32)>,
    nb_committed_instances: usize,
    committed_evals: &Vec<F>,
    instances: &Vec<Vec<Vec<F>>>,
    x: &F,
    gamma: &F,
) -> (r: Vec<F>)
    requires
        domain.wf(),
        dk_domain.wf(),
        instances@.len() == dk_domain.size(),
        have_instances(instance_queries@, nb_committed_instances as nat, instances.model()),
        committed_evals@.len() == committed_count(
            instance_queries@,
            nb_committed_instances as nat,
            instance_queries@.len(),
        ),
    ensures
        r@.len() == instance_queries@.len(),
        committed_values(
            instance_queries@,
            nb_committed_instances as nat,
            field::values(r@),
            r@.len(),
        ) == field::values(committed_evals@),
        forall|q: int|
            0 <= q < r@.len() && instance_queries@[q].0 >= nb_committed_instances
                ==> #[trigger] r@[q].value() == folded_instance_eval::<F>(
                domain.k as nat,
                dk_domain.k as nat,
                instances.model(),
                instance_queries@[q].0 - nb_committed_instances,
                instance_queries@[q].1 as int,
                x.value(),
                gamma.value(),
            ),
{
    let ghost m: Seq<Seq<Seq<int>>> = instances.model();
    let ghost queries = instance_queries@;
    let ghost nb = nb_committed_instances as nat;
    let ghost given = field::values(committed_evals@);
    let (min_rotation, max_rotation) = rotation_range(instance_queries);
    let max_len: usize = max_instance_len(instances);
    proof {
        lemma_rotations(queries, queries.len());
        assert forall|i: int, c: int|
            #![trigger instances@[i]@[c]]
            0 <= i < instances@.len() && 0 <= c < instances@[i]@.len() implies m[i][c].len()
            == instances@[i]@[c]@.len() && instances@[i]@[c]@.len() - min_rotation <= i32::MAX by {
            assert(m[i] == instances@[i].model());
            assert(m[i][c] == instances@[i]@[c].model());
        }
        assert(max_len - min_rotation <= i32::MAX);
    }
    let l_i_s = domain.l_i_range(x, -max_rotation, max_len as i32 - min_rotation);
    let lagranges_in_gamma = domain::lagrange_evals_at(dk_domain, gamma);
    let mut r: Vec<F> = Vec::new();
    let mut used: usize = 0;
    assert(given.take(0) =~= Seq::<int>::empty());
    for q in 0..instance_queries.len()
        invariant
            domain.wf(),
            dk_domain.wf(),
            instances@.len() == dk_domain.size(),
            m == instances.model(),
            queries == instance_queries@,
            nb == nb_committed_instances,
            given == field::values(committed_evals@),
            committed_evals@.len() == committed_count(queries, nb, queries.len()),
            have_instances(queries, nb, m),
            min_rotation == least_rotation(queries, queries.len()),
            max_rotation == greatest_rotation(queries, queries.len()),
            max_len - min_rotation <= i32::MAX,
            forall|i: int, c: int|
                #![trigger instances@[i]@[c]]
                0 <= i < instances@.len() && 0 <= c < instances@[i]@.len()
                    ==> instances@[i]@[c]@.len() <= max_len,
            l_i_s@.len() == max_len - min_rotation + max_rotation,
            forall|t: int|
                0 <= t < l_i_s@.len() ==> #[trigger] l_i_s@[t].value()
                    == interpolation::lagrange::<F>(
                    domain.k as nat,
                    domain::wrap(-max_rotation + t, domain.size()),
                    x.value(),
                ),
            lagranges_in_gamma@.len() == dk_domain.size(),
            forall|i: int|
                0 <= i < lagranges_in_gamma@.len() ==> #[trigger] lagranges_in_gamma@[i].value()
                    == interpolation::lagrange::<F>(dk_domain.k as nat, i, gamma.value()),
            r@.len() == q,
            used == committed_count(queries, nb, q as nat),
            used <= given.len(),
            committed_values(queries, nb, field::values(r@), q as nat) == given.take(used as int),
            forall|l: int|
                0 <= l < q && queries[l].0 >= nb ==> #[trigger] r@[l].value()
                    == folded_instance_eval::<F>(
                    domain.k as nat,
                    dk_domain.k as nat,
                    m,
                    queries[l].0 - nb,
                    queries[l].1 as int,
                    x.value(),
                    gamma.value(),
                ),
    {
        let (column, rotation) = instance_queries[q];
        let ghost before = r@;
        let ghost used_before = used;
        proof {
            lemma_committed_count(queries, nb, (q + 1) as nat, queries.len());
        }
        let eval: F = if column < nb_committed_instances {
            let v = committed_evals[used];
            used = used + 1;
            v
        } else {
            proof {
                lemma_rotations(queries, queries.len());
                assert(queries[q as int].1 == rotation);
                assert forall|i: int| 0 <= i < instances@.len() implies column
                    - nb_committed_instances < (#[trigger] instances@[i])@.len() && max_rotation
                    - rotation + instances@[i]@[column - nb_committed_instances]@.len()
                    <= l_i_s@.len() by {
                    assert(queries[q as int].0 - nb < m[i].len());
                    assert(m[i] == instances@[i].model());
                }
            }
            folded_query(
                domain,
                dk_domain,
                instances,
                (column - nb_committed_instances, rotation),
                &l_i_s,
                max_rotation,
                &lagranges_in_gamma,
                x,
                gamma,
            )
        };
        r.push(eval);
        proof {
            lemma_committed_values(
                queries,
                nb,
                field::values(before),
                field::values(r@),
                q as nat,
            );
            if column < nb_committed_instances {
                assert(given.take(used as int) =~= given.take(used_before as int).push(
                    eval.value(),
                ));
            }
        }
    }
    assert(given.take(given.len() as int) =~= given);
    r
}

/// Reads the values of the queries of committed columns, and returns those of all
/// queries of instance columns at `x`.
pub fn read_instance_evals<F: PrimeField, C: Linear<F>, T: Transcript<F, C>>(
    domain: &EvaluationDomain<F>,
    dk_domain: &EvaluationDomain<F>,
    instance_queries: &Vec<(usize, i32)>,
    nb_committed_instances: usize,
    instances: &Vec<Vec<Vec<F>>>,
    x: &F,
    gamma: &F,
    transcript: &mut T,
) -> (r: Result<Vec<F>, Error>)
    requires
        domain.wf(),
        dk_domain.wf(),
        instances@.len() == dk_domain.size(),
        have_instances(instance_queries@, nb_committed_instances as nat, instances.model()),
        !old(transcript).failed(),
    ensures
        (r matches Err(Error::Transcript)) == final(transcript).failed(),
        r matches Err(e) ==> e == Error::Transcript,
        r matches Ok(evals) ==> {
            &&& evals@.len() == instance_queries@.len()
            &&& final(transcript).history() == old(transcript).history() + scalars::<C::Model>(
                committed_values(
                    instance_queries@,
                    nb_committed_instances as nat,
                    field::values(evals@),
                    evals@.len(),
                ),
            )
            &&& forall|q: int|
                0 <= q < evals@.len() && instance_queries@[q].0 >= nb_committed_instances
                    ==> #[trigger] evals@[q].value() == folded_instance_eval::<F>(
                    domain.k as nat,
                    dk_domain.k as nat,
                    instances.model(),
                    instance_queries@[q].0 - nb_committed_instances,
                    instance_queries@[q].1 as int,
                    x.value(),
                    gamma.value(),
                )
        },
        forall|run: Seq<Message<C::Model>>|
            ({
                let n = committed_count(
                    instance_queries@,
                    nb_committed_instances as nat,
                    instance_queries@.len(),
                );
                #[trigger] old(transcript).follows(run) && begins_with_scalars(run, n) ==> {
                    &&& r is Ok
                    &&& final(transcript).history() == old(transcript).history() + run.take(
                        n as int,
                    )
                    &&& final(transcript).follows(run.skip(n as int))
                }
            }),
{
    let n: usize = count_committed(instance_queries, nb_committed_instances);
    let committed_evals = match read_n(transcript, n) {
        Ok(v) => v,
        Err(e) => {
            return Err(e);
        },
    };
    Ok(
        instance_evals(
            domain,
            dk_domain,
            instance_queries,
            nb_committed_instances,
            &committed_evals,
            instances,
            x,
            gamma,
        ),
    )
}

/// Returns the value of one query of an instance column, folded over the proofs.
fn folded_query<F: PrimeField>(
    domain: &EvaluationDomain<F>,
    dk_domain: &EvaluationDomain<F>,
    instances: &Vec<Vec<Vec<F>>>,
    query: (usize, i32),
    l_i_s: &Vec<F>,
    max_rotation: i32,
    lagranges_in_gamma: &Vec<F>,
    x: &F,
    gamma: &F,
) -> (r: F)
    requires
        query.1 <= max_rotation,
        instances@.len() == lagranges_in_gamma@.len(),
        forall|i: int|
            0 <= i < instances@.len() ==> query.0 < (#[trigger] instances@[i])@.len()
                && max_rotation - query.1 + instances@[i]@[query.0 as int]@.len() <= l_i_s@.len(),
        forall|t: int|
            0 <= t < l_i_s@.len() ==> #[trigger] l_i_s@[t].value() == interpolation::lagrange::<F>(
                domain.k as nat,
                domain::wrap(-max_rotation + t, domain.size()),
                x.value(),
            ),
        forall|i: int|
            0 <= i < lagranges_in_gamma@.len() ==> #[trigger] lagranges_in_gamma@[i].value()
                == interpolation::lagrange::<F>(dk_domain.k as nat, i, gamma.value()),
    ensures
        r.value() == folded_instance_eval::<F>(
            domain.k as nat,
            dk_domain.k as nat,
            instances.model(),
            query.0 as int,
            query.1 as int,
            x.value(),
            gamma.value(),
        ),
{
    let (column, rotation) = query;
    let offset: usize = (max_rotation as i64 - rotation as i64) as usize;
    let ghost p = F::modulus();
    let ghost k = domain.k as nat;
    let ghost m: Seq<Seq<Seq<int>>> = instances.model();
    let ghost f = |i: int|
        instance_eval::<F>(k, m[i][column as int], rotation as int, x.value())
            * interpolation::lagrange::<F>(dk_domain.k as nat, i, gamma.value());
    proof {
        F::lemma_field();
    }
    let mut r = F::zero();
    for i in 0..instances.len()
        invariant
            p == F::modulus(),
            p > 3,
            k == domain.k,
            m == instances.model(),
            f == (|i: int|
                instance_eval::<F>(k, m[i][column as int], rotation as int, x.value())
                    * interpolation::lagrange::<F>(dk_domain.k as nat, i, gamma.value())),
            offset == max_rotation - rotation,
            instances@.len() == lagranges_in_gamma@.len(),
            forall|i: int|
                0 <= i < instances@.len() ==> column < (#[trigger] instances@[i])@.len() && offset
                    + instances@[i]@[column as int]@.len() <= l_i_s@.len(),
            forall|t: int|
                0 <= t < l_i_s@.len() ==> #[trigger] l_i_s@[t].value()
                    == interpolation::lagrange::<F>(
                    domain.k as nat,
                    domain::wrap(-max_rotation + t, domain.size()),
                    x.value(),
                ),
            forall|i: int|
                0 <= i < lagranges_in_gamma@.len() ==> #[trigger] lagranges_in_gamma@[i].value()
                    == interpolation::lagrange::<F>(dk_domain.k as nat, i, gamma.value()),
            0 <= r.value() < p,
            residues::cong(r.value(), residues::sum(i as nat, f), p),
    {
        let eval = weighted_from(&instances[i][column], l_i_s, offset);
        let t = eval.mul(&lagranges_in_gamma[i]);
        proof {
            let instance = instances@[i as int]@[column as int]@;
            let values = m[i as int][column as int];
            assert(m[i as int] == instances@[i as int].model());
            assert(values == instances@[i as int]@[column as int].model());
            let g = |j: int| instance[j].value() * l_i_s@[offset + j].value();
            let h = |j: int|
                values[j] * interpolation::lagrange::<F>(
                    k,
                    domain::wrap(j - rotation, pow2(k)),
                    x.value(),
                );
            assert forall|j: int| 0 <= j < instance.len() implies #[trigger] g(j) == h(j) by {
                assert(l_i_s@[offset + j].value() == interpolation::lagrange::<F>(
                    k,
                    domain::wrap(-max_rotation + (offset + j), domain.size()),
                    x.value(),
                ));
            }
            residues::lemma_sum_eq(instance.len(), g, h);
            assert(eval.value() == instance_eval::<F>(k, values, rotation as int, x.value()));
            residues::lemma_mod_cong(f(i as int), p);
            residues::lemma_cong_ops(
                r.value(),
                residues::sum(i as nat, f),
                t.value(),
                f(i as int),
                p,
            );
            residues::lemma_mod_cong(r.value() + t.value(), p);
        }
        r = r.add(&t);
    }
    proof {
        residues::lemma_residue_is(r.value(), residues::sum(instances@.len(), f), p);
    }
    r
}

/// The messages that send elements.
pub open spec fn scalars<M>(values: Seq<int>) -> Seq<Message<M>> {
    Seq::new(values.len(), |i: int| Message::Scalar(values[i]))
}

/// A run begins with `n` elements.
pub open spec fn begins_with_scalars<M>(run: Seq<Message<M>>, n: nat) -> bool {
    &&& run.len() >= n
    &&& forall|i: int| 0 <= i < n ==> #[trigger] run[i] is Scalar
}

/// Reads `n` elements.
pub fn read_n<F: PrimeField, C: Linear<F>, T: Transcript<F, C>>(transcript: &mut T, n: usize) -> (r:
    Result<Vec<F>, Error>)
    requires
        !old(transcript).failed(),
    ensures
        (r matches Err(Error::Transcript)) == final(transcript).failed(),
        r matches Err(e) ==> e == Error::Transcript,
        r matches Ok(values) ==> values@.len() == n && final(transcript).history() == old(
            transcript,
        ).history() + scalars::<C::Model>(field::values(values@)),
        forall|run: Seq<Message<C::Model>>| #[trigger]
            old(transcript).follows(run) && begins_with_scalars(run, n as nat) ==> {
                &&& r is Ok
                &&& final(transcript).history() == old(transcript).history() + run.take(n as int)
                &&& final(transcript).follows(run.skip(n as int))
            },
{
    let ghost start = transcript.history();
    let ghost first = *transcript;
    let mut r: Vec<F> = Vec::new();
    proof {
        assert(start + scalars::<C::Model>(field::values(r@)) =~= start);
        assert forall|run: Seq<Message<C::Model>>| #[trigger]
            first.follows(run) && begins_with_scalars(run, n as nat) implies transcript.history()
            == start + run.take(0) && transcript.follows(run.skip(0)) by {
            assert(run.skip(0) =~= run);
            assert(start + run.take(0) =~= start);
        }
    }
    for i in 0..n
        invariant
            !transcript.failed(),
            first == *old(transcript),
            r@.len() == i,
            transcript.history() == start + scalars::<C::Model>(field::values(r@)),
            forall|run: Seq<Message<C::Model>>| #[trigger]
                first.follows(run) && begins_with_scalars(run, n as nat) ==> {
                    &&& transcript.history() == start + run.take(i as int)
                    &&& transcript.follows(run.skip(i as int))
                },
    {
        let ghost before = *transcript;
        let next = transcript.read_scalar();
        proof {
            assert forall|run: Seq<Message<C::Model>>| #[trigger]
                first.follows(run) && begins_with_scalars(run, n as nat) implies next is Ok
                && transcript.history() == start + run.take(i + 1) && transcript.follows(
                run.skip(i + 1),
            ) by {
                let rest = run.skip(i as int);
                assert(before.follows(rest));
                assert(rest[0] == run[i as int]);
                assert(run[i as int] is Scalar);
                assert(rest.skip(1) =~= run.skip(i + 1));
                assert(transcript.history() =~= start + run.take(i + 1));
            }
        }
        match next {
            Ok(v) => {
                r.push(v);
                assert(transcript.history() =~= start + scalars::<C::Model>(field::values(r@)));
            },
            Err(e) => {
                return Err(e);
            },
        }
    }
    Ok(r)
}

/// The values at a point of the polynomials that select rows.
pub struct RowSelection<F: PrimeField> {
    /// That of the first row.
    pub l_0: F,
    /// That of the last row.
    pub l_last: F,
    /// That of the blinding rows, which follow the last one.
    pub l_blind: F,
}

/// Returns the values at `x` of the polynomials that select the first row, the last
/// one and the blinding ones.
pub fn select_rows<F: PrimeField>(
    domain: &EvaluationDomain<F>,
    x: &F,
    blinding_factors: u32,
) -> (r: RowSelection<F>)
    requires
        domain.wf(),
        blinding_factors < i32::MAX,
    ensures
        r.l_0.value() == interpolation::lagrange::<F>(domain.k as nat, 0, x.value()),
        r.l_last.value() == interpolation::lagrange::<F>(
            domain.k as nat,
            domain::wrap(-(blinding_factors + 1), domain.size()),
            x.value(),
        ),
        r.l_blind.value() == residues::sum(
            blinding_factors as nat,
            |i: int|
                interpolation::lagrange::<F>(
                    domain.k as nat,
                    domain::wrap(i - blinding_factors, domain.size()),
                    x.value(),
                ),
        ) % F::modulus(),
        forall|row: nat|
            row < domain.size() && blinding_factors < domain.size() && residues::cong(
                x.value(),
                #[trigger] interpolation::point::<F>(domain.k as nat, row),
                F::modulus(),
            ) ==> {
                let last = domain.size() - 1 - blinding_factors;
                &&& r.l_0.value() == if row == 0 { 1int } else { 0 }
                &&& r.l_last.value() == if row == last { 1int } else { 0 }
                &&& r.l_blind.value() == if row > last { 1int } else { 0 }
            },
{
    let ghost p = F::modulus();
    let ghost k = domain.k as nat;
    let from: i32 = -((blinding_factors + 1) as i32);
    let l_evals = domain.l_i_range(x, from, 1);
    let l_last = l_evals[0];
    let ghost f = |i: int|
        interpolation::lagrange::<F>(
            k,
            domain::wrap(i - blinding_factors, domain.size()),
            x.value(),
        );
    let mut l_blind = F::zero();
    let n: usize = blinding_factors as usize;
    proof {
        F::lemma_field();
        lemma_pow2_pos(k);
        lemma_small_mod(0, domain.size());
    }
    for i in 0..n
        invariant
            p == F::modulus(),
            p > 3,
            k == domain.k,
            n == blinding_factors,
            from == -(blinding_factors + 1),
            l_evals@.len() == n + 2,
            forall|j: int|
                0 <= j < l_evals@.len() ==> #[trigger] l_evals@[j].value()
                    == interpolation::lagrange::<F>(
                    k,
                    domain::wrap(from + j, domain.size()),
                    x.value(),
                ),
            f == (|i: int|
                interpolation::lagrange::<F>(
                    k,
                    domain::wrap(i - blinding_factors, domain.size()),
                    x.value(),
                )),
            0 <= l_blind.value() < p,
            residues::cong(l_blind.value(), residues::sum(i as nat, f), p),
    {
        proof {
            let v = l_evals@[i + 1].value();
            assert(v == interpolation::lagrange::<F>(
                k,
                domain::wrap(from + (i + 1), domain.size()),
                x.value(),
            ));
            assert(v == f(i as int));
            residues::lemma_cong_ops(
                l_blind.value(),
                residues::sum(i as nat, f),
                v,
                f(i as int),
                p,
            );
            residues::lemma_mod_cong(l_blind.value() + v, p);
        }
        l_blind = l_blind.add(&l_evals[i + 1]);
    }
    proof {
        residues::lemma_residue_is(l_blind.value(), residues::sum(n as nat, f), p);
    }
    let l_0 = l_evals[n + 1];
    proof {
        assert forall|row: nat|
            row < domain.size() && blinding_factors < domain.size() && residues::cong(
                x.value(),
                #[trigger] interpolation::point::<F>(domain.k as nat, row),
                F::modulus(),
            ) implies {
            let last = domain.size() - 1 - blinding_factors;
            &&& l_0.value() == if row == 0 { 1int } else { 0 }
            &&& l_last.value() == if row == last { 1int } else { 0 }
            &&& l_blind.value() == if row > last { 1int } else { 0 }
        } by {
            lemma_selected_rows::<F>(k, blinding_factors as nat, x.value(), row);
        }
    }
    RowSelection { l_0, l_last, l_blind }
}

/// At the point of a row, what selects the first row, the last one or the blinding
/// rows is one where the row is among them, and zero elsewhere.
proof fn lemma_selected_rows<F: PrimeField>(k: nat, blinding: nat, x: int, row: nat)
    requires
        k <= F::two_adicity(),
        blinding < pow2(k),
        row < pow2(k),
        residues::cong(x, interpolation::point::<F>(k, row), F::modulus()),
    ensures
        interpolation::lagrange::<F>(k, 0, x) == if row == 0 {
            1int
        } else {
            0
        },
        interpolation::lagrange::<F>(k, domain::wrap(-(blinding + 1), pow2(k)), x) == if row
            == pow2(k) - 1 - blinding {
            1int
        } else {
            0
        },
        residues::sum(
            blinding,
            |i: int|
                interpolation::lagrange::<F>(k, domain::wrap(i - blinding, pow2(k)), x),
        ) % F::modulus() == if row > pow2(k) - 1 - blinding {
            1int
        } else {
            0
        },
{
    F::lemma_field();
    let p = F::modulus();
    let n = pow2(k);
    lemma_pow2_pos(k);
    assert forall|i: nat| i < n implies #[trigger] interpolation::lagrange::<F>(k, i as int, x)
        == if i == row {
        1int
    } else {
        0
    } by {
        let y = interpolation::point::<F>(k, row);
        interpolation::lemma_lagranges_cong::<F>(k, x, y);
        assert(interpolation::lagranges::<F>(k, x)[i as int] == interpolation::lagrange::<F>(
            k,
            i as int,
            x,
        ));
        assert(interpolation::lagranges::<F>(k, y)[i as int] == interpolation::lagrange::<F>(
            k,
            i as int,
            y,
        ));
        interpolation::lemma_lagrange_at_points::<F>(k, i, row);
    }
    assert(interpolation::lagrange::<F>(k, 0nat as int, x) == interpolation::lagrange::<F>(
        k,
        0,
        x,
    ));
    let f = |i: int| interpolation::lagrange::<F>(k, domain::wrap(i - blinding, n), x);
    assert forall|d: int| -n <= d < 0 implies #[trigger] domain::wrap(d, n) == n + d by {
        lemma_mod_add_multiples_vanish(d, n as int);
        lemma_small_mod((n + d) as nat, n);
    }
    let last = (n - 1 - blinding) as nat;
    assert(domain::wrap(-(blinding + 1), n) == last as int);
    assert(interpolation::lagrange::<F>(k, last as int, x) == if last == row {
        1int
    } else {
        0
    });
    assert forall|i: int| 0 <= i < blinding implies #[trigger] f(i) == if i + n - blinding == row {
        1int
    } else {
        0
    } by {
        let place = (n + (i - blinding)) as nat;
        assert(domain::wrap(i - blinding, n) == place as int);
        assert(interpolation::lagrange::<F>(k, place as int, x) == if place == row {
            1int
        } else {
            0
        });
    }
    lemma_small_mod(0, p as nat);
    lemma_small_mod(1, p as nat);
    if row > last {
        let at = row - n + blinding;
        residues::lemma_sum_single(blinding, f, at, p);
    } else {
        residues::lemma_sum_zero(blinding, f);
    }
}

/// Returns the values of the gates, from the values that the queries give at a
/// point.
pub fn gate_evals<F: PrimeField>(
    cs: &ConstraintSystem<F>,
    fixed_evals: &Vec<F>,
    advice_evals: &Vec<F>,
    instance_evals: &Vec<F>,
    challenges: &Vec<F>,
) -> (r: Vec<F>)
    requires
        forall|g: int|
            0 <= g < cs.gates@.len() ==> (#[trigger] cs.gates@[g]).within(
                fixed_evals@.len(),
                advice_evals@.len(),
                instance_evals@.len(),
                challenges@.len(),
            ),
    ensures
        field::values(r@) == Seq::new(
            cs.gates@.len(),
            |g: int|
                cs.gates@[g].meaning(
                    (Queried {
                        fixed: field::values(fixed_evals@),
                        advice: field::values(advice_evals@),
                        instance: field::values(instance_evals@),
                        challenges: field::values(challenges@),
                    }),
                ) % F::modulus(),
        ),
{
    let ghost q = Queried {
        fixed: field::values(fixed_evals@),
        advice: field::values(advice_evals@),
        instance: field::values(instance_evals@),
        challenges: field::values(challenges@),
    };
    let mut r: Vec<F> = Vec::new();
    for g in 0..cs.gates.len()
        invariant
            forall|g: int|
                0 <= g < cs.gates@.len() ==> (#[trigger] cs.gates@[g]).within(
                    fixed_evals@.len(),
                    advice_evals@.len(),
                    instance_evals@.len(),
                    challenges@.len(),
                ),
            q == (Queried {
                fixed: field::values(fixed_evals@),
                advice: field::values(advice_evals@),
                instance: field::values(instance_evals@),
                challenges: field::values(challenges@),
            }),
            r@.len() == g,
            forall|l: int|
                0 <= l < g ==> #[trigger] r@[l].value() == cs.gates@[l].meaning(q) % F::modulus(),
    {
        r.push(cs.gates[g].evaluate(fixed_evals, advice_evals, instance_evals, challenges));
    }
    assert(field::values(r@) =~= Seq::new(
        cs.gates@.len(),
        |g: int| cs.gates@[g].meaning(q) % F::modulus(),
    ));
    r
}

/// A commitment that is claimed to open to a value at a point.
pub struct VerifierQuery<'a, F: PrimeField, C> {
    /// The point.
    pub point: F,
    /// The commitment.
    pub commitment: &'a C,
    /// The value.
    pub eval: F,
}

/// What a query stands for.
pub struct QueryModel<C> {
    pub point: int,
    pub commitment: C,
    pub eval: int,
}

/// What a list of queries stands for.
pub open spec fn query_models<F: PrimeField, C>(queries: Seq<VerifierQuery<F, C>>) -> Seq<
    QueryModel<C>,
> {
    Seq::new(
        queries.len(),
        |i: int|
            QueryModel {
                point: queries[i].point.value(),
                commitment: *queries[i].commitment,
                eval: queries[i].eval.value(),
            },
    )
}

/// The openings of columns that the first `n` queries ask for: each at the point `x`,
/// rotated; only those of the first `limit` columns.
pub open spec fn column_openings<F: PrimeField, C>(
    k: nat,
    queries: Seq<(usize, i32)>,
    limit: nat,
    commitments: Seq<C>,
    evals: Seq<int>,
    x: int,
    n: nat,
) -> Seq<QueryModel<C>>
    decreases n,
{
    if n == 0 {
        Seq::empty()
    } else {
        let below = column_openings::<F, C>(
            k,
            queries,
            limit,
            commitments,
            evals,
            x,
            (n - 1) as nat,
        );
        let (column, rotation) = queries[n - 1];
        if column < limit {
            below.push(
                QueryModel {
                    point: (x * interpolation::point::<F>(
                        k,
                        domain::wrap(rotation as int, pow2(k)) as nat,
                    )) % F::modulus(),
                    commitment: commitments[column as int],
                    eval: evals[n - 1],
                },
            )
        } else {
            below
        }
    }
}

/// Adds the openings of columns that the queries ask for, as far as they are among
/// the first `limit` columns.
fn push_column_openings<'a, F: PrimeField, C>(
    out: &mut Vec<VerifierQuery<'a, F, C>>,
    domain: &EvaluationDomain<F>,
    queries: &Vec<(usize, i32)>,
    limit: usize,
    commitments: &'a Vec<C>,
    evals: &Vec<F>,
    x: &F,
)
    requires
        domain.wf(),
        evals@.len() == queries@.len(),
        forall|q: int|
            0 <= q < queries@.len() && (#[trigger] queries@[q]).0 < limit ==> queries@[q].0
                < commitments@.len(),
    ensures
        query_models(final(out)@) == query_models(old(out)@) + column_openings::<F, C>(
            domain.k as nat,
            queries@,
            limit as nat,
            commitments@,
            field::values(evals@),
            x.value(),
            queries@.len(),
        ),
{
    let ghost start = query_models(out@);
    let ghost k = domain.k as nat;
    let ghost m = commitments@;
    let ghost v = field::values(evals@);
    for q in 0..queries.len()
        invariant
            domain.wf(),
            k == domain.k,
            m == commitments@,
            v == field::values(evals@),
            evals@.len() == queries@.len(),
            forall|q: int|
                0 <= q < queries@.len() && (#[trigger] queries@[q]).0 < limit ==> queries@[q].0
                    < commitments@.len(),
            query_models(out@) =~= start + column_openings::<F, C>(
                k,
                queries@,
                limit as nat,
                m,
                v,
                x.value(),
                q as nat,
            ),
    {
        let (column, rotation) = queries[q];
        let ghost before = out@;
        if column < limit {
            assert(queries@[q as int].0 < limit);
            let point = domain.rotate_omega(x, rotation);
            out.push(VerifierQuery { point, commitment: &commitments[column], eval: evals[q] });
            assert(query_models(out@) =~= query_models(before).push(
                QueryModel {
                    point: point.value(),
                    commitment: m[column as int],
                    eval: v[q as int],
                },
            ));
        }
    }
}

/// Adds further queries.
fn append_queries<'a, F: PrimeField, C>(
    out: &mut Vec<VerifierQuery<'a, F, C>>,
    mut more: Vec<VerifierQuery<'a, F, C>>,
)
    ensures
        query_models(final(out)@) == query_models(old(out)@) + query_models(more@),
{
    let ghost (a, b) = (out@, more@);
    out.append(&mut more);
    assert(out@ =~= a + b);
    assert(query_models(out@) =~= query_models(a) + query_models(b));
}

/// What the check of the proof of the folded trace reads and computes.
pub struct FinalEvals<F: PrimeField> {
    /// The point of the proof.
    pub x: F,
    /// The values of the queries of instance columns.
    pub instance_evals: Vec<F>,
    /// The values of the queries of advice columns.
    pub advice_evals: Vec<F>,
    /// The values of the queries of fixed columns.
    pub fixed_evals: Vec<F>,
    /// The value of the polynomial of the error terms.
    pub correction_eval: F,
}

/// What is drawn and read for the check of the proof of the folded trace, up to the
/// arguments: the point, what the queries of committed instance columns, of advice
/// columns and of fixed columns give there, and the value of the polynomial of the
/// error terms.
pub open spec fn final_messages<F: PrimeField, M>(
    cs: &ConstraintSystem<F>,
    nb_committed_instances: nat,
    evals: &FinalEvals<F>,
) -> Seq<Message<M>> {
    seq![Message::Challenge(evals.x.value())] + scalars(
        committed_values(
            cs.instance_queries@,
            nb_committed_instances,
            field::values(evals.instance_evals@),
            cs.instance_queries@.len(),
        ),
    ) + scalars(field::values(evals.advice_evals@)) + scalars(field::values(evals.fixed_evals@))
        + seq![Message::Scalar(evals.correction_eval.value())]
}

/// The number of steps for the check of the proof of the folded trace, up to the
/// arguments.
pub open spec fn final_count<F: PrimeField>(
    cs: &ConstraintSystem<F>,
    nb_committed_instances: nat,
) -> nat {
    committed_count(cs.instance_queries@, nb_committed_instances, cs.instance_queries@.len())
        + cs.advice_queries@.len() + cs.fixed_queries@.len() + 2
}

/// Draws the point of the proof of the folded trace, and reads or computes what the
/// queries give there. The traces were folded at the challenge of `opening`.
pub fn read_final_evals<F: PrimeField, C: Linear<F>, T: Transcript<F, C>>(
    domain: &EvaluationDomain<F>,
    dk_domain: &EvaluationDomain<F>,
    cs: &ConstraintSystem<F>,
    nb_committed_instances: usize,
    instances: &Vec<Vec<Vec<F>>>,
    opening: &OneShotOpening<F, C>,
    transcript: &mut T,
) -> (r: Result<FinalEvals<F>, Error>)
    requires
        domain.wf(),
        dk_domain.wf(),
        instances@.len() == dk_domain.size(),
        have_instances(cs.instance_queries@, nb_committed_instances as nat, instances.model()),
        !old(transcript).failed(),
    ensures
        (r matches Err(Error::Transcript)) == final(transcript).failed(),
        r matches Err(e) ==> e == Error::Transcript,
        r matches Ok(evals) ==> {
            &&& final(transcript).history() == old(transcript).history() + final_messages::<
                F,
                C::Model,
            >(cs, nb_committed_instances as nat, &evals)
            &&& evals.instance_evals@.len() == cs.instance_queries@.len()
            &&& evals.advice_evals@.len() == cs.advice_queries@.len()
            &&& evals.fixed_evals@.len() == cs.fixed_queries@.len()
            &&& forall|q: int|
                0 <= q < evals.instance_evals@.len() && cs.instance_queries@[q].0
                    >= nb_committed_instances ==> #[trigger] evals.instance_evals@[q].value()
                    == folded_instance_eval::<F>(
                    domain.k as nat,
                    dk_domain.k as nat,
                    instances.model(),
                    cs.instance_queries@[q].0 - nb_committed_instances,
                    cs.instance_queries@[q].1 as int,
                    evals.x.value(),
                    opening.gamma.value(),
                )
        },
        forall|run: Seq<Message<C::Model>>|
            ({
                let n = final_count(cs, nb_committed_instances as nat);
                #[trigger] old(transcript).follows(run) && run.len() > 0 && run[0] is Challenge
                    && begins_with_scalars(run.skip(1), (n - 1) as nat) ==> {
                    &&& r is Ok
                    &&& final(transcript).history() == old(transcript).history() + run.take(
                        n as int,
                    )
                    &&& final(transcript).follows(run.skip(n as int))
                }
            }),
{
    let ghost start = transcript.history();
    let x = transcript.squeeze_challenge();
    let instance_evals = match read_instance_evals(
        domain,
        dk_domain,
        &cs.instance_queries,
        nb_committed_instances,
        instances,
        &x,
        &opening.gamma,
        transcript,
    ) {
        Ok(v) => v,
        Err(e) => {
            return Err(e);
        },
    };
    let advice_evals = match read_n(transcript, cs.advice_queries.len()) {
        Ok(v) => v,
        Err(e) => {
            return Err(e);
        },
    };
    let fixed_evals = match read_n(transcript, cs.fixed_queries.len()) {
        Ok(v) => v,
        Err(e) => {
            return Err(e);
        },
    };
    let correction_eval = match transcript.read_scalar() {
        Ok(v) => v,
        Err(e) => {
            return Err(e);
        },
    };
    let evals = FinalEvals { x, instance_evals, advice_evals, fixed_evals, correction_eval };
    assert(transcript.history() =~= start + final_messages::<F, C::Model>(
        cs,
        nb_committed_instances as nat,
        &evals,
    ));
    proof {
        let c = committed_count(
            cs.instance_queries@,
            nb_committed_instances as nat,
            cs.instance_queries@.len(),
        ) as int;
        let (a, f) = (cs.advice_queries@.len() as int, cs.fixed_queries@.len() as int);
        let n = final_count(cs, nb_committed_instances as nat) as int;
        assert forall|run: Seq<Message<C::Model>>| #[trigger]
            old(transcript).follows(run) && run.len() > 0 && run[0] is Challenge
                && begins_with_scalars(run.skip(1), (n - 1) as nat) implies transcript.history()
            == start + run.take(n) && transcript.follows(run.skip(n)) by {
            let s1 = run.skip(1);
            let s2 = s1.skip(c);
            let s3 = s2.skip(a);
            let s4 = s3.skip(f);
            assert forall|i: int| 0 <= i < n - 1 implies #[trigger] run[1 + i] is Scalar by {
                assert(s1[i] is Scalar);
            }
            assert forall|i: int| 0 <= i < a implies #[trigger] s2[i] is Scalar by {
                assert(s2[i] == run[1 + (c + i)]);
            }
            assert forall|i: int| 0 <= i < f implies #[trigger] s3[i] is Scalar by {
                assert(s3[i] == run[1 + (c + a + i)]);
            }
            assert(s4[0] == run[1 + (c + a + f)]);
            assert(s4.skip(1) =~= run.skip(n));
            assert(transcript.history() =~= start + run.take(n));
        }
    }
    Ok(evals)
}

/// The openings that the check of the proof of the folded trace asks for, in their
/// order: the committed instance columns, the advice columns, those of the
/// arguments of the proof, the fixed columns, those that close the proof, and the
/// polynomial of the error terms at the point of the proof and at the challenge.
pub open spec fn final_openings<F: PrimeField, C>(
    k: nat,
    instance_queries: Seq<(usize, i32)>,
    advice_queries: Seq<(usize, i32)>,
    fixed_queries: Seq<(usize, i32)>,
    committed_instances: Seq<C>,
    advice_commitments: Seq<C>,
    fixed_commitments: Seq<C>,
    arguments: Seq<QueryModel<C>>,
    closing: Seq<QueryModel<C>>,
    committed_error: C,
    instance_evals: Seq<int>,
    advice_evals: Seq<int>,
    fixed_evals: Seq<int>,
    correction_eval: int,
    x: int,
    beta: int,
    error_term: int,
) -> Seq<QueryModel<C>> {
    column_openings::<F, C>(
        k,
        instance_queries,
        committed_instances.len(),
        committed_instances,
        instance_evals,
        x,
        instance_queries.len(),
    ) + column_openings::<F, C>(
        k,
        advice_queries,
        advice_commitments.len(),
        advice_commitments,
        advice_evals,
        x,
        advice_queries.len(),
    ) + arguments + column_openings::<F, C>(
        k,
        fixed_queries,
        fixed_commitments.len(),
        fixed_commitments,
        fixed_evals,
        x,
        fixed_queries.len(),
    ) + closing + seq![
        QueryModel { point: x, commitment: committed_error, eval: correction_eval },
        QueryModel { point: beta, commitment: committed_error, eval: error_term },
    ]
}

/// Returns the openings that the check of the proof of the folded trace asks for.
/// `arguments` are those of the permutation, the lookups and the trash arguments;
/// `closing` are those of the permutation of the circuit and of the quotient.
pub fn final_queries<'a, F: PrimeField, C>(
    domain: &EvaluationDomain<F>,
    cs: &ConstraintSystem<F>,
    committed_instances: &'a Vec<C>,
    advice_commitments: &'a Vec<C>,
    fixed_commitments: &'a Vec<C>,
    evals: &FinalEvals<F>,
    arguments: Vec<VerifierQuery<'a, F, C>>,
    closing: Vec<VerifierQuery<'a, F, C>>,
    committed_error: &'a C,
    beta: &F,
    error_term: &F,
) -> (r: Vec<VerifierQuery<'a, F, C>>)
    requires
        domain.wf(),
        evals.instance_evals@.len() == cs.instance_queries@.len(),
        evals.advice_evals@.len() == cs.advice_queries@.len(),
        evals.fixed_evals@.len() == cs.fixed_queries@.len(),
        forall|q: int|
            0 <= q < cs.advice_queries@.len() ==> (#[trigger] cs.advice_queries@[q]).0
                < advice_commitments@.len(),
        forall|q: int|
            0 <= q < cs.fixed_queries@.len() ==> (#[trigger] cs.fixed_queries@[q]).0
                < fixed_commitments@.len(),
    ensures
        query_models(r@) == final_openings::<F, C>(
            domain.k as nat,
            cs.instance_queries@,
            cs.advice_queries@,
            cs.fixed_queries@,
            committed_instances@,
            advice_commitments@,
            fixed_commitments@,
            query_models(arguments@),
            query_models(closing@),
            *committed_error,
            field::values(evals.instance_evals@),
            field::values(evals.advice_evals@),
            field::values(evals.fixed_evals@),
            evals.correction_eval.value(),
            evals.x.value(),
            beta.value(),
            error_term.value(),
        ),
{
    let mut r: Vec<VerifierQuery<'a, F, C>> = Vec::new();
    let ghost k = domain.k as nat;
    push_column_openings(
        &mut r,
        domain,
        &cs.instance_queries,
        committed_instances.len(),
        committed_instances,
        &evals.instance_evals,
        &evals.x,
    );
    push_column_openings(
        &mut r,
        domain,
        &cs.advice_queries,
        advice_commitments.len(),
        advice_commitments,
        &evals.advice_evals,
        &evals.x,
    );
    append_queries(&mut r, arguments);
    push_column_openings(
        &mut r,
        domain,
        &cs.fixed_queries,
        fixed_commitments.len(),
        fixed_commitments,
        &evals.fixed_evals,
        &evals.x,
    );
    append_queries(&mut r, closing);
    let ghost before = r@;
    r.push(
        VerifierQuery { point: evals.x, commitment: committed_error, eval: evals.correction_eval },
    );
    r.push(VerifierQuery { point: *beta, commitment: committed_error, eval: *error_term });
    assert(query_models(r@) =~= query_models(before) + seq![
        QueryModel {
            point: evals.x.value(),
            commitment: *committed_error,
            eval: evals.correction_eval.value(),
        },
        QueryModel {
            point: beta.value(),
            commitment: *committed_error,
            eval: error_term.value(),
        },
    ]);
    assert(query_models(r@) =~= final_openings::<F, C>(
        k,
        cs.instance_queries@,
        cs.advice_queries@,
        cs.fixed_queries@,
        committed_instances@,
        advice_commitments@,
        fixed_commitments@,
        query_models(arguments@),
        query_models(closing@),
        *committed_error,
        field::values(evals.instance_evals@),
        field::values(evals.advice_evals@),
        field::values(evals.fixed_evals@),
        evals.correction_eval.value(),
        evals.x.value(),
        beta.value(),
        error_term.value(),
    ));
    r
}

} // verus!
