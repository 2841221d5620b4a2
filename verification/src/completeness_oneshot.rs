//! What honest folding in a single round leads to.
use crate::commitment::{self, PolynomialCommitmentScheme};
use crate::completeness;
use crate::constraint_system::{self, ConstraintSystem};
use crate::domain;
use crate::error::Error;
use crate::evaluator::{self, Evaluator, FoldingPk};
use crate::field::{self, PrimeField};
use crate::folding;
use crate::interpolation;
use crate::linear::{self, Linear};
use crate::polynomial;
use crate::prover_oneshot::{self, OneShotFolding, ProtogalaxyProverOneShot};
use crate::residues;
use crate::traces::{self, FoldingProverTrace, ProverModel, Trace, VerifierFoldingTrace};
use crate::transcript::{Message, Transcript};
use crate::verifier_oneshot::{
    self, FinalEvals, OneShotOpening, ProtogalaxyVerifierOneShot, QueryModel,
};
use vstd::arithmetic::div_mod::*;
use vstd::arithmetic::mul::*;
use vstd::arithmetic::power::*;
use vstd::arithmetic::power2::*;
use vstd::prelude::*;

verus! {

/// Traces that can be folded, for the laws: they have the columns that the circuit
/// reads, are as many as a power of two, and their components are residues.
pub open spec fn foldable<F: PrimeField, E: Evaluator<F>>(
    pk: &FoldingPk<F, E>,
    parts: Seq<ProverModel>,
) -> bool {
    let dk = folding::log2(parts.len());
    &&& folding::is_power_of_two(parts.len())
    &&& domain::fits::<F>(pk.ev.folding_degree_of(), dk)
    &&& linear::all_alike::<F, FoldingProverTrace<F>>(parts)
    &&& pk.accepts(parts[0])
    &&& forall|j: int|
        0 <= j < parts.len() ==> <FoldingProverTrace<F> as Linear<F>>::reduced(
            #[trigger] parts[j],
        )
}

/// The sizes of a round.
proof fn lemma_sizes<F: PrimeField, E: Evaluator<F>>(
    pk: &FoldingPk<F, E>,
    parts: Seq<ProverModel>,
)
    requires
        foldable(pk, parts),
    ensures
        ({
            let dk = folding::log2(parts.len());
            let len = (pow2(dk) * (pk.ev.folding_degree_of() - 1)) as nat;
            let extended = domain::extension_of(dk, len);
            &&& parts.len() == pow2(dk)
            &&& dk <= F::two_adicity()
            &&& extended <= F::two_adicity()
            &&& dk <= extended
            &&& len <= pow2(extended)
        }),
{
    let dk = folding::log2(parts.len());
    let len = (pow2(dk) * (pk.ev.folding_degree_of() - 1)) as nat;
    assert(parts.len() == pow2(dk));
    let e = completeness::lemma_extension_exists(dk, len, F::two_adicity());
    domain::lemma_extension_is(e, dk, len);
}

/// The error terms are the values of the rows of the folded trace.
pub proof fn lemma_error_terms_are_rows<F: PrimeField, E: Evaluator<F>>(
    pk: &FoldingPk<F, E>,
    parts: Seq<ProverModel>,
    beta: int,
    gamma: int,
)
    requires
        foldable(pk, parts),
    ensures
        ({
            let round = prover_oneshot::one_shot_round(pk, parts, beta, gamma);
            round.errors == pk.h(round.folded)
        }),
{
    F::lemma_field();
    let p = F::modulus();
    let k = pk.domain.k as nat;
    let dk = folding::log2(parts.len());
    let len = (pow2(dk) * (pk.ev.folding_degree_of() - 1)) as nat;
    let extended = domain::extension_of(dk, len);
    lemma_sizes(pk, parts);
    let rows = prover_oneshot::g_rows(pk, dk, extended, parts);
    let round = prover_oneshot::one_shot_round(pk, parts, beta, gamma);
    pk.lemma_accepts_folded(dk, parts, gamma);
    pk.ev.lemma_rows(k, pk.selectors.model(), round.folded);
    assert forall|j: int| 0 <= j < pow2(k) implies #[trigger] round.errors[j] == pk.h(
        round.folded,
    )[j] by {
        let c = pk.ev.lemma_degree(k, pk.selectors.model(), dk, parts, j);
        let v = linear::column(rows, j);
        assert forall|i: int| 0 <= i < v.len() implies residues::cong(
            #[trigger] v[i],
            polynomial::eval(c, interpolation::coset_point::<F>(extended, i as nat)),
            p,
        ) by {
        }
        completeness::lemma_coset_recovers::<F>(c, v, extended, len, gamma);
        let here = pk.h(round.folded)[j];
        assert(residues::cong(here, polynomial::eval(c, gamma), p));
        residues::lemma_residue_is(here, polynomial::eval(c, gamma), p);
    }
    assert(round.errors =~= pk.h(round.folded));
}

/// The polynomial of the error terms takes, on the rows, the values of the rows of
/// the folded trace, so that the identities less this polynomial vanish there.
pub proof fn lemma_corrected_identities_vanish<F: PrimeField, E: Evaluator<F>>(
    pk: &FoldingPk<F, E>,
    parts: Seq<ProverModel>,
    beta: int,
    gamma: int,
    row: nat,
)
    requires
        foldable(pk, parts),
        row < pk.domain.size(),
    ensures
        ({
            let round = prover_oneshot::one_shot_round(pk, parts, beta, gamma);
            let k = pk.domain.k as nat;
            residues::cong(
                pk.h(round.folded)[row as int] - polynomial::eval(
                    interpolation::interpolate::<F>(round.errors, k),
                    interpolation::point::<F>(k, row),
                ),
                0,
                F::modulus(),
            )
        }),
{
    F::lemma_field();
    let p = F::modulus();
    let k = pk.domain.k as nat;
    let round = prover_oneshot::one_shot_round(pk, parts, beta, gamma);
    lemma_error_terms_are_rows(pk, parts, beta, gamma);
    // The domain of the rows has few enough points.
    assert(k <= F::two_adicity());
    interpolation::lemma_interpolate::<F>(round.errors, k, row);
    let e = polynomial::eval(
        interpolation::interpolate::<F>(round.errors, k),
        interpolation::point::<F>(k, row),
    );
    let v = pk.h(round.folded)[row as int];
    residues::lemma_cong_ops(v, v, e, v, p);
}

/// The error terms, joined with any weights, are the value at the challenge of the
/// polynomial that the rows, joined with these weights, are on the coset.
pub proof fn lemma_joined_error_terms<F: PrimeField>(
    rows: Seq<Seq<int>>,
    extended: nat,
    len: nat,
    weights: Seq<int>,
    gamma: int,
)
    requires
        rows.len() == pow2(extended),
        len <= pow2(extended),
        forall|i: int| 0 <= i < rows.len() ==> (#[trigger] rows[i]).len() == weights.len(),
    ensures
        polynomial::dot(
            Seq::new(
                weights.len(),
                |j: int| prover_oneshot::error_term::<F>(rows, extended, len, gamma, j),
            ),
            weights,
        ) % F::modulus() == polynomial::eval(
            interpolation::interpolate_coset::<F>(
                prover_oneshot::joined_rows(rows, weights, F::modulus()),
                extended,
            ).take(len as int),
            gamma,
        ) % F::modulus(),
{
    F::lemma_field();
    let p = F::modulus();
    let n = rows.len();
    let w = |i: int| interpolation::coset_weight::<F>(extended, len, gamma, i);
    let joined = prover_oneshot::joined_rows(rows, weights, p);
    let terms = Seq::new(
        weights.len(),
        |j: int| prover_oneshot::error_term::<F>(rows, extended, len, gamma, j),
    );
    let columns = Seq::new(weights.len(), |j: int| linear::column(rows, j));
    interpolation::lemma_coset_weights::<F>(joined, extended, len, gamma);
    residues::lemma_sum_eq(
        n,
        |i: int| joined[i] * w(i),
        |i: int| joined[i] * interpolation::coset_weight::<F>(extended, len, gamma, i),
    );
    if weights.len() == 0 {
        let f = |i: int| joined[i] * w(i);
        assert forall|i: int| 0 <= i < n implies #[trigger] f(i) == 0 by {
            lemma_small_mod(0, p as nat);
            assert(polynomial::dot(rows[i], weights) == 0);
            assert(0 * w(i) == 0);
        }
        residues::lemma_sum_zero(n, f);
    } else {
        assert forall|j: int| 0 <= j < columns.len() implies residues::cong(
            #[trigger] terms[j],
            linear::weighted(columns[j], w),
            p,
        ) by {
            let v = linear::column(rows, j);
            interpolation::lemma_coset_weights::<F>(v, extended, len, gamma);
            residues::lemma_sum_eq(
                n,
                |i: int| v[i] * w(i),
                |i: int| v[i] * interpolation::coset_weight::<F>(extended, len, gamma, i),
            );
            residues::lemma_mod_cong(
                polynomial::eval(
                    interpolation::interpolate_coset::<F>(v, extended).take(len as int),
                    gamma,
                ),
                p,
            );
        }
        linear::lemma_weighted_combined::<F>(weights, columns, w, terms);
        // The joined rows are the combined columns.
        let combined = <Vec<F> as Linear<F>>::combined(weights, columns);
        assert forall|i: int| 0 <= i < n implies #[trigger] joined[i] == combined[i] by {
            let c = linear::column(columns, i);
            assert(c =~= rows[i]);
            lemma_dot_commutes(rows[i], weights);
        }
        assert(joined =~= combined);
    }
    lemma_dot_commutes(terms, weights);
}

/// The sum of products does not depend on the order of the factors.
proof fn lemma_dot_commutes(a: Seq<int>, b: Seq<int>)
    ensures
        polynomial::dot(a, b) == polynomial::dot(b, a),
{
    let n = if a.len() <= b.len() {
        a.len()
    } else {
        b.len()
    };
    let f = |i: int| a[i] * b[i];
    let g = |i: int| b[i] * a[i];
    assert forall|i: int| 0 <= i < n implies #[trigger] f(i) == g(i) by {
        lemma_mul_is_commutative(a[i], b[i]);
    }
    residues::lemma_sum_eq(n, f, g);
}

/// An honest folding in a single round is accepted. From traces that satisfy the
/// circuit, whatever the challenges are, the error term of the verifier is by how
/// much the folded trace misses the circuit, which is what the verifier checks of a
/// trace, and the value of the polynomial of the error terms at the challenge,
/// which is what the verifier asks to be opened.
pub proof fn lemma_honest_round_is_accepted<F: PrimeField, E: Evaluator<F>>(
    pk: &FoldingPk<F, E>,
    parts: Seq<ProverModel>,
    beta: int,
    gamma: int,
)
    requires
        foldable(pk, parts),
        forall|j: int|
            0 <= j < parts.len() ==> completeness::satisfies(pk, #[trigger] parts[j]),
    ensures
        ({
            let p = F::modulus();
            let k = pk.domain.k as nat;
            let round = prover_oneshot::one_shot_round(pk, parts, beta, gamma);
            let error = verifier_oneshot::one_shot_error::<F>(
                folding::log2(parts.len()),
                gamma,
                round.k_eval,
            );
            &&& polynomial::dot(
                pk.h(round.folded),
                interpolation::lagranges::<F>(k, beta),
            ) % p == error
            &&& polynomial::eval(interpolation::interpolate::<F>(round.errors, k), beta) % p
                == error
        }),
{
    F::lemma_field();
    let p = F::modulus();
    let k = pk.domain.k as nat;
    let dk = folding::log2(parts.len());
    let n = pow2(dk);
    let len = (n * (pk.ev.folding_degree_of() - 1)) as nat;
    let extended = domain::extension_of(dk, len);
    lemma_sizes(pk, parts);
    lemma_pow2_pos(dk);
    let round = prover_oneshot::one_shot_round(pk, parts, beta, gamma);
    let weights = interpolation::lagranges::<F>(k, beta);
    let rows = prover_oneshot::g_rows(pk, dk, extended, parts);
    let g = prover_oneshot::joined_rows(rows, weights, p);
    lemma_pow2_pos(k);
    let some_row = pk.ev.lemma_degree(k, pk.selectors.model(), dk, parts, 0);
    let c = completeness::lemma_rows_polynomial::<F, E>(pk, dk, parts, weights, pow2(k));
    // The polynomial c takes the joined values of the rows.
    assert forall|x: int|
        residues::cong(
            polynomial::dot(pk.h(evaluator::folded_at::<F>(dk, parts, x)), weights) % p,
            #[trigger] polynomial::eval(c, x),
            p,
        ) by {
        pk.lemma_accepts_folded(dk, parts, x);
        residues::lemma_mod_cong(
            polynomial::dot(pk.h(evaluator::folded_at::<F>(dk, parts, x)), weights),
            p,
        );
    }
    // It is zero on the domain.
    assert forall|j: nat| j < n implies residues::cong(
        #[trigger] polynomial::eval(c, interpolation::point::<F>(dk, j)),
        0,
        p,
    ) by {
        completeness::lemma_folded_at_point::<F>(dk, parts, j);
        let m = parts[j as int];
        assert(completeness::satisfies(pk, m));
        let h = pk.h(m);
        let f = |i: int| h[i] * weights[i];
        let count = if h.len() <= weights.len() {
            h.len()
        } else {
            weights.len()
        };
        assert forall|i: int| 0 <= i < count implies #[trigger] f(i) == 0 by {
            assert(h[i] == 0);
            assert(0 * weights[i] == 0);
        }
        residues::lemma_sum_zero(count, f);
        lemma_small_mod(0, p as nat);
    }
    // So its quotient is exact.
    let q = polynomial::divided(c, n);
    polynomial::lemma_division(c, n, gamma);
    let v = folding::quotient::<F>(g, dk, extended);
    assert forall|i: int| 0 <= i < v.len() implies residues::cong(
        #[trigger] v[i],
        polynomial::eval(q, interpolation::coset_point::<F>(extended, i as nat)),
        p,
    ) by {
        let x = interpolation::coset_point::<F>(extended, i as nat);
        let z = interpolation::vanishing(dk, x);
        let t = residues::inverse(z, p);
        let e = polynomial::eval(q, x);
        completeness::lemma_vanishing_divides::<F>(dk, c, x);
        interpolation::lemma_vanishing_invertible::<F>(dk, extended, i as nat);
        assert(residues::cong(g[i], z * e, p)) by {
            assert(residues::cong(g[i], polynomial::eval(c, x), p));
        }
        residues::lemma_cong_ops(g[i], z * e, t, t, p);
        residues::lemma_cong_one(e, t * z, p);
        assert((z * e) * t == e * (t * z)) by (nonlinear_arith);
        residues::lemma_mod_cong(g[i] * t, p);
    }
    completeness::lemma_coset_recovers::<F>(q, v, extended, len, gamma);
    completeness::lemma_vanishing_divides::<F>(dk, c, gamma);
    let z = interpolation::vanishing(dk, gamma);
    let e = polynomial::eval(q, gamma);
    let ke = polynomial::eval(round.k, gamma);
    residues::lemma_mod_cong(ke, p);
    residues::lemma_cong_ops(z, z, round.k_eval, e, p);
    let d = polynomial::dot(pk.h(round.folded), weights);
    assert(residues::cong(d % p, polynomial::eval(c, gamma), p));
    residues::lemma_mod_cong(d, p);
    // The polynomial of the error terms has the same value at the challenge.
    lemma_error_terms_are_rows(pk, parts, beta, gamma);
    interpolation::lemma_lagrange_combination::<F>(k, round.errors, beta);
    let f = |i: int| round.errors[i] * interpolation::lagrange::<F>(k, i, beta);
    let h = |i: int| round.errors[i] * weights[i];
    residues::lemma_sum_eq(pow2(k), f, h);
}

/// Folding commutes with committing, over any domain of as many points as there are
/// traces: the folded commitments of traces are the commitments of the folded trace.
pub proof fn lemma_round_folds_commitments<F: PrimeField, CS: PolynomialCommitmentScheme<F>>(
    params: &CS::Parameters,
    dk: nat,
    parts: Seq<ProverModel>,
    gamma: int,
)
    requires
        commitment::is_homomorphic::<F, CS>(params),
        parts.len() == pow2(dk),
        linear::all_alike::<F, FoldingProverTrace<F>>(parts),
        forall|j: int|
            0 <= j < parts.len() ==> commitment::served::<F, CS>(params, #[trigger] parts[j]),
    ensures
        commitment::committed::<F, CS>(params, evaluator::folded_at::<F>(dk, parts, gamma))
            == <Trace<F, CS::Commitment> as Linear<F>>::combined(
            interpolation::lagranges::<F>(dk, gamma),
            commitment::map(parts, |m: ProverModel| commitment::committed::<F, CS>(params, m)),
        ),
{
    commitment::lemma_commit_of_combined::<F, CS>(
        params,
        interpolation::lagranges::<F>(dk, gamma),
        parts,
    );
}

/// A prover and a verifier that fold over one transcript end in agreement: where
/// what the prover wrote is what the verifier read, with the same challenges, the
/// verifier has the challenge and the commitments of the prover. From traces that
/// satisfy the circuit, the check of the folded trace then succeeds, the commitment
/// to the error terms is one to the rows of the folded trace, and their polynomial
/// opens to the error term at the challenge.
pub proof fn lemma_one_shot_ends_in_agreement<
    F: PrimeField,
    CS: PolynomialCommitmentScheme<F>,
    E: Evaluator<F>,
    const K: usize,
>(
    params: &CS::Parameters,
    pk: &FoldingPk<F, E>,
    traces: Seq<FoldingProverTrace<F>>,
    commitments: Seq<VerifierFoldingTrace<F, CS::Commitment>>,
    before: Seq<Message<<CS::Commitment as Linear<F>>::Model>>,
    after: Seq<Message<<CS::Commitment as Linear<F>>::Model>>,
    folding: OneShotFolding<F>,
    folded: ProtogalaxyVerifierOneShot<F, CS, K>,
    opening: OneShotOpening<F, CS::Commitment>,
)
    requires
        commitment::is_homomorphic::<F, CS>(params),
        prover_oneshot::can_fold::<F, CS, E>(params, pk, traces, K as nat),
        forall|j: int|
            0 <= j < traces.len() ==> completeness::satisfies(
                pk,
                (#[trigger] traces[j]).model(),
            ) && commitment::served::<F, CS>(params, traces[j].model()),
        commitments.len() == traces.len(),
        forall|j: int|
            0 <= j < traces.len() ==> (#[trigger] commitments[j]).model()
                == commitment::committed::<F, CS>(params, traces[j].model()),
        ProtogalaxyProverOneShot::<F, CS, K>::folds_to(
            params,
            pk,
            traces,
            before,
            after,
            folding,
        ),
        ProtogalaxyVerifierOneShot::<F, CS, K>::folds_to(
            commitments,
            before,
            after,
            folded,
            opening,
        ),
    ensures
        folded.beta.value() == folding.beta.value(),
        folded.verifier_folding_trace.model() == commitment::committed::<F, CS>(
            params,
            folding.folded_trace.model(),
        ),
        polynomial::dot(
            pk.h(folding.folded_trace.model()),
            interpolation::lagranges::<F>(pk.domain.k as nat, folded.beta.value()),
        ) % F::modulus() == folded.error_term.value(),
        opening.committed_error.model() == CS::of_values(
            params,
            pk.h(folding.folded_trace.model()),
        ),
        polynomial::eval(field::values(folding.error_coeff@), folded.beta.value())
            % F::modulus() == folded.error_term.value(),
{
    let parts = prover_oneshot::parts_of(traces);
    let dk = folding::log2(parts.len());
    let k = pk.domain.k as nat;
    let (beta, gamma) = choose|beta: int, gamma: int|
        {
            let round = #[trigger] prover_oneshot::one_shot_round(pk, parts, beta, gamma);
            &&& after == before + ProtogalaxyProverOneShot::<F, CS, K>::messages(
                params,
                round,
                beta,
                gamma,
            )
            &&& folding.beta.value() == beta
            &&& folding.folded_trace.model() == round.folded
            &&& field::values(folding.error_coeff@) == interpolation::interpolate::<F>(
                round.errors,
                k,
            )
        };
    let (b, committed_k, c, k_eval, committed_error) = choose|
        b: int,
        committed_k: <CS::Commitment as Linear<F>>::Model,
        c: int,
        k_eval: int,
        committed_error: <CS::Commitment as Linear<F>>::Model,
    |
        {
            &&& after == before + #[trigger] ProtogalaxyVerifierOneShot::<F, CS, K>::messages(
                b,
                committed_k,
                c,
                k_eval,
                committed_error,
            )
            &&& folded.beta.value() == b
            &&& folded.error_term.value() == verifier_oneshot::one_shot_error::<F>(
                folding::log2(commitments.len()),
                c,
                k_eval,
            )
            &&& folded.verifier_folding_trace.model() == <Trace<
                F,
                CS::Commitment,
            > as Linear<F>>::combined(
                interpolation::lagranges::<F>(folding::log2(commitments.len()), c),
                verifier_oneshot::parts_of::<F, CS::Commitment>(commitments),
            )
            &&& opening.gamma.value() == c
            &&& opening.committed_error.model() == committed_error
        };
    let round = prover_oneshot::one_shot_round(pk, parts, beta, gamma);
    let sent = ProtogalaxyProverOneShot::<F, CS, K>::messages(params, round, beta, gamma);
    let read = ProtogalaxyVerifierOneShot::<F, CS, K>::messages(
        b,
        committed_k,
        c,
        k_eval,
        committed_error,
    );
    // What was sent is what was read.
    assert forall|i: int| 0 <= i < 5 implies #[trigger] sent[i] == read[i] by {
        assert(after[before.len() + i] == sent[i]);
        assert(after[before.len() + i] == read[i]);
    }
    assert(sent[0] == read[0] && sent[2] == read[2] && sent[3] == read[3] && sent[4] == read[4]);
    assert forall|j: int| 0 <= j < parts.len() implies <FoldingProverTrace<F> as Linear<
        F,
    >>::reduced(#[trigger] parts[j]) && completeness::satisfies(pk, parts[j])
        && commitment::served::<F, CS>(params, parts[j]) by {
        assert(parts[j] == traces[j].model());
        traces[j].lemma_reduced();
    }
    lemma_honest_round_is_accepted(pk, parts, beta, gamma);
    lemma_error_terms_are_rows(pk, parts, beta, gamma);
    lemma_round_folds_commitments::<F, CS>(params, dk, parts, gamma);
    let f = |m: ProverModel| commitment::committed::<F, CS>(params, m);
    assert(verifier_oneshot::parts_of::<F, CS::Commitment>(commitments) =~= commitment::map(
        parts,
        f,
    ));
}

/// A different value of the quotient leads the verifier to a different error term,
/// where the polynomial that vanishes on the domain is invertible at the last
/// challenge, so that the trace and the openings of an honest prover are then
/// refused.
pub proof fn lemma_one_shot_quotient_is_bound<F: PrimeField>(
    dk: nat,
    gamma: int,
    k_eval: int,
    other: int,
    inverse: int,
)
    requires
        0 <= k_eval < F::modulus(),
        0 <= other < F::modulus(),
        k_eval != other,
        residues::cong(inverse * interpolation::vanishing(dk, gamma), 1, F::modulus()),
    ensures
        verifier_oneshot::one_shot_error::<F>(dk, gamma, k_eval)
            != verifier_oneshot::one_shot_error::<F>(dk, gamma, other),
{
    F::lemma_field();
    let p = F::modulus();
    let z = interpolation::vanishing(dk, gamma);
    if residues::cong(z * k_eval, z * other, p) {
        residues::lemma_cong_ops(inverse, inverse, z * k_eval, z * other, p);
        residues::lemma_cong_one(k_eval, inverse * z, p);
        residues::lemma_cong_one(other, inverse * z, p);
        assert(inverse * (z * k_eval) == k_eval * (inverse * z)) by (nonlinear_arith);
        assert(inverse * (z * other) == other * (inverse * z)) by (nonlinear_arith);
        residues::lemma_residue_is(k_eval, other, p);
        residues::lemma_residue_is(other, other, p);
    }
}

/// A basis polynomial at a rotated point is the basis polynomial of the row that
/// lies as many rows before.
pub proof fn lemma_lagrange_rotated<F: PrimeField>(k: nat, j: int, rotation: int, x: int)
    requires
        k <= F::two_adicity(),
        0 <= j < pow2(k),
    ensures
        interpolation::lagrange::<F>(k, domain::wrap(j - rotation, pow2(k)), x)
            == interpolation::lagrange::<F>(
            k,
            j,
            x * interpolation::point::<F>(k, domain::wrap(rotation, pow2(k)) as nat),
        ),
{
    let p = F::modulus();
    let n = pow2(k);
    let w = interpolation::omega_of::<F>(k);
    let u = interpolation::omega_inv_of::<F>(k);
    let m = interpolation::size_inv_of::<F>(k);
    lemma_pow2_pos(k);
    interpolation::lemma_omega::<F>(k);
    interpolation::lemma_omega_inv::<F>(k);
    let r = domain::wrap(rotation, n);
    let i = domain::wrap(j - rotation, n);
    lemma_mod_bound(rotation, n as int);
    lemma_mod_bound(j - rotation, n as int);
    let y = x * pow(w, r as nat);
    // u^i is congruent to u^j w^r.
    lemma_inverse_power::<F>(k, i, j, r, rotation);
    let a = pow(u, i as nat);
    let b = pow(u, j as nat) * pow(w, r as nat);
    let ci = interpolation::interpolate::<F>(interpolation::unit(n, i), k);
    let cj = interpolation::interpolate::<F>(interpolation::unit(n, j), k);
    let f = |t: int| ci[t] * pow(x, t as nat);
    let g = |t: int| cj[t] * pow(y, t as nat);
    assert forall|t: int| 0 <= t < n implies residues::cong(#[trigger] f(t), g(t), p) by {
        interpolation::lemma_basis::<F>(k, i, t);
        interpolation::lemma_basis::<F>(k, j, t);
        let xt = pow(x, t as nat);
        let at = pow(a, t as nat);
        let ut = pow(pow(u, j as nat), t as nat);
        let wt = pow(pow(w, r as nat), t as nat);
        residues::lemma_cong_pow(a, b, t as nat, p);
        lemma_pow_distributes(pow(u, j as nat), pow(w, r as nat), t as nat);
        lemma_pow_distributes(x, pow(w, r as nat), t as nat);
        residues::lemma_cong_ops(m, m, at, ut * wt, p);
        residues::lemma_cong_ops(ci[t], m * (ut * wt), xt, xt, p);
        residues::lemma_cong_ops(cj[t], m * ut, xt * wt, xt * wt, p);
        assert((m * (ut * wt)) * xt == (m * ut) * (xt * wt)) by (nonlinear_arith);
    }
    residues::lemma_sum_cong(n, f, g, p);
}

/// The powers of the inverse, for a difference of indices that wraps.
proof fn lemma_inverse_power<F: PrimeField>(k: nat, i: int, j: int, r: int, rotation: int)
    requires
        k <= F::two_adicity(),
        0 <= j < pow2(k),
        i == domain::wrap(j - rotation, pow2(k)),
        r == domain::wrap(rotation, pow2(k)),
    ensures
        residues::cong(
            pow(interpolation::omega_inv_of::<F>(k), i as nat),
            pow(interpolation::omega_inv_of::<F>(k), j as nat) * pow(
                interpolation::omega_of::<F>(k),
                r as nat,
            ),
            F::modulus(),
        ),
{
    let p = F::modulus();
    let n = pow2(k) as int;
    let w = interpolation::omega_of::<F>(k);
    let u = interpolation::omega_inv_of::<F>(k);
    lemma_pow2_pos(k);
    interpolation::lemma_omega::<F>(k);
    interpolation::lemma_omega_inv::<F>(k);
    lemma_mod_bound(rotation, n);
    lemma_mod_bound(j - rotation, n);
    // i + r is j or j + n.
    lemma_sub_mod_noop_right(j, rotation, n);
    let d = j - r;
    if d >= 0 {
        lemma_small_mod(d as nat, n as nat);
        assert(i + r == j);
    } else {
        lemma_mod_add_multiples_vanish(d, n);
        lemma_small_mod((d + n) as nat, n as nat);
        assert(i + r == j + n);
    }
    crate::roots::lemma_root_inverse(w, u, k, p);
    crate::roots::lemma_root_order(u, k, p);
    let (a, b, c) = (pow(u, i as nat), pow(u, r as nat), pow(w, r as nat));
    // u^i u^r is congruent to u^j.
    lemma_pow_adds(u, i as nat, r as nat);
    if d < 0 {
        lemma_pow_adds(u, j as nat, n as nat);
        residues::lemma_cong_one(pow(u, j as nat), pow(u, n as nat), p);
    }
    residues::lemma_cong_ops(a * b, pow(u, j as nat), c, c, p);
    // u^r w^r is congruent to one.
    lemma_pow_distributes(u, w, r as nat);
    lemma_mul_is_commutative(u, w);
    residues::lemma_cong_pow(u * w, 1, r as nat, p);
    lemma1_pow(r as nat);
    residues::lemma_cong_one(a, b * c, p);
    assert((a * b) * c == a * (b * c)) by (nonlinear_arith);
}

/// Zeros at the end of an instance column do not count.
pub proof fn lemma_instance_eval_of_padded<F: PrimeField>(
    k: nat,
    instance: Seq<int>,
    n: nat,
    rotation: int,
    x: int,
)
    requires
        instance.len() <= n,
    ensures
        verifier_oneshot::instance_eval::<F>(k, polynomial::padded(instance, n), rotation, x)
            == verifier_oneshot::instance_eval::<F>(k, instance, rotation, x),
{
    let wide = polynomial::padded(instance, n);
    let w = |j: int| interpolation::lagrange::<F>(k, domain::wrap(j - rotation, pow2(k)), x);
    let f = |j: int|
        instance[j] * interpolation::lagrange::<F>(k, domain::wrap(j - rotation, pow2(k)), x);
    let g = |j: int|
        wide[j] * interpolation::lagrange::<F>(k, domain::wrap(j - rotation, pow2(k)), x);
    let m = (n - instance.len()) as nat;
    residues::lemma_sum_split(instance.len(), m, g);
    residues::lemma_sum_eq(instance.len(), f, g);
    let tail = |j: int| g(instance.len() + j);
    assert forall|j: int| 0 <= j < m implies #[trigger] tail(j) == 0 by {
        assert(0 * w(instance.len() + j) == 0);
    }
    residues::lemma_sum_zero(m, tail);
}

/// The value that is computed for a query of an instance column is that of the
/// polynomial of the column, filled up with zeros, at the rotated point.
pub proof fn lemma_instance_eval_is_rotation<F: PrimeField>(
    k: nat,
    instance: Seq<int>,
    rotation: int,
    x: int,
)
    requires
        k <= F::two_adicity(),
        instance.len() <= pow2(k),
    ensures
        verifier_oneshot::instance_eval::<F>(k, instance, rotation, x) == polynomial::eval(
            interpolation::interpolate::<F>(polynomial::padded(instance, pow2(k)), k),
            x * interpolation::point::<F>(k, domain::wrap(rotation, pow2(k)) as nat),
        ) % F::modulus(),
{
    F::lemma_field();
    let n = pow2(k);
    let column = polynomial::padded(instance, n);
    lemma_instance_eval_of_padded::<F>(k, instance, n, rotation, x);
    let y = x * interpolation::point::<F>(k, domain::wrap(rotation, n) as nat);
    let f = |j: int|
        column[j] * interpolation::lagrange::<F>(k, domain::wrap(j - rotation, n), x);
    let g = |j: int| column[j] * interpolation::lagrange::<F>(k, j, y);
    assert forall|j: int| 0 <= j < n implies #[trigger] f(j) == g(j) by {
        lemma_lagrange_rotated::<F>(k, j, rotation, x);
    }
    residues::lemma_sum_eq(n, f, g);
    interpolation::lemma_lagrange_combination::<F>(k, column, y);
}

/// The instance columns of all proofs, filled up with zeros to the length `n`.
pub open spec fn padded_columns(
    instances: Seq<Seq<Seq<int>>>,
    column: int,
    n: nat,
) -> Seq<Seq<int>> {
    Seq::new(instances.len(), |i: int| polynomial::padded(instances[i][column], n))
}

/// The value that is folded over the proofs is that of the folded instance column,
/// where the columns of the proofs are filled up with zeros to one length.
pub proof fn lemma_folded_instance_eval<F: PrimeField>(
    k: nat,
    dk: nat,
    instances: Seq<Seq<Seq<int>>>,
    column: int,
    n: nat,
    rotation: int,
    x: int,
    gamma: int,
)
    requires
        instances.len() == pow2(dk),
        forall|i: int| 0 <= i < instances.len() ==> (#[trigger] instances[i])[column].len() <= n,
    ensures
        verifier_oneshot::folded_instance_eval::<F>(
            k,
            dk,
            instances,
            column,
            rotation,
            x,
            gamma,
        ) == verifier_oneshot::instance_eval::<F>(
            k,
            <Vec<F> as Linear<F>>::combined(
                interpolation::lagranges::<F>(dk, gamma),
                padded_columns(instances, column, n),
            ),
            rotation,
            x,
        ),
{
    F::lemma_field();
    lemma_pow2_pos(dk);
    let p = F::modulus();
    let coeffs = interpolation::lagranges::<F>(dk, gamma);
    let parts = padded_columns(instances, column, n);
    let w = |j: int| interpolation::lagrange::<F>(k, domain::wrap(j - rotation, pow2(k)), x);
    let sums = Seq::new(
        parts.len(),
        |i: int| verifier_oneshot::instance_eval::<F>(k, instances[i][column], rotation, x),
    );
    assert forall|i: int| 0 <= i < parts.len() implies residues::cong(
        #[trigger] sums[i],
        linear::weighted(parts[i], w),
        p,
    ) by {
        assert(instances[i][column].len() <= n);
        lemma_instance_eval_of_padded::<F>(k, instances[i][column], n, rotation, x);
        let f = |j: int| parts[i][j] * w(j);
        let g = |j: int|
            parts[i][j] * interpolation::lagrange::<F>(k, domain::wrap(j - rotation, pow2(k)), x);
        residues::lemma_sum_eq(parts[i].len(), f, g);
        residues::lemma_mod_cong(residues::sum(parts[i].len(), g), p);
    }
    linear::lemma_weighted_combined::<F>(coeffs, parts, w, sums);
    let c = <Vec<F> as Linear<F>>::combined(coeffs, parts);
    let f = |j: int| c[j] * w(j);
    let g = |j: int|
        c[j] * interpolation::lagrange::<F>(k, domain::wrap(j - rotation, pow2(k)), x);
    residues::lemma_sum_eq(c.len(), f, g);
    let a = |i: int| coeffs[i] * sums[i];
    let b = |i: int|
        verifier_oneshot::instance_eval::<F>(k, instances[i][column], rotation, x)
            * interpolation::lagrange::<F>(dk, i, gamma);
    assert forall|i: int| 0 <= i < instances.len() implies #[trigger] a(i) == b(i) by {
        let (s, t) = (sums[i], coeffs[i]);
        assert(s * t == t * s) by (nonlinear_arith);
    }
    residues::lemma_sum_eq(instances.len(), a, b);
}

/// What a query of columns gives at the point `x` of a proof: the value of the
/// polynomial of the column at the rotated point.
pub open spec fn query_eval<F: PrimeField>(
    k: nat,
    columns: Seq<Seq<int>>,
    query: (usize, i32),
    x: int,
) -> int {
    polynomial::eval(
        interpolation::interpolate::<F>(columns[query.0 as int], k),
        x * interpolation::point::<F>(k, domain::wrap(query.1 as int, pow2(k)) as nat),
    ) % F::modulus()
}

/// An opening is true: the commitment is one to a column whose polynomial has the
/// value at the point.
pub open spec fn opens<F: PrimeField, CS: PolynomialCommitmentScheme<F>>(
    params: &CS::Parameters,
    k: nat,
    query: QueryModel<CS::Commitment>,
) -> bool {
    exists|v: Seq<int>|
        {
            &&& query.commitment.model() == #[trigger] CS::of_values(params, v)
            &&& v.len() == pow2(k)
            &&& query.eval == polynomial::eval(
                interpolation::interpolate::<F>(v, k),
                query.point,
            ) % F::modulus()
        }
}

/// All openings of a list are true.
pub open spec fn all_open<F: PrimeField, CS: PolynomialCommitmentScheme<F>>(
    params: &CS::Parameters,
    k: nat,
    queries: Seq<QueryModel<CS::Commitment>>,
) -> bool {
    forall|i: int| 0 <= i < queries.len() ==> opens::<F, CS>(params, k, #[trigger] queries[i])
}

/// The openings of columns are true, where the commitments are those of the columns
/// and the values are what the queries give.
proof fn lemma_columns_open<F: PrimeField, CS: PolynomialCommitmentScheme<F>>(
    params: &CS::Parameters,
    k: nat,
    queries: Seq<(usize, i32)>,
    limit: nat,
    commitments: Seq<CS::Commitment>,
    columns: Seq<Seq<int>>,
    evals: Seq<int>,
    x: int,
    n: nat,
)
    requires
        n <= queries.len(),
        forall|q: int|
            0 <= q < n && (#[trigger] queries[q]).0 < limit ==> {
                let c = queries[q].0 as int;
                &&& commitments[c].model() == CS::of_values(params, columns[c])
                &&& columns[c].len() == pow2(k)
                &&& evals[q] == query_eval::<F>(k, columns, queries[q], x)
            },
    ensures
        all_open::<F, CS>(
            params,
            k,
            verifier_oneshot::column_openings::<F, CS::Commitment>(
                k,
                queries,
                limit,
                commitments,
                evals,
                x,
                n,
            ),
        ),
    decreases n,
{
    if n > 0 {
        let m = (n - 1) as nat;
        lemma_columns_open::<F, CS>(
            params,
            k,
            queries,
            limit,
            commitments,
            columns,
            evals,
            x,
            m,
        );
        let below = verifier_oneshot::column_openings::<F, CS::Commitment>(
            k,
            queries,
            limit,
            commitments,
            evals,
            x,
            m,
        );
        let all = verifier_oneshot::column_openings::<F, CS::Commitment>(
            k,
            queries,
            limit,
            commitments,
            evals,
            x,
            n,
        );
        let (column, rotation) = queries[n - 1];
        if column < limit {
            F::lemma_field();
            let p = F::modulus();
            let v = columns[column as int];
            let y = x * interpolation::point::<F>(
                k,
                domain::wrap(rotation as int, pow2(k)) as nat,
            );
            let c = interpolation::interpolate::<F>(v, k);
            residues::lemma_mod_cong(y, p);
            polynomial::lemma_eval_cong(c, c, y % p, y, p);
            assert(queries[n - 1].0 < limit);
            assert(opens::<F, CS>(params, k, all[below.len() as int])) by {
                assert(all[below.len() as int].commitment.model() == CS::of_values(params, v));
            }
            assert forall|i: int| 0 <= i < all.len() implies opens::<F, CS>(
                params,
                k,
                #[trigger] all[i],
            ) by {
                if i < below.len() {
                    assert(all[i] == below[i]);
                    assert(opens::<F, CS>(params, k, below[i]));
                }
            }
        }
    }
}

/// What an honest prover sends for the check of the proof of the folded trace, and
/// what the verifier computes: the queries of committed instance columns, of advice
/// columns and of fixed columns give the values of the folded columns, the others
/// are computed from the instances of all proofs, folded at `gamma`, and the
/// correction is the value of the polynomial of the error terms.
pub open spec fn honest_evals<F: PrimeField>(
    cs: &ConstraintSystem<F>,
    nb_committed_instances: nat,
    k: nat,
    folding: OneShotFolding<F>,
    instances: Seq<Seq<Seq<int>>>,
    gamma: int,
    evals: FinalEvals<F>,
) -> bool {
    let x = evals.x.value();
    let m = folding.folded_trace.model();
    &&& evals.instance_evals@.len() == cs.instance_queries@.len()
    &&& evals.advice_evals@.len() == cs.advice_queries@.len()
    &&& evals.fixed_evals@.len() == cs.fixed_queries@.len()
    &&& forall|q: int|
        0 <= q < cs.instance_queries@.len() ==> #[trigger] evals.instance_evals@[q].value() == {
            let query = cs.instance_queries@[q];
            if query.0 < nb_committed_instances {
                query_eval::<F>(k, m.instance_values[0], query, x)
            } else {
                verifier_oneshot::folded_instance_eval::<F>(
                    k,
                    folding::log2(instances.len()),
                    instances,
                    query.0 - nb_committed_instances,
                    query.1 as int,
                    x,
                    gamma,
                )
            }
        }
    &&& forall|q: int|
        0 <= q < cs.advice_queries@.len() ==> #[trigger] evals.advice_evals@[q].value()
            == query_eval::<F>(k, m.trace.advice[0], cs.advice_queries@[q], x)
    &&& forall|q: int|
        0 <= q < cs.fixed_queries@.len() ==> #[trigger] evals.fixed_evals@[q].value()
            == query_eval::<F>(k, m.trace.fixed, cs.fixed_queries@[q], x)
    &&& evals.correction_eval.value() == folding.correction_at(x)
}

/// The public side of traces of one circuit: they have the fixed columns and the
/// committed instance columns that `fixed_commitments` and `committed_instances` are
/// commitments to, and the other instance columns are `instances`, filled up with
/// zeros. The queried columns exist and have all rows.
pub open spec fn public_side<F: PrimeField, CS: PolynomialCommitmentScheme<F>>(
    params: &CS::Parameters,
    cs: &ConstraintSystem<F>,
    k: nat,
    parts: Seq<ProverModel>,
    committed_instances: Seq<CS::Commitment>,
    fixed_commitments: Seq<CS::Commitment>,
    instances: Seq<Seq<Seq<int>>>,
) -> bool {
    let nb = committed_instances.len();
    let first = parts[0];
    &&& instances.len() == parts.len()
    &&& first.trace.advice.len() > 0
    &&& first.instance_values.len() > 0
    &&& constraint_system::have_queried(first.trace.fixed, cs.fixed_queries@, k)
    &&& constraint_system::have_queried(first.trace.advice[0], cs.advice_queries@, k)
    &&& constraint_system::have_queried(first.instance_values[0], cs.instance_queries@, k)
    &&& fixed_commitments.len() == first.trace.fixed.len()
    &&& forall|c: int|
        0 <= c < fixed_commitments.len() ==> (#[trigger] fixed_commitments[c]).model()
            == CS::of_values(params, first.trace.fixed[c])
    &&& nb <= first.instance_values[0].len()
    &&& forall|c: int|
        0 <= c < nb ==> (#[trigger] committed_instances[c]).model() == CS::of_values(
            params,
            first.instance_values[0][c],
        )
    &&& forall|j: int|
        0 <= j < parts.len() ==> {
            let part = #[trigger] parts[j];
            &&& part.trace.fixed == first.trace.fixed
            &&& forall|c: int|
                0 <= c < nb ==> #[trigger] part.instance_values[0][c]
                    == first.instance_values[0][c]
            &&& forall|c: int|
                nb <= c < first.instance_values[0].len() ==> #[trigger] part.instance_values[0][c]
                    == polynomial::padded(instances[j][c - nb], pow2(k))
                    && instances[j][c - nb].len() <= pow2(k)
        }
}

/// The challenge at which the verifier folded is the one that was sent.
proof fn lemma_same_gamma<F: PrimeField, CS: PolynomialCommitmentScheme<F>, const K: usize>(
    commitments: Seq<VerifierFoldingTrace<F, CS::Commitment>>,
    before: Seq<Message<<CS::Commitment as Linear<F>>::Model>>,
    after: Seq<Message<<CS::Commitment as Linear<F>>::Model>>,
    folded: ProtogalaxyVerifierOneShot<F, CS, K>,
    opening: OneShotOpening<F, CS::Commitment>,
    sent: Seq<Message<<CS::Commitment as Linear<F>>::Model>>,
)
    requires
        ProtogalaxyVerifierOneShot::<F, CS, K>::folds_to(
            commitments,
            before,
            after,
            folded,
            opening,
        ),
        after == before + sent,
        sent.len() == 5,
    ensures
        sent[2] == Message::<<CS::Commitment as Linear<F>>::Model>::Challenge(
            opening.gamma.value(),
        ),
{
    let (b, committed_k, c, k_eval, committed_error) = choose|
        b: int,
        committed_k: <CS::Commitment as Linear<F>>::Model,
        c: int,
        k_eval: int,
        committed_error: <CS::Commitment as Linear<F>>::Model,
    |
        {
            &&& after == before + #[trigger] ProtogalaxyVerifierOneShot::<F, CS, K>::messages(
                b,
                committed_k,
                c,
                k_eval,
                committed_error,
            )
            &&& opening.gamma.value() == c
        };
    let read = ProtogalaxyVerifierOneShot::<F, CS, K>::messages(
        b,
        committed_k,
        c,
        k_eval,
        committed_error,
    );
    completeness::lemma_appended(before, sent, read);
}

/// The public side of the folded trace: its fixed columns and its committed instance
/// columns are those of the traces, and its queried columns have all rows.
proof fn lemma_folded_public_side<F: PrimeField, CS: PolynomialCommitmentScheme<F>>(
    params: &CS::Parameters,
    cs: &ConstraintSystem<F>,
    k: nat,
    dk: nat,
    parts: Seq<ProverModel>,
    committed_instances: Seq<CS::Commitment>,
    fixed_commitments: Seq<CS::Commitment>,
    instances: Seq<Seq<Seq<int>>>,
    gamma: int,
)
    requires
        dk <= F::two_adicity(),
        parts.len() == pow2(dk),
        linear::all_alike::<F, FoldingProverTrace<F>>(parts),
        forall|j: int|
            0 <= j < parts.len() ==> <FoldingProverTrace<F> as Linear<F>>::reduced(
                #[trigger] parts[j],
            ),
        public_side::<F, CS>(
            params,
            cs,
            k,
            parts,
            committed_instances,
            fixed_commitments,
            instances,
        ),
    ensures
        ({
            let m = evaluator::folded_at::<F>(dk, parts, gamma);
            &&& m.trace.fixed == parts[0].trace.fixed
            &&& constraint_system::have_queried(m.trace.fixed, cs.fixed_queries@, k)
            &&& m.trace.advice.len() == parts[0].trace.advice.len()
            &&& constraint_system::have_queried(m.trace.advice[0], cs.advice_queries@, k)
            &&& constraint_system::have_queried(m.instance_values[0], cs.instance_queries@, k)
            &&& forall|c: int|
                0 <= c < committed_instances.len() ==> #[trigger] m.instance_values[0][c]
                    == parts[0].instance_values[0][c]
        }),
{
    let m = evaluator::folded_at::<F>(dk, parts, gamma);
    let coeffs = interpolation::lagranges::<F>(dk, gamma);
    let t = traces::every_trace(parts);
    assert forall|j: int| 0 <= j < t.len() implies (#[trigger] t[j]).fixed == t[0].fixed by {
        assert(parts[j].trace.fixed == parts[0].trace.fixed);
    }
    assert(<FoldingProverTrace<F> as Linear<F>>::reduced(parts[0]));
    completeness::lemma_fixed_columns_stay::<F, Vec<F>>(dk, t, gamma);
    <FoldingProverTrace<F> as Linear<F>>::lemma_combined_alike(coeffs, parts);
    assert(<Vec<Vec<F>> as Linear<F>>::alike(m.trace.advice[0], parts[0].trace.advice[0]));
    assert(<Vec<Vec<F>> as Linear<F>>::alike(
        m.instance_values[0],
        parts[0].instance_values[0],
    ));
    let values = traces::every_instance_values(parts);
    assert forall|c: int|
        0 <= c < committed_instances.len() implies #[trigger] m.instance_values[0][c]
        == parts[0].instance_values[0][c] by {
        let column = linear::column(linear::column(values, 0), c);
        assert forall|j: int| 0 <= j < column.len() implies #[trigger] column[j] == column[0] by {
            assert(parts[j].instance_values[0][c] == parts[0].instance_values[0][c]);
        }
        assert(<Vec<F> as Linear<F>>::reduced(parts[0].instance_values[0][c]));
        completeness::lemma_copies_fold_to_themselves::<F, Vec<F>>(dk, column, gamma);
    }
}

/// What the verifier computes for a query of an instance column is the value of the
/// folded column.
proof fn lemma_folded_query<F: PrimeField, CS: PolynomialCommitmentScheme<F>>(
    params: &CS::Parameters,
    cs: &ConstraintSystem<F>,
    k: nat,
    dk: nat,
    parts: Seq<ProverModel>,
    committed_instances: Seq<CS::Commitment>,
    fixed_commitments: Seq<CS::Commitment>,
    instances: Seq<Seq<Seq<int>>>,
    gamma: int,
    x: int,
    q: int,
)
    requires
        k <= F::two_adicity(),
        parts.len() == pow2(dk),
        0 <= q < cs.instance_queries@.len(),
        cs.instance_queries@[q].0 >= committed_instances.len(),
        public_side::<F, CS>(
            params,
            cs,
            k,
            parts,
            committed_instances,
            fixed_commitments,
            instances,
        ),
    ensures
        verifier_oneshot::folded_instance_eval::<F>(
            k,
            dk,
            instances,
            cs.instance_queries@[q].0 - committed_instances.len(),
            cs.instance_queries@[q].1 as int,
            x,
            gamma,
        ) == query_eval::<F>(
            k,
            evaluator::folded_at::<F>(dk, parts, gamma).instance_values[0],
            cs.instance_queries@[q],
            x,
        ),
{
    lemma_pow2_pos(dk);
    let n = pow2(k);
    let nb = committed_instances.len();
    let c = cs.instance_queries@[q].0 as int;
    let rotation = cs.instance_queries@[q].1 as int;
    let m = evaluator::folded_at::<F>(dk, parts, gamma);
    let coeffs = interpolation::lagranges::<F>(dk, gamma);
    let columns = padded_columns(instances, c - nb, n);
    let values = traces::every_instance_values(parts);
    assert(c < parts[0].instance_values[0].len());
    assert forall|i: int| 0 <= i < instances.len() implies (#[trigger] instances[i])[c - nb].len()
        <= n by {
        assert(parts[i].instance_values[0][c] == polynomial::padded(instances[i][c - nb], n));
    }
    lemma_folded_instance_eval::<F>(k, dk, instances, c - nb, n, rotation, x, gamma);
    let column = linear::column(linear::column(values, 0), c);
    assert forall|j: int| 0 <= j < column.len() implies #[trigger] column[j] == columns[j] by {
        assert(parts[j].instance_values[0][c] == polynomial::padded(instances[j][c - nb], n));
    }
    assert(column =~= columns);
    let v = <Vec<F> as Linear<F>>::combined(coeffs, columns);
    assert(m.instance_values[0][c] == v);
    assert(v.len() == n);
    assert(polynomial::padded(v, n) =~= v);
    lemma_instance_eval_is_rotation::<F>(k, v, rotation, x);
}

/// An honest proof is accepted, as far as the parts of the proof system that stand
/// outside are. From traces that satisfy the circuit, where the transcript of the
/// verifier follows what the prover wrote and drew, and the values that are read
/// afterwards are those of the folded columns:
///
/// - the verifier succeeds, and has the challenge and the commitments of the prover;
/// - the check of the folded trace succeeds;
/// - the identities of the folded trace, less the polynomial of the error terms,
///   vanish in every row, so that their quotient exists;
/// - what the verifier computes for the queries of instance columns are the values
///   of the folded columns;
/// - all openings that the verifier asks for are true, where those of the arguments
///   and those that close the proof are.
pub proof fn lemma_honest_proof_is_accepted<
    F: PrimeField,
    CS: PolynomialCommitmentScheme<F>,
    E: Evaluator<F>,
    T: Transcript<F, CS::Commitment>,
    const K: usize,
>(
    params: &CS::Parameters,
    pk: &FoldingPk<F, E>,
    cs: &ConstraintSystem<F>,
    traces: Seq<FoldingProverTrace<F>>,
    commitments: Seq<VerifierFoldingTrace<F, CS::Commitment>>,
    committed_instances: Seq<CS::Commitment>,
    fixed_commitments: Seq<CS::Commitment>,
    instances: Seq<Seq<Seq<int>>>,
    written: Seq<Message<<CS::Commitment as Linear<F>>::Model>>,
    rest: Seq<Message<<CS::Commitment as Linear<F>>::Model>>,
    folding: OneShotFolding<F>,
    before: T,
    after: T,
    result: Result<
        (ProtogalaxyVerifierOneShot<F, CS, K>, OneShotOpening<F, CS::Commitment>),
        Error,
    >,
    evals: FinalEvals<F>,
    arguments: Seq<QueryModel<CS::Commitment>>,
    closing: Seq<QueryModel<CS::Commitment>>,
)
    requires
        commitment::is_homomorphic::<F, CS>(params),
        prover_oneshot::can_fold::<F, CS, E>(params, pk, traces, K as nat),
        forall|j: int|
            0 <= j < traces.len() ==> completeness::satisfies(
                pk,
                (#[trigger] traces[j]).model(),
            ) && commitment::served::<F, CS>(params, traces[j].model()),
        commitments.len() == traces.len(),
        forall|j: int|
            0 <= j < traces.len() ==> (#[trigger] commitments[j]).model()
                == commitment::committed::<F, CS>(params, traces[j].model()),
        public_side::<F, CS>(
            params,
            cs,
            pk.domain.k as nat,
            prover_oneshot::parts_of(traces),
            committed_instances,
            fixed_commitments,
            instances,
        ),
        ProtogalaxyProverOneShot::<F, CS, K>::folds_to(
            params,
            pk,
            traces,
            before.history(),
            before.history() + written,
            folding,
        ),
        before.follows(written + rest),
        ProtogalaxyVerifierOneShot::<F, CS, K>::outcome(commitments, before, after, result),
        result matches Ok((folded, opening)) ==> honest_evals(
            cs,
            committed_instances.len(),
            pk.domain.k as nat,
            folding,
            instances,
            opening.gamma.value(),
            evals,
        ),
        all_open::<F, CS>(params, pk.domain.k as nat, arguments),
        all_open::<F, CS>(params, pk.domain.k as nat, closing),
    ensures
        after.history() == before.history() + written,
        after.follows(rest),
        result matches Ok((folded, opening)) && {
            let k = pk.domain.k as nat;
            let m = folding.folded_trace.model();
            &&& folded.beta.value() == folding.beta.value()
            &&& folded.verifier_folding_trace.model() == commitment::committed::<F, CS>(params, m)
            &&& polynomial::dot(
                pk.h(m),
                interpolation::lagranges::<F>(k, folded.beta.value()),
            ) % F::modulus() == folded.error_term.value()
            &&& forall|row: nat|
                row < pk.domain.size() ==> residues::cong(
                    #[trigger] pk.h(m)[row as int] - polynomial::eval(
                        field::values(folding.error_coeff@),
                        interpolation::point::<F>(k, row),
                    ),
                    0,
                    F::modulus(),
                )
            &&& forall|q: int|
                0 <= q < cs.instance_queries@.len() ==> #[trigger] evals.instance_evals@[q].value()
                    == query_eval::<F>(
                    k,
                    m.instance_values[0],
                    cs.instance_queries@[q],
                    evals.x.value(),
                )
            &&& all_open::<F, CS>(
                params,
                k,
                folded.openings(
                    &opening,
                    k,
                    cs,
                    committed_instances,
                    fixed_commitments,
                    &evals,
                    arguments,
                    closing,
                ),
            )
        },
{
    let parts = prover_oneshot::parts_of(traces);
    let dk = folding::log2(parts.len());
    let k = pk.domain.k as nat;
    let m = folding.folded_trace.model();
    let x = evals.x.value();
    let nb = committed_instances.len();
    let (beta, gamma) = choose|beta: int, gamma: int|
        {
            let round = #[trigger] prover_oneshot::one_shot_round(pk, parts, beta, gamma);
            &&& before.history() + written == before.history() + ProtogalaxyProverOneShot::<
                F,
                CS,
                K,
            >::messages(params, round, beta, gamma)
            &&& folding.beta.value() == beta
            &&& folding.folded_trace.model() == round.folded
            &&& field::values(folding.error_coeff@) == interpolation::interpolate::<F>(
                round.errors,
                k,
            )
        };
    let round = prover_oneshot::one_shot_round(pk, parts, beta, gamma);
    let sent = ProtogalaxyProverOneShot::<F, CS, K>::messages(params, round, beta, gamma);
    completeness::lemma_appended(before.history(), written, sent);
    let run = written + rest;
    assert(ProtogalaxyVerifierOneShot::<F, CS, K>::is_round(run));
    assert(run.take(5) =~= written);
    assert(run.skip(5) =~= rest);
    let (folded, opening) = result->Ok_0;
    lemma_one_shot_ends_in_agreement::<F, CS, E, K>(
        params,
        pk,
        traces,
        commitments,
        before.history(),
        after.history(),
        folding,
        folded,
        opening,
    );
    assert(opening.gamma.value() == gamma) by {
        lemma_same_gamma::<F, CS, K>(
            commitments,
            before.history(),
            after.history(),
            folded,
            opening,
            sent,
        );
    }
    assert forall|j: int| 0 <= j < parts.len() implies <FoldingProverTrace<F> as Linear<
        F,
    >>::reduced(#[trigger] parts[j]) by {
        assert(parts[j] == traces[j].model());
        traces[j].lemma_reduced();
    }
    assert forall|row: nat| row < pk.domain.size() implies residues::cong(
        #[trigger] pk.h(m)[row as int] - polynomial::eval(
            field::values(folding.error_coeff@),
            interpolation::point::<F>(k, row),
        ),
        0,
        F::modulus(),
    ) by {
        lemma_corrected_identities_vanish(pk, parts, beta, gamma, row);
    }
    lemma_folded_public_side::<F, CS>(
        params,
        cs,
        k,
        dk,
        parts,
        committed_instances,
        fixed_commitments,
        instances,
        gamma,
    );
    assert forall|q: int|
        0 <= q < cs.instance_queries@.len() implies #[trigger] evals.instance_evals@[q].value()
        == query_eval::<F>(k, m.instance_values[0], cs.instance_queries@[q], x) by {
        let query = cs.instance_queries@[q];
        if query.0 >= nb {
            lemma_folded_query::<F, CS>(
                params,
                cs,
                k,
                dk,
                parts,
                committed_instances,
                fixed_commitments,
                instances,
                gamma,
                x,
                q,
            );
        }
    }
    // The openings.
    let instance_evals = field::values(evals.instance_evals@);
    let advice_evals = field::values(evals.advice_evals@);
    let fixed_evals = field::values(evals.fixed_evals@);
    let advice_commitments = folded.verifier_folding_trace.advice@[0]@;
    assert forall|q: int|
        0 <= q < cs.instance_queries@.len() && (#[trigger] cs.instance_queries@[q]).0
            < nb implies instance_evals[q] == query_eval::<F>(
        k,
        m.instance_values[0],
        cs.instance_queries@[q],
        x,
    ) by {
        assert(instance_evals[q] == evals.instance_evals@[q].value());
    }
    lemma_columns_open::<F, CS>(
        params,
        k,
        cs.instance_queries@,
        nb,
        committed_instances,
        m.instance_values[0],
        instance_evals,
        x,
        cs.instance_queries@.len(),
    );
    let vm = folded.verifier_folding_trace.model();
    assert(vm.advice.len() == folded.verifier_folding_trace.advice@.len());
    assert(vm.advice[0] == folded.verifier_folding_trace.advice@[0].model());
    assert forall|q: int| 0 <= q < cs.advice_queries@.len() implies ({
        let c = (#[trigger] cs.advice_queries@[q]).0 as int;
        &&& advice_commitments[c].model() == CS::of_values(params, m.trace.advice[0][c])
        &&& m.trace.advice[0][c].len() == pow2(k)
        &&& advice_evals[q] == query_eval::<F>(k, m.trace.advice[0], cs.advice_queries@[q], x)
    }) by {
        let c = cs.advice_queries@[q].0 as int;
        assert(c < m.trace.advice[0].len());
        assert(vm.advice[0][c] == advice_commitments[c].model());
        assert(advice_evals[q] == evals.advice_evals@[q].value());
    }
    lemma_columns_open::<F, CS>(
        params,
        k,
        cs.advice_queries@,
        advice_commitments.len(),
        advice_commitments,
        m.trace.advice[0],
        advice_evals,
        x,
        cs.advice_queries@.len(),
    );
    assert forall|q: int| 0 <= q < cs.fixed_queries@.len() implies fixed_evals[q] == query_eval::<
        F,
    >(k, m.trace.fixed, #[trigger] cs.fixed_queries@[q], x) by {
        assert(fixed_evals[q] == evals.fixed_evals@[q].value());
    }
    lemma_columns_open::<F, CS>(
        params,
        k,
        cs.fixed_queries@,
        fixed_commitments.len(),
        fixed_commitments,
        m.trace.fixed,
        fixed_evals,
        x,
        cs.fixed_queries@.len(),
    );
    // Those of the error terms.
    let errors = pk.h(m);
    lemma_error_terms_are_rows(pk, parts, beta, gamma);
    assert(errors.len() == pow2(k));
    let at_x = QueryModel {
        point: x,
        commitment: opening.committed_error,
        eval: evals.correction_eval.value(),
    };
    let at_beta = QueryModel {
        point: folded.beta.value(),
        commitment: opening.committed_error,
        eval: folded.error_term.value(),
    };
    assert(opens::<F, CS>(params, k, at_x)) by {
        assert(at_x.commitment.model() == CS::of_values(params, errors));
    }
    assert(opens::<F, CS>(params, k, at_beta)) by {
        assert(at_beta.commitment.model() == CS::of_values(params, errors));
    }
}

} // verus!
