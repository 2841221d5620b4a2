//! What honest folding leads to.
use crate::commitment::{self, PolynomialCommitmentScheme};
use crate::domain;
use crate::error::Error;
use crate::evaluator::{self, Evaluator, FoldingPk};
use crate::field::PrimeField;
use crate::folding;
use crate::folding_prover::ProtogalaxyProver;
use crate::folding_verifier::{self, ProtogalaxyVerifier};
use crate::interpolation;
use crate::linear::{self, Linear};
use crate::polynomial;
use crate::powers;
use crate::residues;
use crate::roots;
use crate::traces::{self, FoldingProverTrace, ProverModel, Trace, TraceModel, VerifierFoldingTrace};
use crate::transcript::{Message, Transcript};
use vstd::arithmetic::div_mod::*;
use vstd::arithmetic::mul::*;
use vstd::arithmetic::power::*;
use vstd::arithmetic::power2::*;
use vstd::prelude::*;

verus! {

/// A polynomial that is zero on a domain is a multiple of the polynomial that
/// vanishes there.
pub proof fn lemma_vanishing_divides<F: PrimeField>(k: nat, c: Seq<int>, x: int)
    requires
        k <= F::two_adicity(),
        forall|j: nat|
            j < pow2(k) ==> residues::cong(
                #[trigger] polynomial::eval(c, interpolation::point::<F>(k, j)),
                0,
                F::modulus(),
            ),
    ensures
        residues::cong(
            polynomial::eval(c, x),
            interpolation::vanishing(k, x) * polynomial::eval(polynomial::divided(c, pow2(k)), x),
            F::modulus(),
        ),
{
    interpolation::lemma_omega::<F>(k);
    lemma_pow2_pos(k);
    let p = F::modulus();
    let n = pow2(k);
    let w = interpolation::omega_of::<F>(k);
    let r = polynomial::rest(c, n);
    let q = polynomial::divided(c, n);
    polynomial::lemma_division(c, n, x);
    // The remainder is zero on the domain, so it is zero.
    let wide = polynomial::padded(r, n);
    let zeros = Seq::new(n, |i: int| 0int);
    assert forall|i: int| 0 <= i < n implies residues::cong(
        #[trigger] zeros[i],
        polynomial::eval(wide, interpolation::point::<F>(k, i as nat)),
        p,
    ) by {
        let y = interpolation::point::<F>(k, i as nat);
        polynomial::lemma_eval_pad(r, wide, y);
        polynomial::lemma_division(c, n, y);
        roots::lemma_root_order(w, k, p);
        lemma_pow_multiplies(w, i as nat, n);
        lemma_pow_multiplies(w, n, i as nat);
        lemma_mul_is_commutative(i, n as int);
        residues::lemma_cong_pow(pow(w, n), 1, i as nat, p);
        lemma1_pow(i as nat);
        let z = pow(y, n) - 1;
        residues::lemma_cong_ops(pow(y, n), 1, 1, 1, p);
        let e = polynomial::eval(q, y);
        residues::lemma_cong_zero(e, z, p);
        residues::lemma_cong_ops(polynomial::eval(c, y), 0, z * e, 0, p);
    }
    interpolation::lemma_interpolate_values::<F>(wide, zeros, k);
    assert forall|i: int| 0 <= i < n implies residues::cong(#[trigger] wide[i], zeros[i], p) by {
        let y = pow(interpolation::omega_inv_of::<F>(k), i as nat);
        polynomial::lemma_eval_scale(zeros, zeros, 0, y);
        assert(polynomial::eval(zeros, y) == 0);
        assert(interpolation::size_inv_of::<F>(k) * 0 == 0);
        lemma_small_mod(0, p as nat);
        assert(interpolation::interpolate::<F>(zeros, k)[i] == 0);
    }
    polynomial::lemma_eval_cong(wide, zeros, x, x, p);
    polynomial::lemma_eval_scale(zeros, zeros, 0, x);
    polynomial::lemma_eval_pad(r, wide, x);
    let t = interpolation::vanishing(k, x) * polynomial::eval(q, x);
    residues::lemma_cong_ops(polynomial::eval(r, x), 0, t, t, p);
}

/// What is interpolated on the coset, from the values of a polynomial with few
/// enough coefficients, takes the values of that polynomial.
pub proof fn lemma_coset_recovers<F: PrimeField>(
    c: Seq<int>,
    v: Seq<int>,
    k: nat,
    len: nat,
    x: int,
)
    requires
        k <= F::two_adicity(),
        c.len() <= len <= pow2(k),
        v.len() == pow2(k),
        forall|i: int|
            0 <= i < v.len() ==> residues::cong(
                #[trigger] v[i],
                polynomial::eval(c, interpolation::coset_point::<F>(k, i as nat)),
                F::modulus(),
            ),
    ensures
        residues::cong(
            polynomial::eval(interpolation::interpolate_coset::<F>(v, k).take(len as int), x),
            polynomial::eval(c, x),
            F::modulus(),
        ),
{
    F::lemma_field();
    let p = F::modulus();
    let wide = polynomial::padded(c, pow2(k));
    assert forall|i: int| 0 <= i < v.len() implies residues::cong(
        #[trigger] v[i],
        polynomial::eval(wide, interpolation::coset_point::<F>(k, i as nat)),
        p,
    ) by {
        polynomial::lemma_eval_pad(c, wide, interpolation::coset_point::<F>(k, i as nat));
    }
    interpolation::lemma_interpolate_coset_values::<F>(wide, v, k);
    let all = interpolation::interpolate_coset::<F>(v, k);
    let part = all.take(len as int);
    let short = polynomial::padded(c, len);
    assert forall|i: int| 0 <= i < len implies residues::cong(#[trigger] part[i], short[i], p) by {
        assert(all[i] == wide[i] % p);
        residues::lemma_mod_cong(wide[i], p);
    }
    polynomial::lemma_eval_cong(part, short, x, x, p);
    polynomial::lemma_eval_pad(c, short, x);
}

/// The sum of the first `rows` rows of an interpolated trace, each multiplied by its
/// weight, is a polynomial in the point of interpolation.
pub proof fn lemma_rows_polynomial<F: PrimeField, E: Evaluator<F>>(
    pk: &FoldingPk<F, E>,
    dk: nat,
    parts: Seq<ProverModel>,
    weights: Seq<int>,
    rows: nat,
) -> (c: Seq<int>)
    requires
        dk <= F::two_adicity(),
        parts.len() == pow2(dk),
        linear::all_alike::<F, FoldingProverTrace<F>>(parts),
        pk.accepts(parts[0]),
        rows <= pow2(pk.domain.k as nat),
        rows <= weights.len(),
        pk.ev.folding_degree_of() >= 1,
    ensures
        c.len() <= pow2(dk) * (pk.ev.folding_degree_of() - 1),
        forall|x: int|
            residues::cong(
                residues::sum(
                    rows,
                    |i: int| pk.h(evaluator::folded_at::<F>(dk, parts, x))[i] * weights[i],
                ),
                #[trigger] polynomial::eval(c, x),
                F::modulus(),
            ),
    decreases rows,
{
    F::lemma_field();
    let p = F::modulus();
    if rows == 0 {
        let c = Seq::<int>::empty();
        assert(0 <= pow2(dk) * (pk.ev.folding_degree_of() - 1)) by (nonlinear_arith)
            requires
                pk.ev.folding_degree_of() >= 1,
        ;
        assert forall|x: int|
            residues::cong(
                residues::sum(
                    rows,
                    |i: int| pk.h(evaluator::folded_at::<F>(dk, parts, x))[i] * weights[i],
                ),
                #[trigger] polynomial::eval(c, x),
                p,
            ) by {
            assert(polynomial::eval(c, x) == 0);
        }
        c
    } else {
        let m = (rows - 1) as nat;
        let below = lemma_rows_polynomial::<F, E>(pk, dk, parts, weights, m);
        let row = pk.ev.lemma_degree(
            pk.domain.k as nat,
            pk.selectors.model(),
            dk,
            parts,
            rows - 1,
        );
        let last = polynomial::scaled(row, weights[rows - 1]);
        let c = polynomial::plus(below, last);
        assert forall|x: int|
            residues::cong(
                residues::sum(
                    rows,
                    |i: int| pk.h(evaluator::folded_at::<F>(dk, parts, x))[i] * weights[i],
                ),
                #[trigger] polynomial::eval(c, x),
                p,
            ) by {
            let h = pk.h(evaluator::folded_at::<F>(dk, parts, x));
            let f = |i: int| h[i] * weights[i];
            polynomial::lemma_eval_plus(below, last, x);
            polynomial::lemma_eval_scaled(row, weights[rows - 1], x);
            let (a, b, t) = (h[rows - 1], weights[rows - 1], polynomial::eval(row, x));
            assert(residues::cong(a, t, p));
            residues::lemma_cong_ops(a, t, b, b, p);
            assert(t * b == b * t) by (nonlinear_arith);
            assert(residues::cong(residues::sum(m, f), polynomial::eval(below, x), p));
            residues::lemma_cong_ops(
                residues::sum(m, f),
                polynomial::eval(below, x),
                f(rows - 1),
                polynomial::eval(last, x),
                p,
            );
        }
        c
    }
}

/// By how much an interpolated trace misses the circuit is a polynomial in the
/// point of interpolation.
proof fn lemma_joined_polynomial<F: PrimeField, E: Evaluator<F>>(
    pk: &FoldingPk<F, E>,
    dk: nat,
    parts: Seq<ProverModel>,
    betas: Seq<int>,
) -> (c: Seq<int>)
    requires
        dk <= F::two_adicity(),
        parts.len() == pow2(dk),
        linear::all_alike::<F, FoldingProverTrace<F>>(parts),
        pk.accepts(parts[0]),
    ensures
        pk.ev.folding_degree_of() >= 1,
        c.len() <= pow2(dk) * (pk.ev.folding_degree_of() - 1),
        forall|x: int|
            residues::cong(
                folding::joined(
                    pk.h(evaluator::folded_at::<F>(dk, parts, x)),
                    betas,
                    F::modulus(),
                ),
                #[trigger] polynomial::eval(c, x),
                F::modulus(),
            ),
{
    F::lemma_field();
    let p = F::modulus();
    let n = pow2(pk.domain.k as nat);
    let weights = powers::pow_seq(betas, p);
    let rows = if n <= weights.len() {
        n
    } else {
        weights.len()
    };
    lemma_pow2_pos(pk.domain.k as nat);
    let some_row = pk.ev.lemma_degree(
        pk.domain.k as nat,
        pk.selectors.model(),
        dk,
        parts,
        0,
    );
    let c = lemma_rows_polynomial::<F, E>(pk, dk, parts, weights, rows);
    assert forall|x: int|
        residues::cong(
            folding::joined(pk.h(evaluator::folded_at::<F>(dk, parts, x)), betas, p),
            #[trigger] polynomial::eval(c, x),
            p,
        ) by {
        let folded = evaluator::folded_at::<F>(dk, parts, x);
        let coeffs = interpolation::lagranges::<F>(dk, x);
        <FoldingProverTrace<F> as Linear<F>>::lemma_combined_alike(coeffs, parts);
        pk.ev.lemma_accepts(pk.domain.k as nat, pk.selectors.model(), parts[0], folded);
        pk.ev.lemma_rows(pk.domain.k as nat, pk.selectors.model(), folded);
        residues::lemma_mod_cong(polynomial::dot(pk.h(folded), weights), p);
    }
    c
}

/// A trace that satisfies its circuit: every row is zero.
pub open spec fn satisfies<F: PrimeField, E: Evaluator<F>>(
    pk: &FoldingPk<F, E>,
    m: ProverModel,
) -> bool {
    forall|i: int| 0 <= i < pk.h(m).len() ==> #[trigger] pk.h(m)[i] == 0
}

/// A trace that satisfies its circuit misses it by zero.
proof fn lemma_satisfied_joined<F: PrimeField, E: Evaluator<F>>(
    pk: &FoldingPk<F, E>,
    m: ProverModel,
    betas: Seq<int>,
)
    requires
        satisfies(pk, m),
    ensures
        folding::joined(pk.h(m), betas, F::modulus()) == 0,
{
    F::lemma_field();
    let p = F::modulus();
    let w = powers::pow_seq(betas, p);
    let h = pk.h(m);
    let n = if h.len() <= w.len() {
        h.len()
    } else {
        w.len()
    };
    let f = |i: int| h[i] * w[i];
    assert forall|i: int| 0 <= i < n implies #[trigger] f(i) == 0 by {
        assert(h[i] == 0);
        assert(0 * w[i] == 0);
    }
    residues::lemma_sum_zero(n, f);
    lemma_small_mod(0, p as nat);
}

/// At a point of the domain, the interpolated trace is the one that belongs to the
/// point.
pub proof fn lemma_folded_at_point<F: PrimeField>(dk: nat, parts: Seq<ProverModel>, j: nat)
    requires
        dk <= F::two_adicity(),
        parts.len() == pow2(dk),
        linear::all_alike::<F, FoldingProverTrace<F>>(parts),
        j < parts.len(),
        <FoldingProverTrace<F> as Linear<F>>::reduced(parts[j as int]),
    ensures
        evaluator::folded_at::<F>(dk, parts, interpolation::point::<F>(dk, j)) == parts[j as int],
{
    let x = interpolation::point::<F>(dk, j);
    let coeffs = interpolation::lagranges::<F>(dk, x);
    assert forall|i: int| 0 <= i < coeffs.len() implies #[trigger] coeffs[i] == if i == j {
        1int
    } else {
        0
    } by {
        interpolation::lemma_lagrange_at_points::<F>(dk, i as nat, j);
    }
    <FoldingProverTrace<F> as Linear<F>>::lemma_combined_unit(coeffs, parts, j as int);
}

/// Everything that a round is made of can be computed from its sizes.
proof fn lemma_round_sizes<
    F: PrimeField,
    CS: PolynomialCommitmentScheme<F>,
    E: Evaluator<F>,
    const K: usize,
>(
    prover: &ProtogalaxyProver<F, CS, E, K>,
    params: &CS::Parameters,
    traces: Seq<FoldingProverTrace<F>>,
)
    requires
        prover.can_fold(params, traces),
    ensures
        ({
            let parts = prover.parts(traces);
            let dk = folding::log2(parts.len());
            let len = (pow2(dk) * (prover.folding_pk.ev.folding_degree_of() - 1)) as nat;
            let extended = domain::extension_of(dk, len);
            &&& parts.len() == pow2(dk)
            &&& dk <= F::two_adicity()
            &&& domain::is_extension(extended, dk, len)
            &&& extended <= F::two_adicity()
            &&& len <= pow2(extended)
            &&& forall|j: int|
                0 <= j < parts.len() ==> <FoldingProverTrace<F> as Linear<F>>::reduced(
                    #[trigger] parts[j],
                )
        }),
{
    let parts = prover.parts(traces);
    let dk = folding::log2(parts.len());
    let len = (pow2(dk) * (prover.folding_pk.ev.folding_degree_of() - 1)) as nat;
    assert(parts.len() == pow2(dk));
    let s = F::two_adicity();
    let e = lemma_extension_exists(dk, len, s);
    domain::lemma_extension_is(e, dk, len);
    assert forall|j: int| 0 <= j < parts.len() implies <FoldingProverTrace<F> as Linear<
        F,
    >>::reduced(#[trigger] parts[j]) by {
        if j == 0 {
            prover.folded_trace.lemma_reduced();
        } else {
            traces[j - 1].lemma_reduced();
        }
    }
}

/// There is an extension, where the greatest size is large enough.
pub proof fn lemma_extension_exists(k: nat, target: nat, s: nat) -> (e: nat)
    requires
        k <= s,
        target <= pow2(s),
    ensures
        domain::is_extension(e, k, target),
        e <= s,
    decreases s - k,
{
    if target <= pow2(k) {
        k
    } else if k == s {
        k
    } else {
        let e = lemma_extension_exists(k + 1, target, s);
        assert(domain::is_extension(e, k, target)) by {
            if e == k + 1 {
                assert(pow2((e - 1) as nat) < target);
            }
        }
        e
    }
}

/// The value of the folding polynomial at the last challenge is by how much the
/// folded trace misses the circuit.
pub proof fn lemma_error_is_that_of_folded_trace<
    F: PrimeField,
    CS: PolynomialCommitmentScheme<F>,
    E: Evaluator<F>,
    const K: usize,
>(
    prover: &ProtogalaxyProver<F, CS, E, K>,
    params: &CS::Parameters,
    traces: Seq<FoldingProverTrace<F>>,
    delta: int,
    alpha: int,
    gamma: int,
)
    requires
        prover.can_fold(params, traces),
    ensures
        ({
            let round = prover.round(traces, delta, alpha, gamma);
            round.g_eval == folding::joined(
                prover.folding_pk.h(round.folded),
                round.betas,
                F::modulus(),
            )
        }),
{
    F::lemma_field();
    let p = F::modulus();
    let round = prover.round(traces, delta, alpha, gamma);
    let parts = prover.parts(traces);
    let dk = folding::log2(parts.len());
    let len = (pow2(dk) * (prover.folding_pk.ev.folding_degree_of() - 1)) as nat;
    let extended = domain::extension_of(dk, len);
    lemma_round_sizes(prover, params, traces);
    let c = lemma_joined_polynomial::<F, E>(&prover.folding_pk, dk, parts, round.betas);
    let g = prover.g_values(round.betas, dk, extended, parts);
    assert forall|i: int| 0 <= i < g.len() implies residues::cong(
        #[trigger] g[i],
        polynomial::eval(c, interpolation::coset_point::<F>(extended, i as nat)),
        p,
    ) by {
    }
    lemma_coset_recovers::<F>(c, g, extended, len, gamma);
    let here = folding::joined(prover.folding_pk.h(round.folded), round.betas, p);
    assert(residues::cong(here, polynomial::eval(c, gamma), p));
    lemma_mod_bound(
        polynomial::dot(
            prover.folding_pk.h(round.folded),
            powers::pow_seq(round.betas, p),
        ),
        p,
    );
    residues::lemma_residue_is(here, polynomial::eval(c, gamma), p);
}

/// Where all traces satisfy the circuit, the folding polynomial is a multiple of the
/// one that vanishes on the domain, so that the check of its quotient succeeds.
pub proof fn lemma_honest_quotient<
    F: PrimeField,
    CS: PolynomialCommitmentScheme<F>,
    E: Evaluator<F>,
    const K: usize,
>(
    prover: &ProtogalaxyProver<F, CS, E, K>,
    params: &CS::Parameters,
    traces: Seq<FoldingProverTrace<F>>,
    delta: int,
    alpha: int,
    gamma: int,
)
    requires
        prover.can_fold(params, traces),
        forall|j: int|
            0 <= j < prover.parts(traces).len() ==> satisfies(
                &prover.folding_pk,
                #[trigger] prover.parts(traces)[j],
            ),
    ensures
        ({
            let round = prover.round(traces, delta, alpha, gamma);
            round.g_eval == (round.k_eval * round.z_eval) % F::modulus()
        }),
{
    F::lemma_field();
    let p = F::modulus();
    let round = prover.round(traces, delta, alpha, gamma);
    let parts = prover.parts(traces);
    let dk = folding::log2(parts.len());
    let n = pow2(dk);
    let len = (n * (prover.folding_pk.ev.folding_degree_of() - 1)) as nat;
    let extended = domain::extension_of(dk, len);
    lemma_round_sizes(prover, params, traces);
    lemma_pow2_pos(dk);
    let c = lemma_joined_polynomial::<F, E>(&prover.folding_pk, dk, parts, round.betas);
    let g = prover.g_values(round.betas, dk, extended, parts);
    assert forall|i: int| 0 <= i < g.len() implies residues::cong(
        #[trigger] g[i],
        polynomial::eval(c, interpolation::coset_point::<F>(extended, i as nat)),
        p,
    ) by {
    }
    lemma_coset_recovers::<F>(c, g, extended, len, gamma);
    assert forall|j: nat| j < n implies residues::cong(
        #[trigger] polynomial::eval(c, interpolation::point::<F>(dk, j)),
        0,
        p,
    ) by {
        lemma_folded_at_point::<F>(dk, parts, j);
        assert(satisfies(&prover.folding_pk, parts[j as int]));
        lemma_satisfied_joined(&prover.folding_pk, parts[j as int], round.betas);
    }
    let q = polynomial::divided(c, n);
    polynomial::lemma_division(c, n, gamma);
    let v = folding::quotient::<F>(g, dk, extended);
    assert forall|i: int| 0 <= i < v.len() implies residues::cong(
        #[trigger] v[i],
        polynomial::eval(q, interpolation::coset_point::<F>(extended, i as nat)),
        p,
    ) by {
        let x = interpolation::coset_point::<F>(extended, i as nat);
        let z = interpolation::vanishing(dk, x);
        let t = residues::inverse(z, p);
        let e = polynomial::eval(q, x);
        lemma_vanishing_divides::<F>(dk, c, x);
        interpolation::lemma_vanishing_invertible::<F>(dk, extended, i as nat);
        assert(residues::cong(g[i], z * e, p));
        residues::lemma_cong_ops(g[i], z * e, t, t, p);
        residues::lemma_cong_one(e, t * z, p);
        assert((z * e) * t == e * (t * z)) by (nonlinear_arith);
        residues::lemma_mod_cong(g[i] * t, p);
    }
    lemma_coset_recovers::<F>(q, v, extended, len, gamma);
    lemma_vanishing_divides::<F>(dk, c, gamma);
    let z = interpolation::vanishing(dk, gamma);
    let e = polynomial::eval(q, gamma);
    let k = polynomial::eval(round.k, gamma);
    residues::lemma_mod_cong(k, p);
    residues::lemma_mod_cong(z, p);
    residues::lemma_cong_ops(round.k_eval, e, round.z_eval, z, p);
    assert(e * z == z * e) by (nonlinear_arith);
}

/// Where nothing is missed yet, the error polynomial is zero.
pub proof fn lemma_error_polynomial_of_zero<
    F: PrimeField,
    CS: PolynomialCommitmentScheme<F>,
    E: Evaluator<F>,
    const K: usize,
>(
    prover: &ProtogalaxyProver<F, CS, E, K>,
    traces: Seq<FoldingProverTrace<F>>,
    delta: int,
    alpha: int,
    gamma: int,
)
    requires
        prover.error.value() == 0,
    ensures
        ({
            let round = prover.round(traces, delta, alpha, gamma);
            &&& round.f[0] == prover.error.value()
            &&& round.f_eval == 0
        }),
{
    F::lemma_field();
    let round = prover.round(traces, delta, alpha, gamma);
    lemma_pow2_pos(ProtogalaxyProver::<F, CS, E, K>::error_k());
    polynomial::lemma_eval_scale(round.f, round.f, 0, alpha);
    lemma_small_mod(0, F::modulus() as nat);
}

/// A prover and a verifier agree: the verifier has the commitments of the trace of
/// the prover, its error and its challenges.
pub open spec fn agree<
    F: PrimeField,
    CS: PolynomialCommitmentScheme<F>,
    E: Evaluator<F>,
    const K: usize,
>(
    params: &CS::Parameters,
    prover: ProtogalaxyProver<F, CS, E, K>,
    verifier: ProtogalaxyVerifier<F, CS, K>,
) -> bool {
    &&& verifier.verifier_folding_trace.model() == commitment::committed::<F, CS>(
        params,
        prover.folded_trace.model(),
    )
    &&& verifier.error_term.value() == prover.error.value()
    &&& verifier.betas() == prover.betas()
}

/// A prover and a verifier that agree, with no error so far, agree after a round:
/// the verifier, from the same challenges and from what the prover sent, comes to
/// the error, the challenges and the commitments of the prover.
pub proof fn lemma_round_keeps_agreement<
    F: PrimeField,
    CS: PolynomialCommitmentScheme<F>,
    E: Evaluator<F>,
    const K: usize,
>(
    params: &CS::Parameters,
    prover: &ProtogalaxyProver<F, CS, E, K>,
    verifier: &ProtogalaxyVerifier<F, CS, K>,
    traces: Seq<FoldingProverTrace<F>>,
    commitments: Seq<VerifierFoldingTrace<F, CS::Commitment>>,
    delta: int,
    alpha: int,
    gamma: int,
)
    requires
        commitment::is_homomorphic::<F, CS>(params),
        prover.can_fold(params, traces),
        agree(params, *prover, *verifier),
        prover.error.value() == 0,
        commitments.len() == traces.len(),
        forall|j: int|
            0 <= j < traces.len() ==> (#[trigger] commitments[j]).model()
                == commitment::committed::<F, CS>(params, traces[j].model()),
        forall|j: int|
            0 <= j < prover.parts(traces).len() ==> commitment::served::<F, CS>(
                params,
                #[trigger] prover.parts(traces)[j],
            ),
        ({
            let round = prover.round(traces, delta, alpha, gamma);
            round.g_eval == (round.k_eval * round.z_eval) % F::modulus()
        }),
    ensures
        ({
            let round = prover.round(traces, delta, alpha, gamma);
            &&& folding_verifier::next_error::<F>(
                folding::log2(verifier.parts(commitments).len()),
                verifier.error_term.value(),
                round.f_eval,
                gamma,
                round.k_eval,
            ) == round.g_eval
            &&& folding::shifted(
                verifier.betas(),
                folding::squares(delta, K as nat, F::modulus()),
                alpha,
                F::modulus(),
            ) == round.betas
            &&& verifier.next_trace(commitments, gamma) == commitment::committed::<F, CS>(
                params,
                round.folded,
            )
        }),
{
    F::lemma_field();
    let p = F::modulus();
    let round = prover.round(traces, delta, alpha, gamma);
    let parts = prover.parts(traces);
    let dk = folding::log2(parts.len());
    lemma_round_sizes(prover, params, traces);
    lemma_error_polynomial_of_zero(prover, traces, delta, alpha, gamma);
    let f = |m: ProverModel| commitment::committed::<F, CS>(params, m);
    assert(verifier.parts(commitments) =~= commitment::map(parts, f)) by {
        assert forall|j: int| 0 <= j < parts.len() implies #[trigger] verifier.parts(
            commitments,
        )[j] == commitment::map(parts, f)[j] by {
            if j > 0 {
                assert(commitments[j - 1].model() == f(traces[j - 1].model()));
            }
        }
    }
    commitment::lemma_commit_of_combined::<F, CS>(
        params,
        interpolation::lagranges::<F>(dk, gamma),
        parts,
    );
    let l = interpolation::lagrange::<F>(dk, 0, gamma);
    let z = interpolation::vanishing(dk, gamma);
    assert((0 + round.f_eval) * l == 0) by {
        assert(0 * l == 0);
    }
    residues::lemma_mod_cong(z, p);
    residues::lemma_cong_ops(round.k_eval, round.k_eval, round.z_eval, z, p);
    assert(round.k_eval * z == z * round.k_eval) by (nonlinear_arith);
}

/// An honest folding is accepted. From traces that satisfy the circuit, whatever
/// the challenges are, the checks of the prover succeed, except that the folding
/// polynomial may happen to be zero at the last challenge; the verifier comes to
/// the commitments of the folded trace, and that trace misses the circuit by the
/// error term of the verifier, which is what the verifier checks in the end.
pub proof fn lemma_honest_folding_is_accepted<
    F: PrimeField,
    CS: PolynomialCommitmentScheme<F>,
    E: Evaluator<F>,
    const K: usize,
>(
    params: &CS::Parameters,
    prover: &ProtogalaxyProver<F, CS, E, K>,
    verifier: &ProtogalaxyVerifier<F, CS, K>,
    traces: Seq<FoldingProverTrace<F>>,
    commitments: Seq<VerifierFoldingTrace<F, CS::Commitment>>,
    delta: int,
    alpha: int,
    gamma: int,
)
    requires
        commitment::is_homomorphic::<F, CS>(params),
        prover.can_fold(params, traces),
        agree(params, *prover, *verifier),
        prover.error.value() == 0,
        commitments.len() == traces.len(),
        forall|j: int|
            0 <= j < traces.len() ==> (#[trigger] commitments[j]).model()
                == commitment::committed::<F, CS>(params, traces[j].model()),
        forall|j: int|
            0 <= j < prover.parts(traces).len() ==> commitment::served::<F, CS>(
                params,
                #[trigger] prover.parts(traces)[j],
            ),
        forall|j: int|
            0 <= j < prover.parts(traces).len() ==> satisfies(
                &prover.folding_pk,
                #[trigger] prover.parts(traces)[j],
            ),
    ensures
        ({
            let p = F::modulus();
            let round = prover.round(traces, delta, alpha, gamma);
            let error = folding_verifier::next_error::<F>(
                folding::log2(verifier.parts(commitments).len()),
                verifier.error_term.value(),
                round.f_eval,
                gamma,
                round.k_eval,
            );
            let betas = folding::shifted(
                verifier.betas(),
                folding::squares(delta, K as nat, p),
                alpha,
                p,
            );
            // The checks of the prover.
            &&& prover.error.value() == round.f[0]
            &&& round.f_eval == 0
            &&& round.g_eval == (round.k_eval * round.z_eval) % p
            // The checks of the verifier.
            &&& commitment::committed::<F, CS>(params, round.folded) == verifier.next_trace(
                commitments,
                gamma,
            )
            &&& folding::joined(prover.folding_pk.h(round.folded), betas, p) == error
        }),
{
    lemma_error_polynomial_of_zero(prover, traces, delta, alpha, gamma);
    lemma_honest_quotient(prover, params, traces, delta, alpha, gamma);
    lemma_round_keeps_agreement(
        params,
        prover,
        verifier,
        traces,
        commitments,
        delta,
        alpha,
        gamma,
    );
    lemma_error_is_that_of_folded_trace(prover, params, traces, delta, alpha, gamma);
}

/// A prover and a verifier that agree, with no error so far, agree after they have
/// folded over one transcript: where what the prover wrote is what the verifier
/// read, with the same challenges, the verifier has the error, the challenges and
/// the commitments of the prover. The check of the trace of the prover then
/// succeeds: it has the commitments of the verifier, and misses the circuit by its
/// error term.
pub proof fn lemma_folding_ends_in_agreement<
    F: PrimeField,
    CS: PolynomialCommitmentScheme<F>,
    E: Evaluator<F>,
    const K: usize,
>(
    params: &CS::Parameters,
    prover: &ProtogalaxyProver<F, CS, E, K>,
    verifier: &ProtogalaxyVerifier<F, CS, K>,
    traces: Seq<FoldingProverTrace<F>>,
    commitments: Seq<VerifierFoldingTrace<F, CS::Commitment>>,
    before: Seq<Message<<CS::Commitment as Linear<F>>::Model>>,
    after: Seq<Message<<CS::Commitment as Linear<F>>::Model>>,
    next_prover: ProtogalaxyProver<F, CS, E, K>,
    next_verifier: ProtogalaxyVerifier<F, CS, K>,
)
    requires
        commitment::is_homomorphic::<F, CS>(params),
        prover.can_fold(params, traces),
        agree(params, *prover, *verifier),
        prover.error.value() == 0,
        commitments.len() == traces.len(),
        forall|j: int|
            0 <= j < traces.len() ==> (#[trigger] commitments[j]).model()
                == commitment::committed::<F, CS>(params, traces[j].model()),
        forall|j: int|
            0 <= j < prover.parts(traces).len() ==> commitment::served::<F, CS>(
                params,
                #[trigger] prover.parts(traces)[j],
            ),
        prover.folds_to(params, traces, before, after, next_prover),
        verifier.folds_to(commitments, before, after, next_verifier),
    ensures
        agree(params, next_prover, next_verifier),
        folding::joined(
            prover.folding_pk.h(next_prover.folded_trace.model()),
            next_verifier.betas(),
            F::modulus(),
        ) == next_verifier.error_term.value(),
{
    let (delta, alpha, gamma) = choose|delta: int, alpha: int, gamma: int|
        {
            let round = #[trigger] prover.round(traces, delta, alpha, gamma);
            &&& after == before + ProtogalaxyProver::<F, CS, E, K>::messages(
                params,
                round,
                delta,
                alpha,
                gamma,
            )
            &&& prover.error.value() == round.f[0]
            &&& round.f_eval == 0
            &&& round.g_eval != 0
            &&& round.g_eval == (round.k_eval * round.z_eval) % F::modulus()
            &&& next_prover.error.value() == round.g_eval
            &&& next_prover.betas() == round.betas
            &&& next_prover.folded_trace.model() == round.folded
        };
    let (d, committed_f, a, f_eval, committed_k, c, k_eval) = choose|
        d: int,
        committed_f: <CS::Commitment as Linear<F>>::Model,
        a: int,
        f_eval: int,
        committed_k: <CS::Commitment as Linear<F>>::Model,
        c: int,
        k_eval: int,
    |
        {
            &&& after == before + #[trigger] ProtogalaxyVerifier::<F, CS, K>::messages(
                d,
                committed_f,
                a,
                f_eval,
                committed_k,
                c,
                k_eval,
            )
            &&& next_verifier.betas() == folding::shifted(
                verifier.betas(),
                folding::squares(d, K as nat, F::modulus()),
                a,
                F::modulus(),
            )
            &&& next_verifier.error_term.value() == folding_verifier::next_error::<F>(
                folding::log2(verifier.parts(commitments).len()),
                verifier.error_term.value(),
                f_eval,
                c,
                k_eval,
            )
            &&& next_verifier.verifier_folding_trace.model() == verifier.next_trace(
                commitments,
                c,
            )
        };
    let round = prover.round(traces, delta, alpha, gamma);
    let sent = ProtogalaxyProver::<F, CS, E, K>::messages(params, round, delta, alpha, gamma);
    let read = ProtogalaxyVerifier::<F, CS, K>::messages(
        d,
        committed_f,
        a,
        f_eval,
        committed_k,
        c,
        k_eval,
    );
    // What was sent is what was read.
    assert forall|i: int| 0 <= i < 7 implies #[trigger] sent[i] == read[i] by {
        assert(after[before.len() + i] == sent[i]);
        assert(after[before.len() + i] == read[i]);
    }
    assert(sent[0] == read[0] && sent[2] == read[2] && sent[3] == read[3]);
    assert(sent[5] == read[5] && sent[6] == read[6]);
    lemma_round_keeps_agreement(
        params,
        prover,
        verifier,
        traces,
        commitments,
        delta,
        alpha,
        gamma,
    );
    lemma_error_is_that_of_folded_trace(prover, params, traces, delta, alpha, gamma);
}

/// An honest run is accepted. Where the transcript of the verifier follows what the
/// prover wrote and drew, the verifier succeeds, and ends in agreement with the
/// prover; the check of the trace of the prover then succeeds. What comes after is
/// left to be read.
pub proof fn lemma_honest_run_is_accepted<
    F: PrimeField,
    CS: PolynomialCommitmentScheme<F>,
    E: Evaluator<F>,
    T: Transcript<F, CS::Commitment>,
    const K: usize,
>(
    params: &CS::Parameters,
    prover: &ProtogalaxyProver<F, CS, E, K>,
    verifier: &ProtogalaxyVerifier<F, CS, K>,
    traces: Seq<FoldingProverTrace<F>>,
    commitments: Seq<VerifierFoldingTrace<F, CS::Commitment>>,
    written: Seq<Message<<CS::Commitment as Linear<F>>::Model>>,
    rest: Seq<Message<<CS::Commitment as Linear<F>>::Model>>,
    next_prover: ProtogalaxyProver<F, CS, E, K>,
    before: T,
    after: T,
    result: Result<ProtogalaxyVerifier<F, CS, K>, Error>,
)
    requires
        commitment::is_homomorphic::<F, CS>(params),
        prover.can_fold(params, traces),
        agree(params, *prover, *verifier),
        prover.error.value() == 0,
        commitments.len() == traces.len(),
        forall|j: int|
            0 <= j < traces.len() ==> (#[trigger] commitments[j]).model()
                == commitment::committed::<F, CS>(params, traces[j].model()),
        forall|j: int|
            0 <= j < prover.parts(traces).len() ==> commitment::served::<F, CS>(
                params,
                #[trigger] prover.parts(traces)[j],
            ),
        prover.folds_to(
            params,
            traces,
            before.history(),
            before.history() + written,
            next_prover,
        ),
        before.follows(written + rest),
        verifier.outcome(commitments, before, after, result),
    ensures
        after.history() == before.history() + written,
        after.follows(rest),
        result matches Ok(next_verifier) && {
            &&& agree(params, next_prover, next_verifier)
            &&& folding::joined(
                prover.folding_pk.h(next_prover.folded_trace.model()),
                next_verifier.betas(),
                F::modulus(),
            ) == next_verifier.error_term.value()
        },
{
    let (delta, alpha, gamma) = choose|delta: int, alpha: int, gamma: int|
        {
            let round = #[trigger] prover.round(traces, delta, alpha, gamma);
            before.history() + written == before.history() + ProtogalaxyProver::<
                F,
                CS,
                E,
                K,
            >::messages(params, round, delta, alpha, gamma)
        };
    let sent = ProtogalaxyProver::<F, CS, E, K>::messages(
        params,
        prover.round(traces, delta, alpha, gamma),
        delta,
        alpha,
        gamma,
    );
    lemma_appended(before.history(), written, sent);
    let run = written + rest;
    assert(ProtogalaxyVerifier::<F, CS, K>::is_round(run));
    assert(run.take(7) =~= written);
    assert(run.skip(7) =~= rest);
    if let Ok(next_verifier) = result {
        lemma_folding_ends_in_agreement(
            params,
            prover,
            verifier,
            traces,
            commitments,
            before.history(),
            after.history(),
            next_prover,
            next_verifier,
        );
    }
}

/// What is appended is determined by what comes out.
pub proof fn lemma_appended<M>(start: Seq<M>, a: Seq<M>, b: Seq<M>)
    requires
        start + a == start + b,
    ensures
        a == b,
{
    assert((start + a).skip(start.len() as int) =~= a);
    assert((start + b).skip(start.len() as int) =~= b);
}

/// A different value of the quotient leads the verifier to a different error term,
/// where the polynomial that vanishes on the domain is invertible at the last
/// challenge, so that the trace of an honest prover is then refused.
pub proof fn lemma_quotient_is_bound<F: PrimeField>(
    dk: nat,
    error: int,
    f_eval: int,
    gamma: int,
    k_eval: int,
    other: int,
    inverse: int,
)
    requires
        0 <= k_eval < F::modulus(),
        0 <= other < F::modulus(),
        k_eval != other,
        residues::cong(inverse * interpolation::vanishing(dk, gamma), 1, F::modulus()),
    ensures
        folding_verifier::next_error::<F>(dk, error, f_eval, gamma, k_eval)
            != folding_verifier::next_error::<F>(dk, error, f_eval, gamma, other),
{
    F::lemma_field();
    let p = F::modulus();
    let z = interpolation::vanishing(dk, gamma);
    let s = (error + f_eval) * interpolation::lagrange::<F>(dk, 0, gamma);
    if residues::cong(s + z * k_eval, s + z * other, p) {
        residues::lemma_cong_ops(s + z * k_eval, s + z * other, s, s, p);
        residues::lemma_cong_ops(inverse, inverse, z * k_eval, z * other, p);
        residues::lemma_cong_one(k_eval, inverse * z, p);
        residues::lemma_cong_one(other, inverse * z, p);
        assert(inverse * (z * k_eval) == k_eval * (inverse * z)) by (nonlinear_arith);
        assert(inverse * (z * other) == other * (inverse * z)) by (nonlinear_arith);
        residues::lemma_residue_is(k_eval, other, p);
        residues::lemma_residue_is(other, other, p);
    }
}

/// A different value of the error polynomial leads the verifier to a different error
/// term, where the first basis polynomial is invertible at the last challenge, so
/// that the trace of an honest prover is then refused.
pub proof fn lemma_error_evaluation_is_bound<F: PrimeField>(
    dk: nat,
    error: int,
    f_eval: int,
    gamma: int,
    k_eval: int,
    other: int,
    inverse: int,
)
    requires
        0 <= f_eval < F::modulus(),
        0 <= other < F::modulus(),
        f_eval != other,
        residues::cong(inverse * interpolation::lagrange::<F>(dk, 0, gamma), 1, F::modulus()),
    ensures
        folding_verifier::next_error::<F>(dk, error, f_eval, gamma, k_eval)
            != folding_verifier::next_error::<F>(dk, error, other, gamma, k_eval),
{
    F::lemma_field();
    let p = F::modulus();
    let l = interpolation::lagrange::<F>(dk, 0, gamma);
    let t = interpolation::vanishing(dk, gamma) * k_eval;
    let (a, b) = ((error + f_eval) * l, (error + other) * l);
    if residues::cong(a + t, b + t, p) {
        residues::lemma_cong_ops(a + t, b + t, t, t, p);
        residues::lemma_cong_ops(inverse, inverse, a, b, p);
        residues::lemma_cong_one(error + f_eval, inverse * l, p);
        residues::lemma_cong_one(error + other, inverse * l, p);
        let (u, v) = (error + f_eval, error + other);
        assert(inverse * (u * l) == u * (inverse * l)) by (nonlinear_arith);
        assert(inverse * (v * l) == v * (inverse * l)) by (nonlinear_arith);
        residues::lemma_cong_ops(u, v, error, error, p);
        residues::lemma_residue_is(f_eval, other, p);
        residues::lemma_residue_is(other, other, p);
    }
}

/// Copies of a value fold to that value, whatever the challenge is.
pub proof fn lemma_copies_fold_to_themselves<F: PrimeField, T: Linear<F>>(
    dk: nat,
    parts: Seq<T::Model>,
    gamma: int,
)
    requires
        dk <= F::two_adicity(),
        parts.len() == pow2(dk),
        forall|j: int| 0 <= j < parts.len() ==> #[trigger] parts[j] == parts[0],
        T::reduced(parts[0]),
    ensures
        T::combined(interpolation::lagranges::<F>(dk, gamma), parts) == parts[0],
{
    lemma_pow2_pos(dk);
    let coeffs = interpolation::lagranges::<F>(dk, gamma);
    interpolation::lemma_lagranges_sum::<F>(dk, gamma);
    residues::lemma_sum_eq(pow2(dk), |j: int| coeffs[j], |j: int| coeffs[j]);
    T::lemma_combined_same(coeffs, parts);
}

/// The fixed columns of traces of one circuit are folded to themselves, and so are
/// their commitments, so that those of the key serve for the folded trace.
pub proof fn lemma_fixed_columns_stay<F: PrimeField, L: Linear<F>>(
    dk: nat,
    parts: Seq<TraceModel<L::Model>>,
    gamma: int,
)
    requires
        dk <= F::two_adicity(),
        parts.len() == pow2(dk),
        forall|j: int| 0 <= j < parts.len() ==> (#[trigger] parts[j]).fixed == parts[0].fixed,
        <Vec<L> as Linear<F>>::reduced(parts[0].fixed),
    ensures
        <Trace<F, L> as Linear<F>>::combined(
            interpolation::lagranges::<F>(dk, gamma),
            parts,
        ).fixed == parts[0].fixed,
{
    lemma_pow2_pos(dk);
    lemma_copies_fold_to_themselves::<F, Vec<L>>(dk, traces::all_fixed(parts), gamma);
}

} // verus!
