//! What a round does with its challenges.
use crate::commitment::PolynomialCommitmentScheme;
use crate::completeness;
use crate::completeness_oneshot;
use crate::domain;
use crate::error_polynomial;
use crate::evaluator::{Evaluator, FoldingPk};
use crate::field::{self, PrimeField};
use crate::folding;
use crate::folding_prover::{self, ProtogalaxyProver};
use crate::folding_verifier::{self, ProtogalaxyVerifier};
use crate::interpolation;
use crate::limbs;
use crate::linear::{self, Linear};
use crate::polynomial;
use crate::powers;
use crate::prover_oneshot::{self, OneShotFolding, ProtogalaxyProverOneShot};
use crate::residues;
use crate::roots;
use crate::traces::{FoldingProverTrace, ProverModel, Trace, VerifierFoldingTrace};
use crate::transcript::Message;
use crate::verifier_oneshot;
use vstd::arithmetic::div_mod::*;
use vstd::arithmetic::power::*;
use vstd::arithmetic::power2::*;
use vstd::prelude::*;

verus! {

/// Challenges that are moved by nothing stay, those that are moved twice are moved
/// by the sum, and a step of one adds the distance.
pub proof fn lemma_shifts_of_challenges_add(
    betas: Seq<int>,
    deltas: Seq<int>,
    a: int,
    b: int,
    p: int,
)
    requires
        p > 0,
        betas.len() == deltas.len(),
    ensures
        folding::shifted(betas, deltas, a, p).len() == betas.len(),
        folding::shifted(folding::shifted(betas, deltas, a, p), deltas, b, p) == folding::shifted(
            betas,
            deltas,
            a + b,
            p,
        ),
        forall|i: int|
            0 <= i < betas.len() ==> {
                &&& #[trigger] folding::shifted(betas, deltas, 0, p)[i] == betas[i] % p
                &&& residues::cong(
                    folding::shifted(betas, deltas, 1, p)[i],
                    betas[i] + deltas[i],
                    p,
                )
            },
{
    let once = folding::shifted(betas, deltas, a, p);
    let twice = folding::shifted(once, deltas, b, p);
    let both = folding::shifted(betas, deltas, a + b, p);
    assert forall|i: int| 0 <= i < betas.len() implies twice[i] == both[i] by {
        let (x, d) = (betas[i], deltas[i]);
        residues::lemma_mod_cong(x + a * d, p);
        residues::lemma_cong_ops(once[i], x + a * d, b * d, b * d, p);
        assert((x + a * d) + b * d == x + (a + b) * d) by (nonlinear_arith);
    }
    assert(twice =~= both);
    assert forall|i: int| 0 <= i < betas.len() implies {
        &&& #[trigger] folding::shifted(betas, deltas, 0, p)[i] == betas[i] % p
        &&& residues::cong(folding::shifted(betas, deltas, 1, p)[i], betas[i] + deltas[i], p)
    } by {
        assert(0 * deltas[i] == 0);
        assert(1 * deltas[i] == deltas[i]);
        residues::lemma_mod_cong(betas[i] + deltas[i], p);
    }
}

/// Where a single row misses the circuit, the error is its value times the product
/// of the challenges in its set; the set of row `i` is that of the bits of `i + 1`.
pub proof fn lemma_error_of_one_row(h: Seq<int>, betas: Seq<int>, row: int, p: int)
    requires
        p > 0,
        0 <= row < h.len(),
        h.len() <= pow2(betas.len()),
        forall|i: int| 0 <= i < h.len() && i != row ==> #[trigger] h[i] == 0,
    ensures
        folding::joined(h, betas, p) == (h[row] * powers::pow_of(betas, (row + 1) as nat)) % p,
{
    let w = powers::pow_seq(betas, p);
    let f = |i: int| h[i] * w[i];
    assert forall|i: int| 0 <= i < h.len() && i != row implies residues::cong(
        #[trigger] f(i),
        0,
        p,
    ) by {
        assert(0 * w[i] == 0);
    }
    residues::lemma_sum_single(h.len(), f, row, p);
    let q = powers::pow_of(betas, (row + 1) as nat);
    residues::lemma_mod_cong(q, p);
    residues::lemma_cong_ops(h[row], h[row], w[row], q, p);
}

/// The error of the sum of two lists of rows is the sum of the errors.
pub proof fn lemma_errors_add(a: Seq<int>, b: Seq<int>, betas: Seq<int>, p: int)
    requires
        p > 0,
        a.len() == b.len(),
        a.len() <= pow2(betas.len()),
    ensures
        residues::cong(
            folding::joined(polynomial::plus(a, b), betas, p),
            folding::joined(a, betas, p) + folding::joined(b, betas, p),
            p,
        ),
{
    let w = powers::pow_seq(betas, p);
    let c = polynomial::plus(a, b);
    let f = |i: int| a[i] * w[i];
    let g = |i: int| b[i] * w[i];
    let both = |i: int| c[i] * w[i];
    let sums = |i: int| f(i) + g(i);
    residues::lemma_sum_add(a.len(), f, g);
    assert forall|i: int| 0 <= i < a.len() implies #[trigger] both(i) == sums(i) by {
        let (x, y, z) = (a[i], b[i], w[i]);
        assert((x + y) * z == x * z + y * z) by (nonlinear_arith);
    }
    residues::lemma_sum_eq(a.len(), both, sums);
    let (s, t) = (polynomial::dot(a, w), polynomial::dot(b, w));
    residues::lemma_mod_cong(s, p);
    residues::lemma_mod_cong(t, p);
    residues::lemma_mod_cong(s + t, p);
    residues::lemma_cong_ops(s % p, s, t % p, t, p);
}

/// With the squares of squares of `x` for challenges, the error is the value at `x`
/// of the polynomial that has the rows for coefficients from the linear one on. The
/// last of all rows, which has the empty set, is the constant coefficient.
pub proof fn lemma_error_is_evaluation(h: Seq<int>, betas: Seq<int>, x: int, p: int)
    requires
        p > 0,
        h.len() <= pow2(betas.len()),
        forall|j: int|
            0 <= j < betas.len() ==> residues::cong(
                #[trigger] betas[j],
                pow(x, pow2(j as nat)),
                p,
            ),
    ensures
        h.len() < pow2(betas.len()) ==> folding::joined(h, betas, p) == (x * polynomial::eval(
            h,
            x,
        )) % p,
        h.len() == pow2(betas.len()) ==> folding::joined(h, betas, p) == (h.last() + x
            * polynomial::eval(h.drop_last(), x)) % p,
{
    let n = betas.len();
    lemma_pow2_pos(n);
    let m: nat = if h.len() < pow2(n) {
        h.len()
    } else {
        (h.len() - 1) as nat
    };
    let c = h.take(m as int);
    let w = powers::pow_seq(betas, p);
    let f = |i: int| h[i] * w[i];
    let t = |i: int| c[i] * pow(x, i as nat);
    let g = |i: int| x * t(i);
    assert forall|i: int| 0 <= i < m implies residues::cong(#[trigger] f(i), g(i), p) by {
        let e = (i + 1) as nat;
        let q = powers::pow_of(betas, e);
        powers::lemma_pow_of_squares(betas, x, e, n, p);
        residues::lemma_mod_cong(q, p);
        residues::lemma_cong_ops(h[i], h[i], w[i], pow(x, e), p);
        residues::lemma_pow_step(x, i as nat);
        let (a, b) = (h[i], pow(x, i as nat));
        assert(a * (x * b) == x * (a * b)) by (nonlinear_arith);
    }
    residues::lemma_sum_cong(m, f, g, p);
    residues::lemma_sum_scale(m, t, x);
    assert(residues::sum(m, g) == x * polynomial::eval(c, x));
    if h.len() < pow2(n) {
        assert(c =~= h);
    } else {
        assert(c =~= h.drop_last());
        powers::lemma_pow_of_one_more_bit(betas, 0, n);
        let q = powers::pow_of(betas, pow2(n));
        assert(w[m as int] == q % p);
        assert(f(m as int) == h[m as int] * w[m as int]);
        residues::lemma_mod_cong(1, p);
        residues::lemma_cong_ops(h[m as int], h[m as int], w[m as int], 1, p);
        assert(h[m as int] * 1 == h[m as int]);
        residues::lemma_cong_ops(
            residues::sum(m, f),
            x * polynomial::eval(c, x),
            f(m as int),
            h[m as int],
            p,
        );
    }
}

/// The products of challenges that agree up to multiples of `p` agree too.
proof fn lemma_product_cong(a: Seq<int>, b: Seq<int>, i: nat, n: nat, p: int)
    requires
        p > 0,
        n <= a.len(),
        a.len() == b.len(),
        forall|j: int| 0 <= j < a.len() ==> residues::cong(#[trigger] a[j], b[j], p),
    ensures
        residues::cong(powers::product(a, i, n), powers::product(b, i, n), p),
    decreases n,
{
    if n > 0 {
        let m = (n - 1) as nat;
        lemma_product_cong(a, b, i, m, p);
        let (x, y) = (a[m as int], b[m as int]);
        residues::lemma_cong_ops(powers::product(a, i, m), powers::product(b, i, m), x, y, p);
        residues::lemma_cong_ops(powers::product(a, i, m), powers::product(b, i, m), 1, 1, p);
    }
}

/// What the error polynomial tells at `x` is the error with the challenges moved by
/// `x` times the distances.
pub proof fn lemma_error_at_moved_challenges(
    h: Seq<int>,
    betas: Seq<int>,
    deltas: Seq<int>,
    x: int,
    p: int,
)
    requires
        p > 0,
        betas.len() == deltas.len(),
        h.len() <= pow2(betas.len()),
    ensures
        residues::cong(
            folding_prover::error_at(h, betas, deltas, x),
            folding::joined(h, folding::shifted(betas, deltas, x, p), p),
            p,
        ),
{
    let moved = folding::shifted(betas, deltas, x, p);
    let line = Seq::new(betas.len(), |j: int| betas[j] + deltas[j] * x);
    let w = powers::pow_seq(moved, p);
    let f = |i: int| h[i] * powers::pow_of(line, (i + 1) as nat);
    let g = |i: int| h[i] * w[i];
    assert forall|j: int| 0 <= j < line.len() implies residues::cong(
        #[trigger] line[j],
        moved[j],
        p,
    ) by {
        let (b, d) = (betas[j], deltas[j]);
        assert(d * x == x * d) by (nonlinear_arith);
        residues::lemma_mod_cong(b + x * d, p);
    }
    assert forall|i: int| 0 <= i < h.len() implies residues::cong(#[trigger] f(i), g(i), p) by {
        let e = (i + 1) as nat;
        let q = powers::pow_of(moved, e);
        lemma_product_cong(line, moved, e, line.len(), p);
        residues::lemma_mod_cong(q, p);
        residues::lemma_cong_ops(h[i], h[i], powers::pow_of(line, e), w[i], p);
    }
    residues::lemma_sum_cong(h.len(), f, g, p);
    residues::lemma_sum_eq(
        h.len(),
        f,
        |i: int|
            h[i] * powers::pow_of(
                Seq::new(betas.len(), |j: int| betas[j] + deltas[j] * x),
                (i + 1) as nat,
            ),
    );
    residues::lemma_mod_cong(polynomial::dot(h, w), p);
}

/// After a round, what the error polynomial gave at the second challenge is the
/// error of the trace that was folded so far, with the challenges of the next
/// round. There have to be more points than challenges, which is so where their
/// number is no power of two.
pub proof fn lemma_error_polynomial_tells_next_error<
    F: PrimeField,
    CS: PolynomialCommitmentScheme<F>,
    E: Evaluator<F>,
    const K: usize,
>(
    prover: &ProtogalaxyProver<F, CS, E, K>,
    traces: Seq<FoldingProverTrace<F>>,
    delta: int,
    alpha: int,
    gamma: int,
)
    requires
        ProtogalaxyProver::<F, CS, E, K>::error_k() <= F::two_adicity(),
        K < pow2(ProtogalaxyProver::<F, CS, E, K>::error_k()),
        prover.folding_pk.accepts(prover.folded_trace.model()),
        pow2(prover.folding_pk.domain.k as nat) <= pow2(K as nat),
        prover.error.value() != 0,
    ensures
        prover.round(traces, delta, alpha, gamma).f_eval == folding::joined(
            prover.folding_pk.h(prover.folded_trace.model()),
            prover.round(traces, delta, alpha, gamma).betas,
            F::modulus(),
        ),
{
    F::lemma_field();
    let p = F::modulus();
    let k = ProtogalaxyProver::<F, CS, E, K>::error_k();
    let h = prover.folding_pk.h(prover.folded_trace.model());
    let betas = prover.betas();
    let deltas = folding::squares(delta, K as nat, p);
    let round = prover.round(traces, delta, alpha, gamma);
    prover.folding_pk.ev.lemma_rows(
        prover.folding_pk.domain.k as nat,
        prover.folding_pk.selectors.model(),
        prover.folded_trace.model(),
    );
    error_polynomial::lemma_error_coeffs::<F>(h, betas, deltas, k, alpha);
    lemma_error_at_moved_challenges(h, betas, deltas, alpha, p);
    let j = folding::joined(h, round.betas, p);
    residues::lemma_mod_cong(polynomial::dot(h, powers::pow_seq(round.betas, p)), p);
    residues::lemma_residue_is(j, polynomial::eval(round.f, alpha), p);
}

/// As many points as the error polynomial needs, and less than twice as many.
pub proof fn lemma_error_domain<
    F: PrimeField,
    CS: PolynomialCommitmentScheme<F>,
    E: Evaluator<F>,
    const K: usize,
>()
    requires
        K >= 2,
    ensures
        K <= pow2(ProtogalaxyProver::<F, CS, E, K>::error_k()) < 2 * K,
{
    let e = ProtogalaxyProver::<F, CS, E, K>::error_k();
    let v = (K - 1) as nat;
    lemma2_to64();
    lemma_bit_length_exists(v, 64);
    lemma_pow2_unfold(e);
}

/// Every number has a length in bits.
proof fn lemma_bit_length_exists(v: nat, n: nat)
    requires
        v < pow2(n),
    ensures
        limbs::is_bit_length(v, folding::bits_of(v)),
    decreases n,
{
    lemma2_to64();
    if n == 0 {
        assert(limbs::is_bit_length(v, 0));
    } else if v < pow2((n - 1) as nat) {
        lemma_bit_length_exists(v, (n - 1) as nat);
    } else {
        lemma_pow2_pos((n - 1) as nat);
        assert(limbs::is_bit_length(v, n));
    }
}

/// The new error term, as a function of the last challenge, goes through the old
/// one: where the challenge is the first point of the domain, the point of the
/// trace that was folded so far, it is the old error with the change of challenges;
/// at the points of the other traces it is zero.
pub proof fn lemma_next_error_at_points<F: PrimeField>(
    dk: nat,
    error: int,
    f_eval: int,
    j: nat,
    k_eval: int,
)
    requires
        dk <= F::two_adicity(),
        j < pow2(dk),
    ensures
        folding_verifier::next_error::<F>(
            dk,
            error,
            f_eval,
            interpolation::point::<F>(dk, j),
            k_eval,
        ) == if j == 0 {
            (error + f_eval) % F::modulus()
        } else {
            0
        },
{
    F::lemma_field();
    let p = F::modulus();
    let x = interpolation::point::<F>(dk, j);
    let w = interpolation::omega_of::<F>(dk);
    lemma_pow2_pos(dk);
    interpolation::lemma_lagrange_at_points::<F>(dk, 0, j);
    lemma_vanishes_at_points::<F>(dk, j);
    let z = interpolation::vanishing(dk, x);
    let s = error + f_eval;
    residues::lemma_cong_zero(k_eval, z, p);
    if j == 0 {
        assert(s * 1 == s);
        residues::lemma_cong_ops(s, s, z * k_eval, 0, p);
    } else {
        assert(s * 0 == 0);
        residues::lemma_cong_ops(0, 0, z * k_eval, 0, p);
    }
}

/// A quotient that differs changes the new error term by the difference times the
/// value of the polynomial that vanishes on the domain.
pub proof fn lemma_next_error_follows_quotient<F: PrimeField>(
    dk: nat,
    error: int,
    f_eval: int,
    gamma: int,
    k_eval: int,
    change: int,
)
    ensures
        residues::cong(
            folding_verifier::next_error::<F>(dk, error, f_eval, gamma, k_eval + change)
                - folding_verifier::next_error::<F>(dk, error, f_eval, gamma, k_eval),
            (pow(gamma, pow2(dk)) - 1) * change,
            F::modulus(),
        ),
        residues::cong(
            verifier_oneshot::one_shot_error::<F>(dk, gamma, k_eval + change)
                - verifier_oneshot::one_shot_error::<F>(dk, gamma, k_eval),
            (pow(gamma, pow2(dk)) - 1) * change,
            F::modulus(),
        ),
        verifier_oneshot::one_shot_error::<F>(dk, gamma, 0) == 0,
{
    F::lemma_field();
    let p = F::modulus();
    let z = pow(gamma, pow2(dk)) - 1;
    let a = (error + f_eval) * interpolation::lagrange::<F>(dk, 0, gamma);
    assert(z * (k_eval + change) == z * k_eval + z * change) by (nonlinear_arith);
    assert(z * 0 == 0);
    residues::lemma_mod_cong(a + z * (k_eval + change), p);
    residues::lemma_mod_cong(a + z * k_eval, p);
    residues::lemma_cong_ops(
        (a + z * (k_eval + change)) % p,
        a + z * (k_eval + change),
        (a + z * k_eval) % p,
        a + z * k_eval,
        p,
    );
    residues::lemma_mod_cong(z * (k_eval + change), p);
    residues::lemma_mod_cong(z * k_eval, p);
    residues::lemma_cong_ops(
        (z * (k_eval + change)) % p,
        z * (k_eval + change),
        (z * k_eval) % p,
        z * k_eval,
        p,
    );
    lemma_small_mod(0, p as nat);
}

/// With a quotient of zero, the new error term is the value of the polynomial that
/// is the old error at the first point of the domain and zero at the others.
pub proof fn lemma_next_error_interpolates<F: PrimeField>(
    dk: nat,
    error: int,
    f_eval: int,
    gamma: int,
)
    requires
        dk <= F::two_adicity(),
    ensures
        residues::cong(
            folding_verifier::next_error::<F>(dk, error, f_eval, gamma, 0),
            polynomial::eval(
                interpolation::interpolate::<F>(
                    Seq::new(
                        pow2(dk),
                        |i: int|
                            if i == 0 {
                                error + f_eval
                            } else {
                                0
                            },
                    ),
                    dk,
                ),
                gamma,
            ),
            F::modulus(),
        ),
{
    F::lemma_field();
    let p = F::modulus();
    let n = pow2(dk);
    let s = error + f_eval;
    lemma_pow2_pos(dk);
    let v = Seq::new(
        n,
        |i: int|
            if i == 0 {
                error + f_eval
            } else {
                0
            },
    );
    let f = |i: int| v[i] * interpolation::lagrange::<F>(dk, i, gamma);
    interpolation::lemma_lagrange_combination::<F>(dk, v, gamma);
    assert forall|i: int| 0 <= i < n && i != 0 implies residues::cong(#[trigger] f(i), 0, p) by {
        assert(0 * interpolation::lagrange::<F>(dk, i, gamma) == 0);
    }
    residues::lemma_sum_single(n, f, 0, p);
    residues::lemma_sum_eq(
        n,
        f,
        |i: int| v[i] * interpolation::lagrange::<F>(dk, i, gamma),
    );
    let z = interpolation::vanishing(dk, gamma);
    assert(z * 0 == 0);
    residues::lemma_mod_cong(s * interpolation::lagrange::<F>(dk, 0, gamma), p);
}

/// The polynomial that vanishes on the domain does so at every point of it.
pub proof fn lemma_vanishes_at_points<F: PrimeField>(k: nat, j: nat)
    requires
        k <= F::two_adicity(),
    ensures
        residues::cong(
            interpolation::vanishing(k, interpolation::point::<F>(k, j)),
            0,
            F::modulus(),
        ),
{
    F::lemma_field();
    let p = F::modulus();
    let w = interpolation::omega_of::<F>(k);
    let n = pow2(k);
    interpolation::lemma_omega::<F>(k);
    roots::lemma_root_order(w, k, p);
    lemma_pow_multiplies(w, j, n);
    lemma_pow_multiplies(w, n, j);
    assert(j * n == n * j) by (nonlinear_arith);
    residues::lemma_cong_pow(pow(w, n), 1, j, p);
    lemma1_pow(j);
    residues::lemma_cong_ops(pow(pow(w, j), n), 1, 1, 1, p);
}

/// The quotient, times the value of the polynomial that vanishes on the domain,
/// gives the dividend at every point of the coset.
pub proof fn lemma_quotient_divides<F: PrimeField>(g: Seq<int>, dk: nat, extended: nat, i: int)
    requires
        dk <= extended <= F::two_adicity(),
        0 <= i < g.len(),
    ensures
        folding::quotient::<F>(g, dk, extended).len() == g.len(),
        residues::cong(
            folding::quotient::<F>(g, dk, extended)[i] * (pow(
                interpolation::coset_point::<F>(extended, i as nat),
                pow2(dk),
            ) - 1),
            g[i],
            F::modulus(),
        ),
{
    F::lemma_field();
    let p = F::modulus();
    let v = interpolation::vanishing(dk, interpolation::coset_point::<F>(extended, i as nat));
    let t = residues::inverse(v, p);
    interpolation::lemma_vanishing_invertible::<F>(dk, extended, i as nat);
    residues::lemma_mod_cong(g[i] * t, p);
    residues::lemma_cong_ops((g[i] * t) % p, g[i] * t, v, v, p);
    let a = g[i];
    assert((a * t) * v == a * (t * v)) by (nonlinear_arith);
    residues::lemma_cong_one(a, t * v, p);
}

/// A power of two has one exponent only.
pub proof fn lemma_log2_of_power(e: nat)
    ensures
        folding::log2(pow2(e)) == e,
{
    let d = folding::log2(pow2(e));
    assert(pow2(d) == pow2(e));
    if d < e {
        lemma_pow2_strictly_increases(d, e);
    } else if e < d {
        lemma_pow2_strictly_increases(e, d);
    }
}

/// At the point of a part, all parts fold to that one.
pub proof fn lemma_folds_to_part_at_point<F: PrimeField, T: Linear<F>>(
    dk: nat,
    parts: Seq<T::Model>,
    j: nat,
)
    requires
        dk <= F::two_adicity(),
        parts.len() == pow2(dk),
        linear::all_alike::<F, T>(parts),
        j < parts.len(),
        T::reduced(parts[j as int]),
    ensures
        T::combined(
            interpolation::lagranges::<F>(dk, interpolation::point::<F>(dk, j)),
            parts,
        ) == parts[j as int],
{
    let coeffs = interpolation::lagranges::<F>(dk, interpolation::point::<F>(dk, j));
    assert forall|i: int| 0 <= i < coeffs.len() implies #[trigger] coeffs[i] == if i == j {
        1int
    } else {
        0
    } by {
        interpolation::lemma_lagrange_at_points::<F>(dk, i as nat, j);
    }
    T::lemma_combined_unit(coeffs, parts, j as int);
}

/// A round whose last challenge is the point of one of the traces folds to that
/// trace, and one whose last challenge is the first point, to the trace that was
/// folded so far: on the side of the prover as on that of the verifier.
pub proof fn lemma_round_goes_through_traces<
    F: PrimeField,
    CS: PolynomialCommitmentScheme<F>,
    E: Evaluator<F>,
    const K: usize,
>(
    prover: &ProtogalaxyProver<F, CS, E, K>,
    verifier: &ProtogalaxyVerifier<F, CS, K>,
    traces: Seq<FoldingProverTrace<F>>,
    commitments: Seq<VerifierFoldingTrace<F, CS::Commitment>>,
    dk: nat,
    delta: int,
    alpha: int,
    j: nat,
)
    requires
        dk <= F::two_adicity(),
        traces.len() + 1 == pow2(dk),
        commitments.len() == traces.len(),
        linear::all_alike::<F, FoldingProverTrace<F>>(prover.parts(traces)),
        linear::all_alike::<F, Trace<F, CS::Commitment>>(verifier.parts(commitments)),
        j < pow2(dk),
    ensures
        prover.round(traces, delta, alpha, interpolation::point::<F>(dk, j)).folded == if j == 0 {
            prover.folded_trace.model()
        } else {
            traces[j - 1].model()
        },
        verifier.next_trace(commitments, interpolation::point::<F>(dk, j)) == if j == 0 {
            verifier.verifier_folding_trace.model()
        } else {
            commitments[j - 1].model()
        },
{
    let a = prover.parts(traces);
    let b = verifier.parts(commitments);
    lemma_log2_of_power(dk);
    if j == 0 {
        prover.folded_trace.lemma_reduced();
        verifier.verifier_folding_trace.lemma_reduced();
        assert(a[0] == prover.folded_trace.model());
        assert(b[0] == verifier.verifier_folding_trace.model());
    } else {
        traces[j - 1].lemma_reduced();
        commitments[j - 1].lemma_reduced();
        assert(a[j as int] == traces[j - 1].model());
        assert(b[j as int] == commitments[j - 1].model());
    }
    lemma_folds_to_part_at_point::<F, FoldingProverTrace<F>>(dk, a, j);
    lemma_folds_to_part_at_point::<F, Trace<F, CS::Commitment>>(dk, b, j);
}

/// A single round whose last challenge is the point of one of the traces folds to
/// that trace: on the side of the prover as on that of the verifier.
pub proof fn lemma_one_shot_goes_through_traces<
    F: PrimeField,
    CS: PolynomialCommitmentScheme<F>,
    E: Evaluator<F>,
>(
    pk: &FoldingPk<F, E>,
    traces: Seq<FoldingProverTrace<F>>,
    commitments: Seq<VerifierFoldingTrace<F, CS::Commitment>>,
    dk: nat,
    beta: int,
    j: nat,
)
    requires
        dk <= F::two_adicity(),
        traces.len() == pow2(dk),
        commitments.len() == traces.len(),
        linear::all_alike::<F, FoldingProverTrace<F>>(prover_oneshot::parts_of(traces)),
        linear::all_alike::<F, Trace<F, CS::Commitment>>(
            verifier_oneshot::parts_of::<F, CS::Commitment>(commitments),
        ),
        j < pow2(dk),
    ensures
        prover_oneshot::one_shot_round(
            pk,
            prover_oneshot::parts_of(traces),
            beta,
            interpolation::point::<F>(dk, j),
        ).folded == traces[j as int].model(),
        <Trace<F, CS::Commitment> as Linear<F>>::combined(
            interpolation::lagranges::<F>(dk, interpolation::point::<F>(dk, j)),
            verifier_oneshot::parts_of::<F, CS::Commitment>(commitments),
        ) == commitments[j as int].model(),
{
    let a = prover_oneshot::parts_of(traces);
    let b = verifier_oneshot::parts_of::<F, CS::Commitment>(commitments);
    lemma_log2_of_power(dk);
    traces[j as int].lemma_reduced();
    commitments[j as int].lemma_reduced();
    assert(a[j as int] == traces[j as int].model());
    assert(b[j as int] == commitments[j as int].model());
    lemma_folds_to_part_at_point::<F, FoldingProverTrace<F>>(dk, a, j);
    lemma_folds_to_part_at_point::<F, Trace<F, CS::Commitment>>(dk, b, j);
}

/// The values that a prover sends are those of the polynomials that it committed
/// to before: the error polynomial at the second challenge and the quotient at the
/// last one.
pub proof fn lemma_sent_values_are_of_committed_polynomials<
    F: PrimeField,
    CS: PolynomialCommitmentScheme<F>,
    E: Evaluator<F>,
    const K: usize,
>(
    prover: &ProtogalaxyProver<F, CS, E, K>,
    params: &CS::Parameters,
    traces: Seq<FoldingProverTrace<F>>,
    delta: int,
    alpha: int,
    gamma: int,
)
    ensures
        ({
            let round = prover.round(traces, delta, alpha, gamma);
            let sent = ProtogalaxyProver::<F, CS, E, K>::messages(
                params,
                round,
                delta,
                alpha,
                gamma,
            );
            &&& sent.len() == 7
            &&& sent[0] == Message::<<CS::Commitment as Linear<F>>::Model>::Challenge(delta)
            &&& sent[2] == Message::<<CS::Commitment as Linear<F>>::Model>::Challenge(alpha)
            &&& sent[5] == Message::<<CS::Commitment as Linear<F>>::Model>::Challenge(gamma)
            &&& exists|f: Seq<int>|
                sent[1] == Message::Commitment(#[trigger] CS::of_coeffs(params, f)) && sent[3]
                    == Message::<<CS::Commitment as Linear<F>>::Model>::Scalar(
                    polynomial::eval(f, alpha) % F::modulus(),
                )
            &&& exists|k: Seq<int>|
                sent[4] == Message::Commitment(#[trigger] CS::of_coeffs(params, k)) && sent[6]
                    == Message::<<CS::Commitment as Linear<F>>::Model>::Scalar(
                    polynomial::eval(k, gamma) % F::modulus(),
                )
        }),
{
    let round = prover.round(traces, delta, alpha, gamma);
    let sent = ProtogalaxyProver::<F, CS, E, K>::messages(params, round, delta, alpha, gamma);
    assert(sent[1] == Message::Commitment(CS::of_coeffs(params, round.f)));
    assert(sent[4] == Message::Commitment(CS::of_coeffs(params, round.k)));
}

/// In a single round, the value that a prover sends is that of the quotient that it
/// committed to before, at the last challenge, and the commitment that it ends with
/// is that to the rows of the folded trace.
pub proof fn lemma_one_shot_sends_committed_polynomials<
    F: PrimeField,
    CS: PolynomialCommitmentScheme<F>,
    E: Evaluator<F>,
    const K: usize,
>(
    params: &CS::Parameters,
    pk: &FoldingPk<F, E>,
    parts: Seq<ProverModel>,
    beta: int,
    gamma: int,
)
    requires
        completeness_oneshot::foldable(pk, parts),
    ensures
        ({
            let round = prover_oneshot::one_shot_round(pk, parts, beta, gamma);
            let sent = ProtogalaxyProverOneShot::<F, CS, K>::messages(params, round, beta, gamma);
            &&& sent.len() == 5
            &&& sent[0] == Message::<<CS::Commitment as Linear<F>>::Model>::Challenge(beta)
            &&& sent[2] == Message::<<CS::Commitment as Linear<F>>::Model>::Challenge(gamma)
            &&& exists|k: Seq<int>|
                sent[1] == Message::Commitment(#[trigger] CS::of_coeffs(params, k)) && sent[3]
                    == Message::<<CS::Commitment as Linear<F>>::Model>::Scalar(
                    polynomial::eval(k, gamma) % F::modulus(),
                )
            &&& sent[4] == Message::Commitment(CS::of_values(params, pk.h(round.folded)))
        }),
{
    let round = prover_oneshot::one_shot_round(pk, parts, beta, gamma);
    let sent = ProtogalaxyProverOneShot::<F, CS, K>::messages(params, round, beta, gamma);
    completeness_oneshot::lemma_error_terms_are_rows(pk, parts, beta, gamma);
    assert(sent[1] == Message::Commitment(CS::of_coeffs(params, round.k)));
}

/// The interpolated columns take the values of the columns, each in every row.
pub proof fn lemma_interpolated_columns_take_values<F: PrimeField>(
    columns: Seq<Seq<int>>,
    k: nat,
    i: int,
    row: nat,
)
    requires
        k <= F::two_adicity(),
        0 <= i < columns.len(),
        columns[i].len() == pow2(k),
        row < pow2(k),
    ensures
        prover_oneshot::all_interpolated::<F>(columns, k).len() == columns.len(),
        prover_oneshot::all_interpolated::<F>(columns, k)[i].len() == pow2(k),
        residues::cong(
            polynomial::eval(
                prover_oneshot::all_interpolated::<F>(columns, k)[i],
                interpolation::point::<F>(k, row),
            ),
            columns[i][row as int],
            F::modulus(),
        ),
{
    interpolation::lemma_interpolate::<F>(columns[i], k, row);
}

/// The values of polynomials on the coset give the polynomials back, wherever they
/// are evaluated.
pub proof fn lemma_coset_values_give_polynomials_back<F: PrimeField>(
    polys: Seq<Seq<int>>,
    extended: nat,
    i: int,
    x: int,
)
    requires
        extended <= F::two_adicity(),
        0 <= i < polys.len(),
        polys[i].len() <= pow2(extended),
    ensures
        prover_oneshot::all_on_coset::<F>(polys, extended).len() == polys.len(),
        prover_oneshot::all_on_coset::<F>(polys, extended)[i].len() == pow2(extended),
        residues::cong(
            polynomial::eval(
                interpolation::interpolate_coset::<F>(
                    prover_oneshot::all_on_coset::<F>(polys, extended)[i],
                    extended,
                ),
                x,
            ),
            polynomial::eval(polys[i], x),
            F::modulus(),
        ),
{
    F::lemma_field();
    let p = F::modulus();
    let v = prover_oneshot::all_on_coset::<F>(polys, extended)[i];
    assert forall|j: int| 0 <= j < v.len() implies residues::cong(
        #[trigger] v[j],
        polynomial::eval(polys[i], interpolation::coset_point::<F>(extended, j as nat)),
        p,
    ) by {
        residues::lemma_mod_cong(
            polynomial::eval(polys[i], interpolation::coset_point::<F>(extended, j as nat)),
            p,
        );
    }
    let c = interpolation::interpolate_coset::<F>(v, extended);
    completeness::lemma_coset_recovers::<F>(polys[i], v, extended, pow2(extended), x);
    assert(c.take(pow2(extended) as int) =~= c);
}

/// The extension of a domain is the least that holds as many points as are wanted,
/// and no smaller than the domain.
pub proof fn lemma_extension_is_least(k: nat, target: nat, other: nat)
    requires
        k <= other,
        target <= pow2(other),
    ensures
        k <= domain::extension_of(k, target) <= other,
        target <= pow2(domain::extension_of(k, target)),
{
    let e = completeness::lemma_extension_exists(k, target, other);
    domain::lemma_extension_is(e, k, target);
}

/// A domain fits where the field has as many roots as its extension has points, and
/// the machine can count twice as many coefficients as a quotient has.
pub proof fn lemma_domain_fits<F: PrimeField>(j: nat, k: nat)
    requires
        j >= 1,
    ensures
        domain::fits::<F>(j, k) <==> {
            &&& k <= F::two_adicity()
            &&& (pow2(k) * (j - 1)) as nat <= pow2(F::two_adicity())
            &&& 2 * (pow2(k) * (j - 1)) <= usize::MAX
            &&& pow2(k) <= usize::MAX
        },
        domain::fits::<F>(j, k) ==> domain::extension_of(k, (pow2(k) * (j - 1)) as nat)
            <= F::two_adicity(),
{
    let t = (j - 1) as nat;
    assert(pow2(k) * t >= 0) by (nonlinear_arith);
    assert(pow2(k) * (j - 1) == pow2(k) * t);
    if domain::fits::<F>(j, k) {
        lemma_extension_is_least(k, (pow2(k) * (j - 1)) as nat, F::two_adicity());
    }
}

/// What a single round leaves with the prover fits together: the fixed polynomials
/// take the values of the fixed columns of the folded trace, their values on the
/// coset are theirs, and the polynomial of the error terms takes the values of the
/// rows of the folded trace.
pub proof fn lemma_one_shot_result_fits_together<
    F: PrimeField,
    CS: PolynomialCommitmentScheme<F>,
    E: Evaluator<F>,
    const K: usize,
>(
    params: &CS::Parameters,
    pk: &FoldingPk<F, E>,
    traces: Seq<FoldingProverTrace<F>>,
    before: Seq<Message<<CS::Commitment as Linear<F>>::Model>>,
    after: Seq<Message<<CS::Commitment as Linear<F>>::Model>>,
    folding: OneShotFolding<F>,
    column: int,
    row: nat,
    point: int,
)
    requires
        prover_oneshot::can_fold::<F, CS, E>(params, pk, traces, K as nat),
        ProtogalaxyProverOneShot::<F, CS, K>::folds_to(
            params,
            pk,
            traces,
            before,
            after,
            folding,
        ),
        0 <= column < folding.folded_trace.model().trace.fixed.len(),
        row < pk.domain.size(),
        0 <= point < pk.domain.extended_size(),
    ensures
        folding.fixed_polys.model().len() == folding.folded_trace.model().trace.fixed.len(),
        folding.fixed_cosets.model().len() == folding.folded_trace.model().trace.fixed.len(),
        residues::cong(
            polynomial::eval(
                folding.fixed_polys.model()[column],
                interpolation::point::<F>(pk.domain.k as nat, row),
            ),
            folding.folded_trace.model().trace.fixed[column][row as int],
            F::modulus(),
        ),
        folding.fixed_cosets.model()[column][point] == polynomial::eval(
            folding.fixed_polys.model()[column],
            interpolation::coset_point::<F>(pk.domain.extended_k as nat, point as nat),
        ) % F::modulus(),
        residues::cong(
            polynomial::eval(
                field::values(folding.error_coeff@),
                interpolation::point::<F>(pk.domain.k as nat, row),
            ),
            pk.h(folding.folded_trace.model())[row as int],
            F::modulus(),
        ),
        after.len() == before.len() + 5,
        after.take(before.len() as int) == before,
        after[before.len() as int] == Message::<<CS::Commitment as Linear<F>>::Model>::Challenge(
            folding.beta.value(),
        ),
{
    F::lemma_field();
    let k = pk.domain.k as nat;
    let e = pk.domain.extended_k as nat;
    let parts = prover_oneshot::parts_of(traces);
    let (beta, gamma) = choose|beta: int, gamma: int|
        {
            let round = #[trigger] prover_oneshot::one_shot_round(pk, parts, beta, gamma);
            &&& after == before + ProtogalaxyProverOneShot::<F, CS, K>::messages(
                params,
                round,
                beta,
                gamma,
            )
            &&& folding.beta.value() == beta
            &&& folding.folded_trace.model() == round.folded
            &&& field::values(folding.error_coeff@) == interpolation::interpolate::<F>(
                round.errors,
                k,
            )
            &&& folding.fixed_polys.model() == prover_oneshot::all_interpolated::<F>(
                round.folded.trace.fixed,
                k,
            )
            &&& folding.fixed_cosets.model() == prover_oneshot::all_on_coset::<F>(
                prover_oneshot::all_interpolated::<F>(round.folded.trace.fixed, k),
                e,
            )
        };
    let round = prover_oneshot::one_shot_round(pk, parts, beta, gamma);
    let sent = ProtogalaxyProverOneShot::<F, CS, K>::messages(params, round, beta, gamma);
    assert forall|j: int| 0 <= j < parts.len() implies <FoldingProverTrace<F> as Linear<
        F,
    >>::reduced(#[trigger] parts[j]) by {
        traces[j].lemma_reduced();
    }
    assert(completeness_oneshot::foldable(pk, parts));
    completeness_oneshot::lemma_error_terms_are_rows(pk, parts, beta, gamma);
    pk.lemma_accepts_folded(folding::log2(parts.len()), parts, gamma);
    interpolation::lemma_interpolate::<F>(round.errors, k, row);
    let coeffs = interpolation::lagranges::<F>(folding::log2(parts.len()), gamma);
    <FoldingProverTrace<F> as Linear<F>>::lemma_combined_alike(coeffs, parts);
    let fixed = round.folded.trace.fixed;
    assert(<Vec<F> as Linear<F>>::alike(fixed[column], parts[0].trace.fixed[column]));
    lemma_interpolated_columns_take_values::<F>(fixed, k, column, row);
    assert(after.take(before.len() as int) =~= before);
    assert(after[before.len() as int] == sent[0]);
}

/// A round of the prover keeps the circuit and what was said before, and adds seven
/// messages; so does one of the verifier.
pub proof fn lemma_rounds_add_to_history<
    F: PrimeField,
    CS: PolynomialCommitmentScheme<F>,
    E: Evaluator<F>,
    const K: usize,
>(
    params: &CS::Parameters,
    prover: &ProtogalaxyProver<F, CS, E, K>,
    verifier: &ProtogalaxyVerifier<F, CS, K>,
    traces: Seq<FoldingProverTrace<F>>,
    commitments: Seq<VerifierFoldingTrace<F, CS::Commitment>>,
    before: Seq<Message<<CS::Commitment as Linear<F>>::Model>>,
    after: Seq<Message<<CS::Commitment as Linear<F>>::Model>>,
    next_prover: ProtogalaxyProver<F, CS, E, K>,
    next_verifier: ProtogalaxyVerifier<F, CS, K>,
)
    ensures
        prover.folds_to(params, traces, before, after, next_prover) ==> {
            &&& next_prover.folding_pk == prover.folding_pk
            &&& next_prover.error.value() != 0
            &&& after.len() == before.len() + 7
            &&& after.take(before.len() as int) == before
        },
        verifier.folds_to(commitments, before, after, next_verifier) ==> {
            &&& after.len() == before.len() + 7
            &&& after.take(before.len() as int) == before
        },
{
    if prover.folds_to(params, traces, before, after, next_prover) {
        let (delta, alpha, gamma) = choose|delta: int, alpha: int, gamma: int|
            {
                let round = #[trigger] prover.round(traces, delta, alpha, gamma);
                &&& after == before + ProtogalaxyProver::<F, CS, E, K>::messages(
                    params,
                    round,
                    delta,
                    alpha,
                    gamma,
                )
                &&& round.g_eval != 0
                &&& next_prover.error.value() == round.g_eval
            };
        assert(after.take(before.len() as int) =~= before);
    }
    if verifier.folds_to(commitments, before, after, next_verifier) {
        assert(after.take(before.len() as int) =~= before);
    }
}

/// The challenges of the next round are those of this one, each moved by the second
/// challenge times a power of the first: the power one, and then each the square of
/// the one before.
proof fn lemma_moved_by_powers(betas: Seq<int>, delta: int, alpha: int, j: int, p: int)
    requires
        p > 0,
        0 <= j < betas.len(),
    ensures
        folding::shifted(betas, folding::squares(delta, betas.len(), p), alpha, p)[j] == (betas[j]
            + alpha * pow(delta, pow2(j as nat))) % p,
{
    let d = folding::squares(delta, betas.len(), p);
    let q = pow(delta, pow2(j as nat));
    lemma_squares_are_powers(delta, betas.len(), j as nat, p);
    residues::lemma_mod_cong(q, p);
    residues::lemma_cong_ops(alpha, alpha, d[j], q, p);
    residues::lemma_cong_ops(betas[j], betas[j], alpha * d[j], alpha * q, p);
}

/// The squares of squares of an element are its powers 1, 2, 4 and so on.
proof fn lemma_squares_are_powers(x: int, n: nat, j: nat, p: int)
    requires
        p > 0,
        j < n,
    ensures
        folding::squares(x, n, p)[j as int] == pow(x, pow2(j)) % p,
    decreases j,
{
    folding::lemma_squares_are_successive(x, n, p);
    lemma2_to64();
    lemma_pow1(x);
    if j > 0 {
        let i = (j - 1) as nat;
        lemma_squares_are_powers(x, n, i, p);
        let q = pow(x, pow2(i));
        lemma_pow2_unfold(j);
        lemma_pow_adds(x, pow2(i), pow2(i));
        let s = folding::squares(x, n, p);
        assert(s[j as int] == (s[i as int] * s[i as int]) % p);
        residues::lemma_mod_cong(q, p);
        residues::lemma_cong_ops(q % p, q, q % p, q, p);
    }
}

/// After a round of the prover, each challenge that joins the rows is moved by the
/// second challenge of the round times its own power of the first one.
pub proof fn lemma_prover_moves_challenges<
    F: PrimeField,
    CS: PolynomialCommitmentScheme<F>,
    E: Evaluator<F>,
    const K: usize,
>(
    prover: &ProtogalaxyProver<F, CS, E, K>,
    traces: Seq<FoldingProverTrace<F>>,
    delta: int,
    alpha: int,
    gamma: int,
    j: int,
)
    requires
        0 <= j < K,
    ensures
        prover.round(traces, delta, alpha, gamma).betas.len() == K,
        prover.round(traces, delta, alpha, gamma).betas[j] == (prover.beta@[j].value() + alpha
            * pow(delta, pow2(j as nat))) % F::modulus(),
{
    F::lemma_field();
    lemma_moved_by_powers(prover.betas(), delta, alpha, j, F::modulus());
}

/// After a round of the verifier, each challenge that joins the rows is moved by the
/// second challenge that was drawn times its own power of the first one.
pub proof fn lemma_verifier_moves_challenges<
    F: PrimeField,
    CS: PolynomialCommitmentScheme<F>,
    const K: usize,
>(
    verifier: &ProtogalaxyVerifier<F, CS, K>,
    commitments: Seq<VerifierFoldingTrace<F, CS::Commitment>>,
    before: Seq<Message<<CS::Commitment as Linear<F>>::Model>>,
    after: Seq<Message<<CS::Commitment as Linear<F>>::Model>>,
    next: ProtogalaxyVerifier<F, CS, K>,
    j: int,
)
    requires
        verifier.folds_to(commitments, before, after, next),
        0 <= j < K,
    ensures
        ({
            let n = before.len() as int;
            &&& after[n] is Challenge
            &&& after[n + 2] is Challenge
            &&& next.beta_powers@[j].value() == (verifier.beta_powers@[j].value()
                + after[n + 2]->Challenge_0 * pow(after[n]->Challenge_0, pow2(j as nat)))
                % F::modulus()
        }),
{
    F::lemma_field();
    let p = F::modulus();
    let n = before.len() as int;
    let (delta, committed_f, alpha, f_eval, committed_k, gamma, k_eval) = choose|
        delta: int,
        committed_f: <CS::Commitment as Linear<F>>::Model,
        alpha: int,
        f_eval: int,
        committed_k: <CS::Commitment as Linear<F>>::Model,
        gamma: int,
        k_eval: int,
    |
        {
            &&& after == before + #[trigger] ProtogalaxyVerifier::<F, CS, K>::messages(
                delta,
                committed_f,
                alpha,
                f_eval,
                committed_k,
                gamma,
                k_eval,
            )
            &&& next.betas() == folding::shifted(
                verifier.betas(),
                folding::squares(delta, K as nat, p),
                alpha,
                p,
            )
        };
    let read = ProtogalaxyVerifier::<F, CS, K>::messages(
        delta,
        committed_f,
        alpha,
        f_eval,
        committed_k,
        gamma,
        k_eval,
    );
    assert(after[n] == read[0]);
    assert(after[n + 2] == read[2]);
    lemma_moved_by_powers(verifier.betas(), delta, alpha, j, p);
    assert(next.betas()[j] == next.beta_powers@[j].value());
}

/// A quotient has as many coefficients as there are traces, for each degree but the
/// first.
pub proof fn lemma_quotient_len<
    F: PrimeField,
    CS: PolynomialCommitmentScheme<F>,
    E: Evaluator<F>,
    const K: usize,
>(
    prover: &ProtogalaxyProver<F, CS, E, K>,
    params: &CS::Parameters,
    traces: Seq<FoldingProverTrace<F>>,
    delta: int,
    alpha: int,
    gamma: int,
)
    requires
        prover.can_fold(params, traces),
    ensures
        prover.round(traces, delta, alpha, gamma).k.len() == (traces.len() + 1) * (
        prover.folding_pk.ev.folding_degree_of() - 1),
{
    let parts = prover.parts(traces);
    let dk = folding::log2(parts.len());
    let degree = prover.folding_pk.ev.folding_degree_of();
    let len = (pow2(dk) * (degree - 1)) as nat;
    assert(parts.len() == traces.len() + 1);
    lemma_domain_fits::<F>(degree, dk);
    lemma_extension_is_least(dk, len, F::two_adicity());
    assert(pow2(dk) * (degree - 1) >= 0) by (nonlinear_arith)
        requires
            degree >= 1,
    ;
}

/// However many challenges there are: at the points on which the error polynomial was
/// interpolated, it is the error with the challenges moved by that point.
pub proof fn lemma_error_polynomial_at_its_points<
    F: PrimeField,
    CS: PolynomialCommitmentScheme<F>,
    E: Evaluator<F>,
    const K: usize,
>(prover: &ProtogalaxyProver<F, CS, E, K>, deltas: Seq<int>, t: nat)
    requires
        ProtogalaxyProver::<F, CS, E, K>::error_k() <= F::two_adicity(),
        deltas.len() == K,
        t < pow2(ProtogalaxyProver::<F, CS, E, K>::error_k()),
        prover.folding_pk.accepts(prover.folded_trace.model()),
        pow2(prover.folding_pk.domain.k as nat) <= pow2(K as nat),
        prover.error.value() != 0,
    ensures
        ({
            let k = ProtogalaxyProver::<F, CS, E, K>::error_k();
            let x = interpolation::point::<F>(k, t);
            &&& prover.f_coeffs(deltas).len() == pow2(k)
            &&& polynomial::eval(prover.f_coeffs(deltas), x) % F::modulus() == folding::joined(
                prover.folding_pk.h(prover.folded_trace.model()),
                folding::shifted(prover.betas(), deltas, x, F::modulus()),
                F::modulus(),
            )
        }),
{
    F::lemma_field();
    let p = F::modulus();
    let k = ProtogalaxyProver::<F, CS, E, K>::error_k();
    let x = interpolation::point::<F>(k, t);
    let h = prover.folding_pk.h(prover.folded_trace.model());
    let betas = prover.betas();
    prover.folding_pk.ev.lemma_rows(
        prover.folding_pk.domain.k as nat,
        prover.folding_pk.selectors.model(),
        prover.folded_trace.model(),
    );
    let v = Seq::new(
        pow2(k),
        |t: int|
            folding_prover::error_at(
                h,
                betas,
                deltas,
                interpolation::point::<F>(k, t as nat),
            ) % p,
    );
    interpolation::lemma_interpolate::<F>(v, k, t);
    let e = folding_prover::error_at(h, betas, deltas, x);
    residues::lemma_mod_cong(e, p);
    lemma_error_at_moved_challenges(h, betas, deltas, x, p);
    let moved = folding::shifted(betas, deltas, x, p);
    let j = folding::joined(h, moved, p);
    residues::lemma_mod_cong(polynomial::dot(h, powers::pow_seq(moved, p)), p);
    residues::lemma_residue_is(j, polynomial::eval(prover.f_coeffs(deltas), x), p);
}

} // verus!
