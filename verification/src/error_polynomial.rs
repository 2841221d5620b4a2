//! The polynomial that tells the error with the challenges moved.
use crate::commitment::PolynomialCommitmentScheme;
use crate::evaluator::Evaluator;
use crate::field::PrimeField;
use crate::folding;
use crate::folding_prover::{self, ProtogalaxyProver};
use crate::interpolation;
use crate::linear::Linear;
use crate::polynomial;
use crate::powers;
use crate::residues;
use vstd::arithmetic::div_mod::*;
use vstd::arithmetic::power::*;
use vstd::arithmetic::power2::*;
use vstd::prelude::*;

verus! {

/// The product of those of the first `n` lines a + b X whose bit in `i` is set.
spec fn line_product(a: Seq<int>, b: Seq<int>, i: nat, n: nat) -> Seq<int>
    decreases n,
{
    if n == 0 {
        seq![1int]
    } else {
        let below = line_product(a, b, i, (n - 1) as nat);
        if powers::bit(i, (n - 1) as nat) {
            polynomial::times(below, seq![a[n - 1], b[n - 1]])
        } else {
            below
        }
    }
}

proof fn lemma_line_product(a: Seq<int>, b: Seq<int>, i: nat, n: nat, x: int)
    requires
        n <= a.len(),
    ensures
        1 <= line_product(a, b, i, n).len() <= n + 1,
        polynomial::eval(line_product(a, b, i, n), x) == powers::product(
            Seq::new(a.len(), |j: int| a[j] + b[j] * x),
            i,
            n,
        ),
    decreases n,
{
    let line = Seq::new(a.len(), |j: int| a[j] + b[j] * x);
    if n == 0 {
        let one = seq![1int];
        polynomial::lemma_eval_first(one, x);
        assert(one.skip(1) =~= Seq::<int>::empty());
        assert(polynomial::eval(Seq::<int>::empty(), x) == 0);
        assert(x * 0 == 0);
    } else {
        let m = (n - 1) as nat;
        lemma_line_product(a, b, i, m, x);
        let below = line_product(a, b, i, m);
        let last = seq![a[n - 1], b[n - 1]];
        if powers::bit(i, m) {
            polynomial::lemma_times_len(below, last);
            polynomial::lemma_eval_times(below, last, x);
            folding_prover::lemma_eval_linear(last, a[n - 1], b[n - 1], x);
        } else {
            assert(powers::product(line, i, m) * 1 == powers::product(line, i, m));
        }
    }
}

/// The sum of the first `rows` products, each multiplied by the value of its row.
spec fn error_sum(h: Seq<int>, a: Seq<int>, b: Seq<int>, rows: nat) -> Seq<int>
    decreases rows,
{
    if rows == 0 {
        Seq::empty()
    } else {
        polynomial::plus(
            error_sum(h, a, b, (rows - 1) as nat),
            polynomial::scaled(line_product(a, b, rows, a.len()), h[rows - 1]),
        )
    }
}

proof fn lemma_error_sum(h: Seq<int>, a: Seq<int>, b: Seq<int>, rows: nat, x: int)
    requires
        rows <= h.len(),
    ensures
        error_sum(h, a, b, rows).len() <= a.len() + 1,
        polynomial::eval(error_sum(h, a, b, rows), x) == residues::sum(
            rows,
            |i: int|
                h[i] * powers::pow_of(
                    Seq::new(a.len(), |j: int| a[j] + b[j] * x),
                    (i + 1) as nat,
                ),
        ),
    decreases rows,
{
    if rows == 0 {
        assert(polynomial::eval(Seq::<int>::empty(), x) == 0);
    } else {
        let m = (rows - 1) as nat;
        lemma_error_sum(h, a, b, m, x);
        lemma_line_product(a, b, rows, a.len(), x);
        let c = line_product(a, b, rows, a.len());
        polynomial::lemma_eval_plus(
            error_sum(h, a, b, m),
            polynomial::scaled(c, h[rows - 1]),
            x,
        );
        polynomial::lemma_eval_scaled(c, h[rows - 1], x);
    }
}

/// With more points than challenges, the interpolated error polynomial tells the
/// error wherever the challenges are moved to.
pub proof fn lemma_error_coeffs<F: PrimeField>(
    h: Seq<int>,
    betas: Seq<int>,
    deltas: Seq<int>,
    k: nat,
    x: int,
)
    requires
        k <= F::two_adicity(),
        betas.len() < pow2(k),
    ensures
        residues::cong(
            polynomial::eval(folding_prover::error_coeffs::<F>(h, betas, deltas, k), x),
            folding_prover::error_at(h, betas, deltas, x),
            F::modulus(),
        ),
{
    F::lemma_field();
    let p = F::modulus();
    let n = pow2(k);
    let c = error_sum(h, betas, deltas, h.len());
    lemma_error_sum(h, betas, deltas, h.len(), x);
    let wide = polynomial::padded(c, n);
    let v = Seq::new(
        n,
        |t: int|
            folding_prover::error_at(
                h,
                betas,
                deltas,
                interpolation::point::<F>(k, t as nat),
            ) % p,
    );
    assert forall|i: int| 0 <= i < n implies residues::cong(
        #[trigger] v[i],
        polynomial::eval(wide, interpolation::point::<F>(k, i as nat)),
        p,
    ) by {
        let y = interpolation::point::<F>(k, i as nat);
        lemma_error_sum(h, betas, deltas, h.len(), y);
        polynomial::lemma_eval_pad(c, wide, y);
        residues::lemma_mod_cong(folding_prover::error_at(h, betas, deltas, y), p);
    }
    interpolation::lemma_interpolate_values::<F>(wide, v, k);
    let e = folding_prover::error_coeffs::<F>(h, betas, deltas, k);
    assert forall|i: int| 0 <= i < n implies residues::cong(#[trigger] e[i], wide[i], p) by {
        residues::lemma_mod_cong(wide[i], p);
    }
    polynomial::lemma_eval_cong(e, wide, x, x, p);
    polynomial::lemma_eval_pad(c, wide, x);
}

/// The error polynomial starts with the error: the check of its constant
/// coefficient succeeds where the error is that of the folded trace. There have to
/// be more points than challenges, which is so where their number is no power of
/// two.
pub proof fn lemma_error_polynomial_starts_with_error<
    F: PrimeField,
    CS: PolynomialCommitmentScheme<F>,
    E: Evaluator<F>,
    const K: usize,
>(prover: &ProtogalaxyProver<F, CS, E, K>, deltas: Seq<int>)
    requires
        ProtogalaxyProver::<F, CS, E, K>::error_k() <= F::two_adicity(),
        K < pow2(ProtogalaxyProver::<F, CS, E, K>::error_k()),
        prover.folding_pk.accepts(prover.folded_trace.model()),
        pow2(prover.folding_pk.domain.k as nat) <= pow2(K as nat),
        prover.error.value() == folding::joined(
            prover.folding_pk.h(prover.folded_trace.model()),
            prover.betas(),
            F::modulus(),
        ),
    ensures
        prover.f_coeffs(deltas)[0] == prover.error.value(),
{
    F::lemma_field();
    let p = F::modulus();
    let k = ProtogalaxyProver::<F, CS, E, K>::error_k();
    let h = prover.folding_pk.h(prover.folded_trace.model());
    let b = prover.betas();
    lemma_pow2_pos(k);
    if prover.error.value() != 0 {
        let e = folding_prover::error_coeffs::<F>(h, b, deltas, k);
        lemma_error_coeffs::<F>(h, b, deltas, k, 0);
        // The value at zero is the constant coefficient.
        polynomial::lemma_eval_first(e, 0);
        assert(0 * polynomial::eval(e.skip(1), 0) == 0);
        prover.folding_pk.ev.lemma_rows(
            prover.folding_pk.domain.k as nat,
            prover.folding_pk.selectors.model(),
            prover.folded_trace.model(),
        );
        let w = powers::pow_seq(b, p);
        let line = Seq::new(b.len(), |j: int| b[j] + deltas[j] * 0);
        assert(line =~= b) by {
            assert forall|j: int| 0 <= j < b.len() implies #[trigger] line[j] == b[j] by {
                assert(deltas[j] * 0 == 0);
            }
        }
        let f = |i: int| h[i] * powers::pow_of(line, (i + 1) as nat);
        let g = |i: int| h[i] * w[i];
        assert forall|i: int| 0 <= i < h.len() implies residues::cong(
            #[trigger] f(i),
            g(i),
            p,
        ) by {
            let q = powers::pow_of(b, (i + 1) as nat);
            residues::lemma_mod_cong(q, p);
            residues::lemma_cong_ops(h[i], h[i], q, w[i], p);
        }
        residues::lemma_sum_cong(h.len(), f, g, p);
        let v = Seq::new(
            pow2(k),
            |t: int|
                folding_prover::error_at(
                    h,
                    b,
                    deltas,
                    interpolation::point::<F>(k, t as nat),
                ) % p,
        );
        lemma_mod_bound(
            interpolation::size_inv_of::<F>(k) * polynomial::eval(
                v,
                pow(interpolation::omega_inv_of::<F>(k), 0),
            ),
            p,
        );
        residues::lemma_residue_is(e[0], residues::sum(h.len(), g), p);
    }
}

} // verus!
