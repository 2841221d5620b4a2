//! What provers and verifiers share.
use crate::domain::{self, EvaluationDomain};
use crate::error::Error;
use crate::evaluator;
use crate::field::{self, PrimeField};
use crate::interpolation;
use crate::limbs;
use crate::linear::{self, Linear};
use crate::parallel;
use crate::polynomial;
use crate::powers;
use crate::residues;
use crate::traces::FoldingProverTrace;
use vstd::arithmetic::div_mod::*;
use vstd::arithmetic::power::*;
use vstd::arithmetic::power2::*;
use vstd::prelude::*;

verus! {

/// `n` is a power of two.
pub open spec fn is_power_of_two(n: nat) -> bool {
    exists|e: nat| n == #[trigger] pow2(e)
}

/// The exponent of a power of two.
pub open spec fn log2(n: nat) -> nat {
    choose|e: nat| n == #[trigger] pow2(e)
}

/// Returns the exponent of a power of two.
pub fn exact_log2(n: usize) -> (r: u32)
    requires
        is_power_of_two(n as nat),
    ensures
        n == pow2(r as nat),
        r == log2(n as nat),
        r < 64,
{
    let ghost e = log2(n as nat);
    let mut r: u32 = 0;
    let mut m: usize = 1;
    proof {
        lemma2_to64();
        assert(n == pow2(e));
        lemma_pow2_pos(e);
        if e >= 64 {
            if e > 64 {
                lemma_pow2_strictly_increases(64, e);
            }
            assert(false);
        }
    }
    while m < n
        invariant
            n == pow2(e),
            e < 64,
            r <= e,
            m == pow2(r as nat),
        decreases e - r,
    {
        proof {
            if r >= e {
                assert(r == e);
            } else {
                lemma_pow2_unfold((r + 1) as nat);
                if r + 1 < e {
                    lemma_pow2_strictly_increases((r + 1) as nat, e);
                }
            }
        }
        m = m * 2;
        r = r + 1;
    }
    proof {
        if r < e {
            lemma_pow2_strictly_increases(r as nat, e);
        }
    }
    r
}

/// The length of the binary representation of `v`.
pub open spec fn bits_of(v: nat) -> nat {
    choose|bits: nat| limbs::is_bit_length(v, bits)
}

/// A binary representation has one length only.
pub proof fn lemma_bits_is(v: nat, bits: nat)
    requires
        limbs::is_bit_length(v, bits),
    ensures
        bits_of(v) == bits,
{
    let b = bits_of(v);
    assert(limbs::is_bit_length(v, b));
    if v > 0 {
        if b < bits {
            if b < bits - 1 {
                lemma_pow2_strictly_increases(b, (bits - 1) as nat);
            }
        } else if bits < b {
            if bits < b - 1 {
                lemma_pow2_strictly_increases(bits, (b - 1) as nat);
            }
        }
    }
}

/// Returns the length of the binary representation of `v`.
pub fn bit_length(v: usize) -> (r: u32)
    ensures
        limbs::is_bit_length(v as nat, r as nat),
        r == bits_of(v as nat),
        r <= 64,
{
    let mut rest: usize = v;
    let mut r: u32 = 0;
    proof {
        lemma2_to64();
        lemma_div_basics(v as int);
        assert(v < pow2(64));
    }
    while rest > 0
        invariant
            rest == v as nat / pow2(r as nat),
            v < pow2(64),
            r <= 64,
            r > 0 ==> v as nat / pow2((r - 1) as nat) > 0,
        decreases rest,
    {
        proof {
            if r == 64 {
                lemma_basic_div(v as int, pow2(64) as int);
            }
            lemma_pow2_pos(r as nat);
            lemma_pow2_unfold((r + 1) as nat);
            lemma_div_denominator(v as int, pow2(r as nat) as int, 2);
        }
        rest = rest / 2;
        r = r + 1;
    }
    proof {
        lemma_pow2_pos(r as nat);
        lemma_fundamental_div_mod(v as int, pow2(r as nat) as int);
        lemma_mod_bound(v as int, pow2(r as nat) as int);
        assert(pow2(r as nat) * 0 == 0);
        assert(v < pow2(r as nat));
        if v > 0 {
            assert(r > 0) by {
                if r == 0 {
                    lemma_div_basics(v as int);
                }
            }
            let h = pow2((r - 1) as nat);
            lemma_pow2_pos((r - 1) as nat);
            if v < h {
                lemma_basic_div(v as int, h as int);
            }
        } else if r > 0 {
            lemma_pow2_pos((r - 1) as nat);
            lemma_basic_div(0, pow2((r - 1) as nat) as int);
        }
        lemma_bits_is(v as nat, r as nat);
    }
    r
}

/// The squares of squares of an element: it to the powers 1, 2, 4 and so on.
pub open spec fn squares(x: int, n: nat, p: int) -> Seq<int> {
    Seq::new(n, |i: int| pow(x, pow2(i as nat)) % p)
}

/// Returns an element to the powers 1, 2, 4 and so on.
pub fn repeated_squares<F: PrimeField, const K: usize>(x: &F) -> (r: [F; K])
    ensures
        field::values(r@) == squares(x.value(), K as nat, F::modulus()),
        K > 0 ==> r@[0].value() == x.value(),
        forall|i: int, j: int|
            0 <= i && j == i + 1 && j < K ==> (#[trigger] r@[j]).value() == ((
            #[trigger] r@[i]).value() * r@[i].value()) % F::modulus(),
{
    let ghost p = F::modulus();
    let ghost v = x.value();
    let mut r = [*x; K];
    let mut square = *x;
    proof {
        F::lemma_field();
        lemma2_to64();
        lemma_pow1(v);
        x.lemma_value();
        residues::lemma_residue_is(v, v, p);
    }
    for i in 0..K
        invariant
            p == F::modulus(),
            p > 3,
            v == x.value(),
            square.value() == pow(v, pow2(i as nat)) % p,
            r@.len() == K,
            forall|j: int| 0 <= j < i ==> #[trigger] r@[j].value() == pow(v, pow2(j as nat)) % p,
    {
        r[i] = square;
        proof {
            let h = pow2(i as nat);
            let q = pow(v, h);
            lemma_pow2_unfold((i + 1) as nat);
            lemma_pow_adds(v, h, h);
            residues::lemma_mod_cong(q, p);
            residues::lemma_cong_ops(q % p, q, q % p, q, p);
        }
        square = square.mul(&square);
    }
    assert(field::values(r@) =~= squares(v, K as nat, p));
    proof {
        lemma_squares_are_successive(v, K as nat, p);
        let s = squares(v, K as nat, p);
        assert forall|i: int| 0 <= i < K implies s[i] == (#[trigger] r@[i]).value() by {
            assert(field::values(r@)[i] == r@[i].value());
        }
        lemma_small_mod(v as nat, p as nat);
    }
    r
}

/// The first of the squares of squares is the element, and each of the others is
/// the square of the one before it.
pub proof fn lemma_squares_are_successive(x: int, n: nat, p: int)
    requires
        p > 0,
    ensures
        squares(x, n, p).len() == n,
        n > 0 ==> squares(x, n, p)[0] == x % p,
        forall|i: int, j: int|
            0 <= i && j == i + 1 && j < n ==> #[trigger] squares(x, n, p)[j] == (
            #[trigger] squares(x, n, p)[i] * squares(x, n, p)[i]) % p,
{
    let s = squares(x, n, p);
    lemma2_to64();
    lemma_pow1(x);
    assert forall|i: int, j: int| 0 <= i && j == i + 1 && j < n implies #[trigger] s[j] == (
    #[trigger] s[i] * s[i]) % p by {
        let h = pow2(i as nat);
        let q = pow(x, h);
        lemma_pow2_unfold(j as nat);
        lemma_pow_adds(x, h, h);
        residues::lemma_mod_cong(q, p);
        residues::lemma_cong_ops(q % p, q, q % p, q, p);
    }
}

/// The challenges of the next round: those of this one, each with a multiple of
/// its own power.
pub open spec fn shifted(betas: Seq<int>, deltas: Seq<int>, alpha: int, p: int) -> Seq<int> {
    Seq::new(betas.len(), |i: int| (betas[i] + alpha * deltas[i]) % p)
}

/// Returns the challenges of the next round.
pub fn shift_challenges<F: PrimeField, const K: usize>(
    betas: &[F; K],
    deltas: &[F; K],
    alpha: &F,
) -> (r: [F; K])
    ensures
        field::values(r@) == shifted(
            field::values(betas@),
            field::values(deltas@),
            alpha.value(),
            F::modulus(),
        ),
        forall|i: int|
            0 <= i < K ==> (#[trigger] r@[i]).value() == (betas@[i].value() + alpha.value()
                * deltas@[i].value()) % F::modulus(),
{
    let ghost p = F::modulus();
    let ghost (b, d) = (field::values(betas@), field::values(deltas@));
    let ghost all = shifted(b, d, alpha.value(), p);
    let mut r = *betas;
    proof {
        F::lemma_field();
    }
    for i in 0..K
        invariant
            p == F::modulus(),
            p > 3,
            b == field::values(betas@),
            d == field::values(deltas@),
            all == shifted(b, d, alpha.value(), p),
            r@.len() == K,
            forall|j: int| 0 <= j < i ==> #[trigger] r@[j].value() == all[j],
    {
        let t = alpha.mul(&deltas[i]);
        let s = betas[i].add(&t);
        proof {
            let e = alpha.value() * d[i as int];
            residues::lemma_mod_cong(e, p);
            residues::lemma_cong_ops(b[i as int], b[i as int], e % p, e, p);
        }
        r[i] = s;
    }
    assert(field::values(r@) =~= all);
    assert forall|i: int| 0 <= i < K implies (#[trigger] r@[i]).value() == (betas@[i].value()
        + alpha.value() * deltas@[i].value()) % F::modulus() by {
        assert(field::values(r@)[i] == all[i]);
    }
    r
}

/// The values of all rows, joined by the products of the challenges.
pub open spec fn joined(h: Seq<int>, betas: Seq<int>, p: int) -> int {
    polynomial::dot(h, powers::pow_seq(betas, p)) % p
}

/// The values, on the coset, of the quotient by the polynomial that vanishes on the
/// domain.
pub open spec fn quotient<F: PrimeField>(g: Seq<int>, dk: nat, extended: nat) -> Seq<int> {
    Seq::new(
        g.len(),
        |i: int|
            (g[i] * residues::inverse(
                interpolation::vanishing(
                    dk,
                    interpolation::coset_point::<F>(extended, i as nat),
                ),
                F::modulus(),
            )) % F::modulus(),
    )
}

/// Returns the traces that interpolate the given ones, at the points of the coset.
pub fn batch_traces<F: PrimeField>(
    domain: &EvaluationDomain<F>,
    traces: &Vec<&FoldingProverTrace<F>>,
) -> (r: Vec<FoldingProverTrace<F>>)
    requires
        domain.wf(),
        traces@.len() == domain.size(),
        linear::all_alike::<F, FoldingProverTrace<F>>(
            linear::models::<F, FoldingProverTrace<F>>(traces@),
        ),
    ensures
        r@.len() == domain.extended_size(),
        forall|i: int|
            0 <= i < r@.len() ==> (#[trigger] r@[i]).model() == evaluator::folded_at::<F>(
                domain.k as nat,
                linear::models::<F, FoldingProverTrace<F>>(traces@),
                interpolation::coset_point::<F>(domain.extended_k as nat, i as nat),
            ),
{
    let ghost p = F::modulus();
    let ghost k = domain.k as nat;
    let ghost e = domain.extended_k as nat;
    let ghost w = domain.extended_omega.value();
    let ghost parts = linear::models::<F, FoldingProverTrace<F>>(traces@);
    let len: usize = domain.extended_len();
    let mut r: Vec<FoldingProverTrace<F>> = Vec::new();
    let mut x = F::zeta();
    proof {
        F::lemma_field();
        lemma_pow0(w);
        assert(F::cube_root() * 1 == F::cube_root());
    }
    for i in 0..len
        invariant
            domain.wf(),
            p == F::modulus(),
            p > 3,
            k == domain.k,
            e == domain.extended_k,
            w == domain.extended_omega.value(),
            parts == linear::models::<F, FoldingProverTrace<F>>(traces@),
            linear::all_alike::<F, FoldingProverTrace<F>>(parts),
            traces@.len() == domain.size(),
            residues::cong(x.value(), interpolation::coset_point::<F>(e, i as nat), p),
            r@.len() == i,
            forall|j: int|
                0 <= j < i ==> (#[trigger] r@[j]).model() == evaluator::folded_at::<F>(
                    k,
                    parts,
                    interpolation::coset_point::<F>(e, j as nat),
                ),
    {
        proof {
            interpolation::lemma_lagranges_cong::<F>(
                k,
                x.value(),
                interpolation::coset_point::<F>(e, i as nat),
            );
        }
        r.push(interpolate_traces(domain, traces, &x));
        proof {
            let c = F::cube_root();
            let wi = pow(w, i as nat);
            residues::lemma_pow_step(w, i as nat);
            residues::lemma_cong_ops(x.value(), c * wi, w, w, p);
            residues::lemma_mod_cong(x.value() * w, p);
            assert((c * wi) * w == c * (w * wi)) by (nonlinear_arith);
        }
        x = x.mul(&domain.extended_omega);
    }
    r
}

/// Returns the value, at `gamma`, of what interpolates the given values on the
/// domain.
pub fn interpolate_traces<F: PrimeField, T: Linear<F>>(
    domain: &EvaluationDomain<F>,
    traces: &Vec<&T>,
    gamma: &F,
) -> (r: T)
    requires
        domain.wf(),
        traces@.len() == domain.size(),
        linear::all_alike::<F, T>(linear::models::<F, T>(traces@)),
    ensures
        r.model() == T::combined(
            interpolation::lagranges::<F>(domain.k as nat, gamma.value()),
            linear::models::<F, T>(traces@),
        ),
{
    let coeffs = domain::lagrange_evals_at(domain, gamma);
    proof {
        let parts = linear::models::<F, T>(traces@);
        assert(field::values(coeffs@) =~= interpolation::lagranges::<F>(
            domain.k as nat,
            gamma.value(),
        ));
        assert forall|j: int| 0 <= j < traces@.len() implies T::alike(
            (#[trigger] traces@[j]).model(),
            traces@[0].model(),
        ) by {
            assert(T::alike(parts[j], parts[0]));
        }
        assert(Seq::new(traces@.len(), |j: int| traces@[j].model()) =~= parts);
    }
    T::combine(traces, &coeffs)
}

/// Returns the values of all rows, joined by the products of the challenges.
pub fn join_rows<F: PrimeField, const K: usize>(h: &Vec<F>, betas: &[F; K]) -> (r: F)
    requires
        pow2(K as nat) <= usize::MAX,
    ensures
        r.value() == joined(field::values(h@), field::values(betas@), F::modulus()),
{
    let beta_powers = powers::pow_vec(betas.as_slice());
    parallel::inner_product(h, &beta_powers)
}

/// Returns the coefficients of the quotient by the polynomial that vanishes on the
/// domain, from the values of the dividend on the coset.
pub fn quotient_poly<F: PrimeField>(domain: &EvaluationDomain<F>, poly_g: &Vec<F>) -> (r: Vec<F>)
    requires
        domain.wf(),
        poly_g@.len() == domain.extended_size(),
    ensures
        r@.len() == domain.n * domain.quotient_poly_degree,
        field::values(r@) == interpolation::interpolate_coset::<F>(
            quotient::<F>(field::values(poly_g@), domain.k as nat, domain.extended_k as nat),
            domain.extended_k as nat,
        ).take((domain.n * domain.quotient_poly_degree) as int),
{
    let ghost g = field::values(poly_g@);
    let ghost q = quotient::<F>(g, domain.k as nat, domain.extended_k as nat);
    let poly_k = domain.divide_by_vanishing_poly(poly_g);
    proof {
        assert forall|i: int| 0 <= i < poly_k@.len() implies #[trigger] field::values(poly_k@)[i]
            == q[i] by {
            assert(g[i] == poly_g@[i].value());
        }
        assert(field::values(poly_k@) =~= q);
    }
    let r = domain.extended_to_coeff(&poly_k);
    proof {
        assert(r@.len() == field::values(r@).len());
    }
    r
}

/// Returns the value at `x` of the polynomial that vanishes on the domain.
pub fn eval_vanishing<F: PrimeField>(domain: &EvaluationDomain<F>, x: &F) -> (r: F)
    requires
        domain.wf(),
    ensures
        r.value() == interpolation::vanishing(domain.k as nat, x.value()) % F::modulus(),
{
    let power = field::pow_vartime(x, domain.n);
    proof {
        F::lemma_field();
        let p = F::modulus();
        let e = pow(x.value(), domain.size());
        residues::lemma_mod_cong(e, p);
        residues::lemma_cong_ops(e % p, e, 1, 1, p);
    }
    power.sub(&F::one())
}

/// Checks the values of the folding polynomial, of its quotient and of the
/// polynomial that vanishes on the domain: the first must not be zero, and must be
/// the product of the others.
pub fn check_quotient<F: PrimeField>(g_eval: &F, k_eval: &F, z_eval: &F) -> (r: Result<(), Error>)
    ensures
        r == (if g_eval.value() == 0 {
            Err(Error::ZeroEvaluation)
        } else if g_eval.value() != (k_eval.value() * z_eval.value()) % F::modulus() {
            Err(Error::Quotient)
        } else {
            Ok(())
        }),
{
    if g_eval.is(&F::zero()) {
        Err(Error::ZeroEvaluation)
    } else if !g_eval.is(&k_eval.mul(z_eval)) {
        Err(Error::Quotient)
    } else {
        Ok(())
    }
}

} // verus!
