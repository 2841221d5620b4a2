//! The fast Fourier transform over a field.
use crate::field::{self, PrimeField};
use crate::polynomial;
use crate::residues;
use crate::roots;
use vstd::arithmetic::mul::*;
use vstd::arithmetic::power::*;
use vstd::arithmetic::power2::*;
use vstd::prelude::*;

verus! {

/// The values, at the powers of `w`, of the polynomial with the coefficients `c`.
pub open spec fn dft(c: Seq<int>, w: int, p: int) -> Seq<int> {
    Seq::new(c.len(), |i: int| polynomial::eval(c, pow(w, i as nat)) % p)
}

spec fn every_second(c: Seq<int>, m: nat, first: int) -> Seq<int> {
    Seq::new(m, |i: int| c[2 * i + first])
}

/// A polynomial in terms of its coefficients with even and with odd index.
proof fn lemma_eval_parity(c: Seq<int>, m: nat, x: int)
    requires
        c.len() == 2 * m,
    ensures
        polynomial::eval(c, x) == polynomial::eval(every_second(c, m, 0), x * x) + x
            * polynomial::eval(every_second(c, m, 1), x * x),
{
    let f = |i: int| c[i] * pow(x, i as nat);
    let even = every_second(c, m, 0);
    let odd = every_second(c, m, 1);
    let g = |i: int| even[i] * pow(x * x, i as nat);
    let h = |i: int| odd[i] * pow(x * x, i as nat);
    let f_even = |i: int| f(2 * i);
    let f_odd = |i: int| f(2 * i + 1);
    let xh = |i: int| x * h(i);
    residues::lemma_sum_parity(m, f);
    assert forall|i: int| 0 <= i < m implies #[trigger] f_even(i) == g(i) by {
        residues::lemma_pow_step(x, 0);
        lemma_pow_multiplies(x, 2, i as nat);
    }
    assert forall|i: int| 0 <= i < m implies #[trigger] f_odd(i) == xh(i) by {
        residues::lemma_pow_step(x, (2 * i) as nat);
        lemma_pow_multiplies(x, 2, i as nat);
        let (a, b) = (odd[i], pow(x * x, i as nat));
        assert(a * (x * b) == x * (a * b)) by (nonlinear_arith);
    }
    residues::lemma_sum_eq(m, f_even, g);
    residues::lemma_sum_eq(m, f_odd, xh);
    residues::lemma_sum_scale(m, h, x);
}

/// One step of the transform: the values at w^i and at w^(i + m), from those of
/// the two halves at (w^2)^i.
proof fn lemma_butterfly(c: Seq<int>, m: nat, w: int, k: nat, i: nat, e: int, o: int, u: int, p: int)
    requires
        p > 0,
        c.len() == 2 * m,
        k > 0,
        m == pow2((k - 1) as nat),
        roots::is_root(w, k, p),
        residues::cong(e, polynomial::eval(every_second(c, m, 0), pow(w * w, i)), p),
        residues::cong(o, polynomial::eval(every_second(c, m, 1), pow(w * w, i)), p),
        residues::cong(u, pow(w, i), p),
    ensures
        residues::cong(e + u * o, polynomial::eval(c, pow(w, i)), p),
        residues::cong(e - u * o, polynomial::eval(c, pow(w, i + m)), p),
{
    let even = every_second(c, m, 0);
    let odd = every_second(c, m, 1);
    let x = pow(w, i);
    let y = pow(w, i + m);
    let q = pow(w * w, i);
    residues::lemma_pow_step(w, 0);
    lemma_pow_distributes(w, w, i);
    assert(x * x == q);
    // The value at w^i.
    lemma_eval_parity(c, m, x);
    residues::lemma_cong_ops(u, x, o, polynomial::eval(odd, q), p);
    residues::lemma_cong_ops(e, polynomial::eval(even, q), u * o, x * polynomial::eval(odd, q), p);
    // The value at w^(i + m), where w^m is minus one.
    lemma_pow_adds(w, i, m);
    residues::lemma_cong_ops(x, x, pow(w, m), -1, p);
    assert(x * -1 == -x);
    assert(residues::cong(y, -x, p));
    residues::lemma_cong_ops(y, -x, y, -x, p);
    assert((-x) * (-x) == x * x) by (nonlinear_arith);
    lemma_eval_parity(c, m, y);
    polynomial::lemma_eval_cong(even, even, y * y, q, p);
    polynomial::lemma_eval_cong(odd, odd, y * y, q, p);
    let eo = polynomial::eval(odd, y * y);
    let ee = polynomial::eval(even, y * y);
    residues::lemma_cong_ops(0, 0, u, x, p);
    residues::lemma_cong_ops(-u, y, o, eo, p);
    residues::lemma_cong_ops(e, ee, (-u) * o, y * eo, p);
    assert((-u) * o == -(u * o)) by (nonlinear_arith);
}

/// Returns the values of the polynomial with the coefficients `a` at the powers
/// of `omega`, a root of unity of order 2^`k`.
pub fn best_fft<F: PrimeField>(a: &Vec<F>, omega: &F, k: u32) -> (r: Vec<F>)
    requires
        a@.len() == pow2(k as nat),
        roots::is_root(omega.value(), k as nat, F::modulus()),
    ensures
        field::values(r@) == dft(field::values(a@), omega.value(), F::modulus()),
    decreases k,
{
    let ghost p = F::modulus();
    let ghost c = field::values(a@);
    let ghost w = omega.value();
    proof {
        F::lemma_field();
        lemma2_to64();
        if k > 0 {
            lemma_pow2_unfold(k as nat);
        }
    }
    if k == 0 {
        let mut r: Vec<F> = Vec::new();
        r.push(a[0]);
        proof {
            residues::lemma_pow_step(w, 0);
            reveal_with_fuel(residues::sum, 2);
            a@[0].lemma_value();
            residues::lemma_residue_is(c[0], c[0], p);
            assert(polynomial::eval(c, 1) == c[0] * pow(1, 0));
            lemma_pow0(1);
            assert(field::values(r@) =~= dft(c, w, p));
        }
        return r;
    }
    let n: usize = a.len();
    let m: usize = n / 2;
    let mut even: Vec<F> = Vec::new();
    let mut odd: Vec<F> = Vec::new();
    for i in 0..m
        invariant
            n == 2 * m,
            a@.len() == n,
            c == field::values(a@),
            even@.len() == i,
            odd@.len() == i,
            forall|j: int| 0 <= j < i ==> #[trigger] even@[j].value() == c[2 * j],
            forall|j: int| 0 <= j < i ==> #[trigger] odd@[j].value() == c[2 * j + 1],
    {
        even.push(a[2 * i]);
        odd.push(a[2 * i + 1]);
    }
    let square = omega.mul(omega);
    proof {
        roots::lemma_root_square(w, (k - 1) as nat, p);
        residues::lemma_mod_cong(w * w, p);
        roots::lemma_root_cong(w * w, square.value(), (k - 1) as nat, p);
        assert(field::values(even@) =~= every_second(c, m as nat, 0));
        assert(field::values(odd@) =~= every_second(c, m as nat, 1));
    }
    let low = best_fft(&even, &square, k - 1);
    let high = best_fft(&odd, &square, k - 1);
    let ghost ev = every_second(c, m as nat, 0);
    let ghost od = every_second(c, m as nat, 1);
    assert(low@.len() == m) by {
        assert(field::values(low@).len() == low@.len());
    }
    assert(high@.len() == m) by {
        assert(field::values(high@).len() == high@.len());
    }
    let mut first: Vec<F> = Vec::new();
    let mut second: Vec<F> = Vec::new();
    let mut twiddle = F::one();
    proof {
        residues::lemma_pow_step(w, 0);
    }
    for i in 0..m
        invariant
            p == F::modulus(),
            p > 3,
            k > 0,
            c.len() == 2 * m,
            m == pow2((k - 1) as nat),
            w == omega.value(),
            roots::is_root(w, k as nat, p),
            ev == every_second(c, m as nat, 0),
            od == every_second(c, m as nat, 1),
            residues::cong(square.value(), w * w, p),
            low@.len() == m,
            high@.len() == m,
            field::values(low@) == dft(ev, square.value(), p),
            field::values(high@) == dft(od, square.value(), p),
            residues::cong(twiddle.value(), pow(w, i as nat), p),
            first@.len() == i,
            second@.len() == i,
            forall|j: int|
                0 <= j < i ==> #[trigger] first@[j].value() == polynomial::eval(
                    c,
                    pow(w, j as nat),
                ) % p,
            forall|j: int|
                0 <= j < i ==> #[trigger] second@[j].value() == polynomial::eval(
                    c,
                    pow(w, (j + m) as nat),
                ) % p,
    {
        let t = twiddle.mul(&high[i]);
        let sum = low[i].add(&t);
        let difference = low[i].sub(&t);
        proof {
            let e = low@[i as int].value();
            let o = high@[i as int].value();
            let u = twiddle.value();
            assert(field::values(low@)[i as int] == e);
            assert(field::values(high@)[i as int] == o);
            let s = pow(square.value(), i as nat);
            let q = pow(w * w, i as nat);
            residues::lemma_cong_pow(square.value(), w * w, i as nat, p);
            polynomial::lemma_eval_cong(ev, ev, s, q, p);
            polynomial::lemma_eval_cong(od, od, s, q, p);
            residues::lemma_mod_cong(polynomial::eval(ev, s), p);
            residues::lemma_mod_cong(polynomial::eval(od, s), p);
            lemma_butterfly(c, m as nat, w, k as nat, i as nat, e, o, u, p);
            residues::lemma_mod_cong(u * o, p);
            residues::lemma_cong_ops(e, e, (u * o) % p, u * o, p);
            residues::lemma_mod_cong(e + (u * o) % p, p);
            residues::lemma_mod_cong(e - (u * o) % p, p);
            residues::lemma_residue_is(sum.value(), polynomial::eval(c, pow(w, i as nat)), p);
            residues::lemma_residue_is(
                difference.value(),
                polynomial::eval(c, pow(w, (i + m) as nat)),
                p,
            );
            residues::lemma_pow_step(w, i as nat);
            residues::lemma_cong_ops(u, pow(w, i as nat), w, w, p);
            residues::lemma_mod_cong(u * w, p);
            lemma_mul_is_commutative(w, pow(w, i as nat));
        }
        first.push(sum);
        second.push(difference);
        twiddle = twiddle.mul(omega);
    }
    let ghost upper = second@;
    let ghost lower = first@;
    first.append(&mut second);
    proof {
        assert(first@ =~= lower + upper);
        let d = dft(c, w, p);
        assert(field::values(first@).len() == d.len());
        assert forall|i: int| 0 <= i < d.len() implies field::values(first@)[i] == d[i] by {
            if i >= m {
                assert(first@[i] == upper[i - m]);
                assert(upper[i - m].value() == polynomial::eval(c, pow(w, (i - m + m) as nat)) % p);
            }
        }
        assert(field::values(first@) =~= d);
    }
    first
}

} // verus!
