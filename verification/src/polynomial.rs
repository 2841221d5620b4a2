//! Polynomials as sequences of coefficients, the constant one first.
use crate::field::{self, PrimeField};
use crate::residues;
use vstd::arithmetic::power::*;
use vstd::prelude::*;

verus! {

/// The value at `x` of the polynomial with the coefficients `c`.
pub open spec fn eval(c: Seq<int>, x: int) -> int {
    residues::sum(c.len(), |i: int| c[i] * pow(x, i as nat))
}

/// The sum of the products of the elements at the same places, as far as both
/// sequences have them.
pub open spec fn dot(a: Seq<int>, b: Seq<int>) -> int {
    residues::sum(
        if a.len() <= b.len() {
            a.len()
        } else {
            b.len()
        },
        |i: int| a[i] * b[i],
    )
}

/// A sequence that is filled up with zeros to the length `n`.
pub open spec fn padded(c: Seq<int>, n: nat) -> Seq<int> {
    Seq::new(
        n,
        |i: int|
            if i < c.len() {
                c[i]
            } else {
                0
            },
    )
}

/// Congruent coefficients give congruent values.
pub proof fn lemma_eval_cong(c: Seq<int>, d: Seq<int>, x: int, y: int, p: int)
    requires
        p > 0,
        c.len() == d.len(),
        residues::cong(x, y, p),
        forall|i: int| 0 <= i < c.len() ==> residues::cong(#[trigger] c[i], d[i], p),
    ensures
        residues::cong(eval(c, x), eval(d, y), p),
{
    let f = |i: int| c[i] * pow(x, i as nat);
    let g = |i: int| d[i] * pow(y, i as nat);
    assert forall|i: int| 0 <= i < c.len() implies residues::cong(#[trigger] f(i), g(i), p) by {
        residues::lemma_cong_pow(x, y, i as nat, p);
        residues::lemma_cong_ops(c[i], d[i], pow(x, i as nat), pow(y, i as nat), p);
    }
    residues::lemma_sum_cong(c.len(), f, g, p);
}

/// Coefficients that are all multiplied by `k`.
pub proof fn lemma_eval_scale(c: Seq<int>, d: Seq<int>, k: int, x: int)
    requires
        c.len() == d.len(),
        forall|i: int| 0 <= i < c.len() ==> #[trigger] d[i] == k * c[i],
    ensures
        eval(d, x) == k * eval(c, x),
{
    let f = |i: int| c[i] * pow(x, i as nat);
    residues::lemma_sum_scale(c.len(), f, k);
    let g = |i: int| d[i] * pow(x, i as nat);
    let h = |i: int| k * f(i);
    assert forall|i: int| 0 <= i < c.len() implies #[trigger] g(i) == h(i) by {
        let (a, b) = (c[i], pow(x, i as nat));
        assert((k * a) * b == k * (a * b)) by (nonlinear_arith);
    }
    residues::lemma_sum_eq(c.len(), g, h);
}

/// Coefficients that are zero from `n` on do not count.
pub proof fn lemma_eval_pad(c: Seq<int>, d: Seq<int>, x: int)
    requires
        c.len() <= d.len(),
        forall|i: int| 0 <= i < c.len() ==> #[trigger] d[i] == c[i],
        forall|i: int| c.len() <= i < d.len() ==> #[trigger] d[i] == 0,
    ensures
        eval(d, x) == eval(c, x),
{
    let f = |i: int| c[i] * pow(x, i as nat);
    let g = |i: int| d[i] * pow(x, i as nat);
    let m = (d.len() - c.len()) as nat;
    residues::lemma_sum_split(c.len(), m, g);
    residues::lemma_sum_eq(c.len(), f, g);
    let h = |i: int| g(c.len() + i);
    assert forall|i: int| 0 <= i < m implies #[trigger] h(i) == 0 by {
        assert(d[c.len() + i] == 0);
        let b = pow(x, (c.len() + i) as nat);
        assert(0 * b == 0);
    }
    residues::lemma_sum_zero(m, h);
}

/// The first coefficient apart from the others.
pub proof fn lemma_eval_first(c: Seq<int>, x: int)
    requires
        c.len() > 0,
    ensures
        eval(c, x) == c[0] + x * eval(c.skip(1), x),
{
    let f = |i: int| c[i] * pow(x, i as nat);
    let m = (c.len() - 1) as nat;
    let rest = c.skip(1);
    let g = |i: int| rest[i] * pow(x, i as nat);
    residues::lemma_sum_split(1, m, f);
    residues::lemma_pow_step(x, 0);
    reveal_with_fuel(residues::sum, 2);
    assert(residues::sum(1, f) == f(0));
    assert(f(0) == c[0] * 1);
    residues::lemma_sum_scale(m, g, x);
    let shifted = |i: int| f(1 + i);
    let scaled = |i: int| x * g(i);
    assert forall|i: int| 0 <= i < m implies #[trigger] shifted(i) == scaled(i) by {
        residues::lemma_pow_step(x, i as nat);
        let (a, b) = (c[1 + i], pow(x, i as nat));
        assert(a * (x * b) == x * (a * b)) by (nonlinear_arith);
    }
    residues::lemma_sum_eq(m, shifted, scaled);
}

/// The sum of two polynomials.
pub open spec fn plus(a: Seq<int>, b: Seq<int>) -> Seq<int> {
    Seq::new(
        if a.len() >= b.len() {
            a.len()
        } else {
            b.len()
        },
        |i: int|
            (if i < a.len() {
                a[i]
            } else {
                0
            }) + (if i < b.len() {
                b[i]
            } else {
                0
            }),
    )
}

/// A polynomial times a constant.
pub open spec fn scaled(a: Seq<int>, c: int) -> Seq<int> {
    Seq::new(a.len(), |i: int| c * a[i])
}

/// The product of two polynomials.
pub open spec fn times(a: Seq<int>, b: Seq<int>) -> Seq<int>
    decreases a.len(),
{
    if a.len() == 0 || b.len() == 0 {
        Seq::empty()
    } else {
        plus(scaled(b, a[0]), seq![0int] + times(a.skip(1), b))
    }
}

pub proof fn lemma_eval_plus(a: Seq<int>, b: Seq<int>, x: int)
    ensures
        eval(plus(a, b), x) == eval(a, x) + eval(b, x),
{
    let c = plus(a, b);
    let n = c.len();
    let wide_a = Seq::new(
        n,
        |i: int|
            if i < a.len() {
                a[i]
            } else {
                0
            },
    );
    let wide_b = Seq::new(
        n,
        |i: int|
            if i < b.len() {
                b[i]
            } else {
                0
            },
    );
    lemma_eval_pad(a, wide_a, x);
    lemma_eval_pad(b, wide_b, x);
    let f = |i: int| wide_a[i] * pow(x, i as nat);
    let g = |i: int| wide_b[i] * pow(x, i as nat);
    let h = |i: int| c[i] * pow(x, i as nat);
    let fg = |i: int| f(i) + g(i);
    residues::lemma_sum_add(n, f, g);
    assert forall|i: int| 0 <= i < n implies #[trigger] h(i) == fg(i) by {
        let (u, v, w) = (wide_a[i], wide_b[i], pow(x, i as nat));
        assert((u + v) * w == u * w + v * w) by (nonlinear_arith);
    }
    residues::lemma_sum_eq(n, h, fg);
}

pub proof fn lemma_eval_scaled(a: Seq<int>, c: int, x: int)
    ensures
        eval(scaled(a, c), x) == c * eval(a, x),
{
    lemma_eval_scale(a, scaled(a, c), c, x);
}

/// A product has as many coefficients as its factors together, less one.
pub proof fn lemma_times_len(a: Seq<int>, b: Seq<int>)
    requires
        a.len() > 0,
        b.len() > 0,
    ensures
        times(a, b).len() == a.len() + b.len() - 1,
    decreases a.len(),
{
    if a.len() > 1 {
        lemma_times_len(a.skip(1), b);
    } else {
        assert(times(a.skip(1), b) =~= Seq::<int>::empty());
    }
}

pub proof fn lemma_eval_times(a: Seq<int>, b: Seq<int>, x: int)
    ensures
        eval(times(a, b), x) == eval(a, x) * eval(b, x),
    decreases a.len(),
{
    if a.len() == 0 || b.len() == 0 {
        assert(eval(Seq::<int>::empty(), x) == 0);
        assert(0 * eval(b, x) == 0);
        assert(eval(a, x) * 0 == 0);
        if a.len() == 0 {
            assert(eval(a, x) == 0);
        } else {
            assert(eval(b, x) == 0);
        }
    } else {
        let rest = times(a.skip(1), b);
        let shifted = seq![0int] + rest;
        lemma_eval_plus(scaled(b, a[0]), shifted, x);
        lemma_eval_scaled(b, a[0], x);
        lemma_eval_first(shifted, x);
        assert(shifted.skip(1) =~= rest);
        lemma_eval_times(a.skip(1), b, x);
        lemma_eval_first(a, x);
        let (a0, r, e) = (a[0], eval(a.skip(1), x), eval(b, x));
        assert((a0 + x * r) * e == a0 * e + x * (r * e)) by (nonlinear_arith);
    }
}

/// The quotient of a polynomial by X^n - 1.
pub open spec fn divided(c: Seq<int>, n: nat) -> Seq<int>
    decreases c.len(),
{
    if n == 0 || c.len() <= n {
        Seq::empty()
    } else {
        plus(c.skip(n as int), divided(c.skip(n as int), n))
    }
}

/// The remainder of a polynomial by X^n - 1.
pub open spec fn rest(c: Seq<int>, n: nat) -> Seq<int>
    decreases c.len(),
{
    if n == 0 || c.len() <= n {
        c
    } else {
        plus(c.take(n as int), rest(c.skip(n as int), n))
    }
}

/// The coefficients from `n` on stand for a multiple of X^n.
proof fn lemma_eval_split(c: Seq<int>, n: nat, x: int)
    requires
        n <= c.len(),
    ensures
        eval(c, x) == eval(c.take(n as int), x) + pow(x, n) * eval(c.skip(n as int), x),
{
    let low = c.take(n as int);
    let high = c.skip(n as int);
    let m = high.len();
    let f = |i: int| c[i] * pow(x, i as nat);
    let g = |i: int| low[i] * pow(x, i as nat);
    let h = |i: int| high[i] * pow(x, i as nat);
    let upper = |i: int| f(n + i);
    let raised = |i: int| pow(x, n) * h(i);
    residues::lemma_sum_split(n, m, f);
    residues::lemma_sum_eq(n, f, g);
    residues::lemma_sum_scale(m, h, pow(x, n));
    assert forall|i: int| 0 <= i < m implies #[trigger] upper(i) == raised(i) by {
        lemma_pow_adds(x, n, i as nat);
        let (a, b, e) = (high[i], pow(x, i as nat), pow(x, n));
        assert(a * (e * b) == e * (a * b)) by (nonlinear_arith);
    }
    residues::lemma_sum_eq(m, upper, raised);
}

/// Division by X^n - 1.
pub proof fn lemma_division(c: Seq<int>, n: nat, x: int)
    requires
        n > 0,
    ensures
        eval(c, x) == eval(rest(c, n), x) + (pow(x, n) - 1) * eval(divided(c, n), x),
        rest(c, n).len() <= n,
        divided(c, n).len() == if c.len() <= n {
            0
        } else {
            c.len() - n
        },
    decreases c.len(),
{
    if c.len() <= n {
        assert(eval(Seq::<int>::empty(), x) == 0);
        assert((pow(x, n) - 1) * 0 == 0);
    } else {
        let high = c.skip(n as int);
        let low = c.take(n as int);
        lemma_division(high, n, x);
        lemma_eval_split(c, n, x);
        lemma_eval_plus(high, divided(high, n), x);
        lemma_eval_plus(low, rest(high, n), x);
        let (e, h, q, r) = (
            pow(x, n),
            eval(high, x),
            eval(divided(high, n), x),
            eval(rest(high, n), x),
        );
        assert(h == r + (e - 1) * q);
        assert(e * h == r + (e - 1) * (h + q)) by (nonlinear_arith)
            requires
                h == r + (e - 1) * q,
        ;
    }
}

/// Returns the value at `x` of the polynomial with the coefficients `poly`.
pub fn eval_polynomial<F: PrimeField>(poly: &Vec<F>, x: &F) -> (r: F)
    ensures
        r.value() == eval(field::values(poly@), x.value()) % F::modulus(),
{
    let ghost p = F::modulus();
    let ghost c = field::values(poly@);
    let mut acc = F::zero();
    let mut i: usize = poly.len();
    proof {
        F::lemma_field();
        assert(c.skip(c.len() as int) =~= Seq::<int>::empty());
        assert(eval(Seq::<int>::empty(), x.value()) == 0);
    }
    while i > 0
        invariant
            i <= poly@.len(),
            p == F::modulus(),
            p > 3,
            c == field::values(poly@),
            0 <= acc.value() < p,
            residues::cong(acc.value(), eval(c.skip(i as int), x.value()), p),
        decreases i,
    {
        i -= 1;
        let ghost a = acc.value();
        let product = acc.mul(x);
        acc = product.add(&poly[i]);
        proof {
            let t = x.value();
            let rest = c.skip(i as int);
            lemma_eval_first(rest, t);
            assert(rest.skip(1) =~= c.skip(i + 1));
            assert(rest[0] == poly@[i as int].value());
            let e = eval(c.skip(i + 1), t);
            residues::lemma_mod_cong(a * t, p);
            residues::lemma_cong_ops(a, e, t, t, p);
            residues::lemma_cong_ops((a * t) % p, e * t, rest[0], rest[0], p);
            residues::lemma_mod_cong((a * t) % p + rest[0], p);
            assert(e * t == t * e) by (nonlinear_arith);
        }
    }
    proof {
        assert(c.skip(0) =~= c);
        residues::lemma_residue_is(acc.value(), eval(c, x.value()), p);
    }
    acc
}

} // verus!
