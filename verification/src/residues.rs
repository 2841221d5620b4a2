//! Integers up to multiples of a modulus, finite sums, and powers.
use vstd::arithmetic::div_mod::*;
use vstd::arithmetic::power::*;
use vstd::prelude::*;

verus! {

/// `a` and `b` differ by a multiple of `p`.
pub open spec fn cong(a: int, b: int, p: int) -> bool {
    a % p == b % p
}

/// f(0) + f(1) + ... + f(n - 1).
pub open spec fn sum(n: nat, f: spec_fn(int) -> int) -> int
    decreases n,
{
    if n == 0 {
        0
    } else {
        sum((n - 1) as nat, f) + f(n - 1)
    }
}

/// The residue whose product with `a` is congruent to one, if there is one.
pub open spec fn inverse(a: int, p: int) -> int {
    choose|t: int| 0 <= t < p && #[trigger] cong(t * a, 1, p)
}

/// An inverse is the only one.
pub proof fn lemma_inverse_is(a: int, t: int, p: int)
    requires
        0 <= t < p,
        cong(t * a, 1, p),
    ensures
        inverse(a, p) == t,
{
    let s = inverse(a, p);
    assert(cong(s * a, 1, p));
    lemma_cong_one(s, t * a, p);
    lemma_cong_one(t, s * a, p);
    assert(s * (t * a) == t * (s * a)) by (nonlinear_arith);
    lemma_residue_is(s, t, p);
    lemma_residue_is(t, t, p);
}

pub proof fn lemma_cong_ops(a: int, b: int, c: int, d: int, p: int)
    requires
        p > 0,
        cong(a, b, p),
        cong(c, d, p),
    ensures
        cong(a + c, b + d, p),
        cong(a - c, b - d, p),
        cong(a * c, b * d, p),
{
    lemma_add_mod_noop(a, c, p);
    lemma_add_mod_noop(b, d, p);
    lemma_sub_mod_noop(a, c, p);
    lemma_sub_mod_noop(b, d, p);
    lemma_mul_mod_noop(a, c, p);
    lemma_mul_mod_noop(b, d, p);
}

pub proof fn lemma_mod_cong(a: int, p: int)
    requires
        p > 0,
    ensures
        cong(a % p, a, p),
        0 <= a % p < p,
{
    lemma_mod_twice(a, p);
    lemma_mod_bound(a, p);
}

/// A residue is determined by its class.
pub proof fn lemma_residue_is(a: int, b: int, p: int)
    requires
        0 <= a < p,
        cong(a, b, p),
    ensures
        a == b % p,
{
    lemma_small_mod(a as nat, p as nat);
}

pub proof fn lemma_cong_multiple(a: int, k: int, p: int)
    requires
        p > 0,
    ensures
        cong(a + k * p, a, p),
        cong(a - k * p, a, p),
        cong(k * p, 0, p),
{
    lemma_mod_multiples_vanish(k, a, p);
    lemma_mod_multiples_vanish(-k, a, p);
    lemma_mod_multiples_vanish(k, 0, p);
    assert(p * k + a == a + k * p) by (nonlinear_arith);
    assert(p * (-k) + a == a - k * p) by (nonlinear_arith);
    assert(p * k + 0 == k * p) by (nonlinear_arith);
}

pub proof fn lemma_cong_pow(a: int, b: int, e: nat, p: int)
    requires
        p > 0,
        cong(a, b, p),
    ensures
        cong(pow(a, e), pow(b, e), p),
{
    lemma_pow_mod_noop(a, e, p);
    lemma_pow_mod_noop(b, e, p);
}

/// What is congruent to one, times anything, is that thing.
pub proof fn lemma_cong_one(a: int, u: int, p: int)
    requires
        p > 0,
        cong(u, 1, p),
    ensures
        cong(a * u, a, p),
        cong(u * a, a, p),
{
    lemma_cong_ops(a, a, u, 1, p);
    lemma_cong_ops(u, 1, a, a, p);
    assert(a * 1 == a);
    assert(1 * a == a);
}

/// What is congruent to zero, times anything, is zero.
pub proof fn lemma_cong_zero(a: int, z: int, p: int)
    requires
        p > 0,
        cong(z, 0, p),
    ensures
        cong(a * z, 0, p),
        cong(z * a, 0, p),
{
    lemma_cong_ops(a, a, z, 0, p);
    lemma_cong_ops(z, 0, a, a, p);
    assert(a * 0 == 0);
    assert(0 * a == 0);
}

pub proof fn lemma_pow_step(x: int, e: nat)
    ensures
        pow(x, e + 1) == x * pow(x, e),
        pow(x, 0) == 1,
        pow(x, 1) == x,
        pow(x, 2) == x * x,
{
    reveal(pow);
    lemma_pow1(x);
    assert(pow(x, 2) == x * pow(x, 1));
}

pub proof fn lemma_sum_eq(n: nat, f: spec_fn(int) -> int, g: spec_fn(int) -> int)
    requires
        forall|i: int| 0 <= i < n ==> #[trigger] f(i) == g(i),
    ensures
        sum(n, f) == sum(n, g),
    decreases n,
{
    if n > 0 {
        lemma_sum_eq((n - 1) as nat, f, g);
        assert(f(n - 1) == g(n - 1));
    }
}

pub proof fn lemma_sum_cong(n: nat, f: spec_fn(int) -> int, g: spec_fn(int) -> int, p: int)
    requires
        p > 0,
        forall|i: int| 0 <= i < n ==> cong(#[trigger] f(i), g(i), p),
    ensures
        cong(sum(n, f), sum(n, g), p),
    decreases n,
{
    if n > 0 {
        let m = (n - 1) as nat;
        lemma_sum_cong(m, f, g, p);
        assert(cong(f(n - 1), g(n - 1), p));
        lemma_cong_ops(sum(m, f), sum(m, g), f(n - 1), g(n - 1), p);
    }
}

pub proof fn lemma_sum_zero(n: nat, f: spec_fn(int) -> int)
    requires
        forall|i: int| 0 <= i < n ==> #[trigger] f(i) == 0,
    ensures
        sum(n, f) == 0,
    decreases n,
{
    if n > 0 {
        lemma_sum_zero((n - 1) as nat, f);
        assert(f(n - 1) == 0);
    }
}

pub proof fn lemma_sum_add(n: nat, f: spec_fn(int) -> int, g: spec_fn(int) -> int)
    ensures
        sum(n, |i: int| f(i) + g(i)) == sum(n, f) + sum(n, g),
    decreases n,
{
    if n > 0 {
        lemma_sum_add((n - 1) as nat, f, g);
    }
}

pub proof fn lemma_sum_scale(n: nat, f: spec_fn(int) -> int, c: int)
    ensures
        sum(n, |i: int| c * f(i)) == c * sum(n, f),
        sum(n, |i: int| f(i) * c) == sum(n, f) * c,
    decreases n,
{
    if n > 0 {
        let m = (n - 1) as nat;
        lemma_sum_scale(m, f, c);
        let s = sum(m, f);
        let t = f(n - 1);
        assert(c * (s + t) == c * s + c * t) by (nonlinear_arith);
        assert((s + t) * c == s * c + t * c) by (nonlinear_arith);
    } else {
        assert(c * 0 == 0);
        assert(0 * c == 0);
    }
}

/// The order of two summations does not matter.
pub proof fn lemma_sum_exchange(n: nat, m: nat, f: spec_fn(int, int) -> int)
    ensures
        sum(n, |i: int| sum(m, |j: int| f(i, j))) == sum(m, |j: int| sum(n, |i: int| f(i, j))),
    decreases n,
{
    let by_rows = |i: int| sum(m, |j: int| f(i, j));
    if n == 0 {
        lemma_sum_zero(m, |j: int| sum(0, |i: int| f(i, j)));
        lemma_sum_eq(
            m,
            |j: int| sum(n, |i: int| f(i, j)),
            |j: int| sum(0, |i: int| f(i, j)),
        );
    } else {
        let k = (n - 1) as nat;
        lemma_sum_exchange(k, m, f);
        let below = |j: int| sum(k, |i: int| f(i, j));
        let last = |j: int| f(n - 1, j);
        lemma_sum_add(m, below, last);
        lemma_sum_eq(m, |j: int| sum(n, |i: int| f(i, j)), |j: int| below(j) + last(j));
        assert(by_rows(n - 1) == sum(m, last));
    }
}

/// A sum of `m + n` terms, in two parts.
pub proof fn lemma_sum_split(m: nat, n: nat, f: spec_fn(int) -> int)
    ensures
        sum(m + n, f) == sum(m, f) + sum(n, |i: int| f(m + i)),
    decreases n,
{
    if n > 0 {
        lemma_sum_split(m, (n - 1) as nat, f);
    }
}

/// A sum of `2 m` terms, the even ones apart from the odd ones.
pub proof fn lemma_sum_parity(m: nat, f: spec_fn(int) -> int)
    ensures
        sum(2 * m, f) == sum(m, |i: int| f(2 * i)) + sum(m, |i: int| f(2 * i + 1)),
    decreases m,
{
    if m > 0 {
        let k = (m - 1) as nat;
        lemma_sum_parity(k, f);
        assert(sum(2 * m, f) == sum((2 * m - 1) as nat, f) + f(2 * m - 1));
        assert(sum((2 * m - 1) as nat, f) == sum(2 * k, f) + f(2 * m - 2));
    }
}

/// A sum in which all terms but the one at `k` vanish.
pub proof fn lemma_sum_single(n: nat, f: spec_fn(int) -> int, k: int, p: int)
    requires
        p > 0,
        0 <= k < n,
        forall|i: int| 0 <= i < n && i != k ==> cong(#[trigger] f(i), 0, p),
    ensures
        cong(sum(n, f), f(k), p),
    decreases n,
{
    let m = (n - 1) as nat;
    if k == n - 1 {
        lemma_sum_cong(m, f, |i: int| 0int, p);
        lemma_sum_zero(m, |i: int| 0int);
        lemma_cong_ops(sum(m, f), 0, f(k), f(k), p);
    } else {
        lemma_sum_single(m, f, k, p);
        assert(cong(f(n - 1), 0, p));
        lemma_cong_ops(sum(m, f), f(k), f(n - 1), 0, p);
    }
}

} // verus!
