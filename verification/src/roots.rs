//! Roots of unity of an order that is a power of two, and the transforms that
//! they give.
use crate::polynomial;
use crate::residues;
use vstd::arithmetic::mul::*;
use vstd::arithmetic::power::*;
use vstd::arithmetic::power2::*;
use vstd::prelude::*;

verus! {

/// `w` is a primitive root of unity of order 2^`k`.
pub open spec fn is_root(w: int, k: nat, p: int) -> bool {
    if k == 0 {
        residues::cong(w, 1, p)
    } else {
        residues::cong(pow(w, pow2((k - 1) as nat)), -1, p)
    }
}

pub proof fn lemma_root_order(w: int, k: nat, p: int)
    requires
        p > 0,
        is_root(w, k, p),
    ensures
        residues::cong(pow(w, pow2(k)), 1, p),
{
    if k == 0 {
        lemma2_to64();
        residues::lemma_pow_step(w, 0);
    } else {
        let h = pow2((k - 1) as nat);
        lemma_pow2_unfold(k);
        lemma_pow_adds(w, h, h);
        residues::lemma_cong_ops(pow(w, h), -1, pow(w, h), -1, p);
    }
}

pub proof fn lemma_root_cong(w: int, v: int, k: nat, p: int)
    requires
        p > 0,
        residues::cong(w, v, p),
        is_root(w, k, p),
    ensures
        is_root(v, k, p),
{
    if k > 0 {
        residues::lemma_cong_pow(w, v, pow2((k - 1) as nat), p);
    }
}

pub proof fn lemma_root_square(w: int, k: nat, p: int)
    requires
        p > 0,
        is_root(w, k + 1, p),
    ensures
        is_root(w * w, k, p),
{
    lemma2_to64();
    residues::lemma_pow_step(w, 0);
    if k == 0 {
        residues::lemma_cong_ops(w, -1, w, -1, p);
    } else {
        let h = pow2((k - 1) as nat);
        lemma_pow2_unfold(k);
        lemma_pow_multiplies(w, 2, h);
    }
}

pub proof fn lemma_root_inverse(w: int, v: int, k: nat, p: int)
    requires
        p > 0,
        is_root(w, k, p),
        residues::cong(w * v, 1, p),
    ensures
        is_root(v, k, p),
{
    if k == 0 {
        residues::lemma_cong_ops(w, 1, v, v, p);
    } else {
        let h = pow2((k - 1) as nat);
        residues::lemma_cong_pow(w * v, 1, h, p);
        lemma1_pow(h);
        lemma_pow_distributes(w, v, h);
        let a = pow(w, h);
        let b = pow(v, h);
        residues::lemma_cong_ops(a, -1, b, b, p);
        // a * b is congruent both to 1 and to -b.
        residues::lemma_cong_ops(0, 0, -1 * b, 1, p);
    }
}

/// 1 + y + ... + y^(2m - 1) = (1 + y^m) (1 + y + ... + y^(m - 1)).
proof fn lemma_geometric_halves(y: int, m: nat)
    ensures
        residues::sum(2 * m, |t: int| pow(y, t as nat)) == (1 + pow(y, m)) * residues::sum(
            m,
            |t: int| pow(y, t as nat),
        ),
{
    let f = |t: int| pow(y, t as nat);
    residues::lemma_sum_split(m, m, f);
    residues::lemma_sum_scale(m, f, pow(y, m));
    let upper = |t: int| f(m + t);
    let scaled = |t: int| pow(y, m) * f(t);
    assert forall|t: int| 0 <= t < m implies #[trigger] upper(t) == scaled(t) by {
        lemma_pow_adds(y, m, t as nat);
    }
    residues::lemma_sum_eq(m, upper, scaled);
    let s = residues::sum(m, f);
    let e = pow(y, m);
    assert((1 + e) * s == s + e * s) by (nonlinear_arith);
    assert(m + m == 2 * m);
}

/// The powers of a root of unity other than one add up to zero.
pub proof fn lemma_geometric(w: int, k: nat, j: nat, p: int)
    requires
        p > 0,
        is_root(w, k, p),
        0 < j < pow2(k),
    ensures
        residues::cong(
            residues::sum(pow2(k), |t: int| pow(pow(w, j), t as nat)),
            0,
            p,
        ),
    decreases k,
{
    lemma2_to64();
    let y = pow(w, j);
    if k > 0 {
        let l = (k - 1) as nat;
        let m = pow2(l);
        lemma_pow2_unfold(k);
        lemma_geometric_halves(y, m);
        let s = residues::sum(m, |t: int| pow(y, t as nat));
        if j % 2 == 1 {
            // y^m = (w^m)^j = (-1)^j = -1
            lemma_pow_multiplies(w, j, m);
            lemma_pow_multiplies(w, m, j);
            lemma_mul_is_commutative(j as int, m as int);
            residues::lemma_cong_pow(pow(w, m), -1, j, p);
            lemma_minus_one_odd((j / 2) as nat);
            residues::lemma_cong_ops(1, 1, pow(y, m), -1, p);
            residues::lemma_cong_zero(s, 1 + pow(y, m), p);
        } else {
            let i = (j / 2) as nat;
            residues::lemma_pow_step(w, 0);
            lemma_pow_multiplies(w, 2, i);
            lemma_root_square(w, l, p);
            lemma_geometric(w * w, l, i, p);
            residues::lemma_cong_zero(1 + pow(y, m), s, p);
        }
    }
}

proof fn lemma_minus_one_odd(h: nat)
    ensures
        pow(-1, 2 * h + 1) == -1,
    decreases h,
{
    residues::lemma_pow_step(-1, 0);
    if h > 0 {
        lemma_minus_one_odd((h - 1) as nat);
        residues::lemma_pow_step(-1, (2 * h - 1) as nat);
        residues::lemma_pow_step(-1, 2 * h);
    }
}

/// (w^t v^i)^0 + (w^t v^i)^1 + ... vanishes, except where t = i.
pub proof fn lemma_orthogonal(w: int, v: int, k: nat, t: nat, i: nat, p: int)
    requires
        p > 0,
        is_root(w, k, p),
        residues::cong(w * v, 1, p),
        t < pow2(k),
        i < pow2(k),
    ensures
        residues::cong(
            residues::sum(pow2(k), |j: int| pow(pow(w, t) * pow(v, i), j as nat)),
            if t == i {
                pow2(k) as int
            } else {
                0
            },
            p,
        ),
{
    let n = pow2(k);
    let y = pow(w, t) * pow(v, i);
    let m = if t <= i {
        t
    } else {
        i
    };
    residues::lemma_cong_pow(w * v, 1, m, p);
    lemma1_pow(m);
    lemma_pow_distributes(w, v, m);
    let u = pow(w, m) * pow(v, m);
    let x = if t <= i {
        pow(v, (i - t) as nat)
    } else {
        pow(w, (t - i) as nat)
    };
    residues::lemma_cong_one(x, u, p);
    if t <= i {
        lemma_pow_adds(v, m, (i - t) as nat);
        let (a, b) = (pow(w, t), pow(v, m));
        assert(a * (b * x) == (a * b) * x) by (nonlinear_arith);
    } else {
        lemma_pow_adds(w, m, (t - i) as nat);
        let (a, b) = (pow(w, m), pow(v, i));
        assert((a * x) * b == (a * b) * x) by (nonlinear_arith);
    }
    assert(residues::cong(y, x, p));
    let f = |j: int| pow(y, j as nat);
    let g = |j: int| pow(x, j as nat);
    assert forall|j: int| 0 <= j < n implies residues::cong(#[trigger] f(j), g(j), p) by {
        residues::lemma_cong_pow(y, x, j as nat, p);
    }
    residues::lemma_sum_cong(n, f, g, p);
    if t == i {
        lemma_pow0(v);
        lemma_ones(n);
        let ones = |j: int| 1int;
        assert forall|j: int| 0 <= j < n implies #[trigger] g(j) == ones(j) by {
            lemma1_pow(j as nat);
        }
        residues::lemma_sum_eq(n, g, ones);
    } else if t < i {
        lemma_root_inverse(w, v, k, p);
        lemma_geometric(v, k, (i - t) as nat, p);
    } else {
        lemma_geometric(w, k, (t - i) as nat, p);
    }
}

proof fn lemma_ones(n: nat)
    ensures
        residues::sum(n, |j: int| 1int) == n,
    decreases n,
{
    if n > 0 {
        lemma_ones((n - 1) as nat);
    }
}

/// From the values of a polynomial at the powers of `w`, the powers of the
/// inverse `v` give back its coefficients.
pub proof fn lemma_inverse_transform(
    a: Seq<int>,
    b: Seq<int>,
    w: int,
    v: int,
    k: nat,
    n_inv: int,
    p: int,
    i: nat,
)
    requires
        p > 0,
        is_root(w, k, p),
        residues::cong(w * v, 1, p),
        residues::cong(n_inv * pow2(k), 1, p),
        a.len() == pow2(k),
        b.len() == pow2(k),
        forall|j: int|
            0 <= j < b.len() ==> residues::cong(
                #[trigger] b[j],
                polynomial::eval(a, pow(w, j as nat)),
                p,
            ),
        i < pow2(k),
    ensures
        residues::cong(n_inv * polynomial::eval(b, pow(v, i)), a[i as int], p),
{
    let n = pow2(k);
    let x = pow(v, i);
    let term = |j: int, t: int| a[t] * pow(pow(w, t as nat) * x, j as nat);
    let f = |j: int| b[j] * pow(x, j as nat);
    let rows = |j: int| residues::sum(n, |t: int| term(j, t));
    assert forall|j: int| 0 <= j < n implies residues::cong(#[trigger] f(j), rows(j), p) by {
        let wj = pow(w, j as nat);
        let xj = pow(x, j as nat);
        let inner = |t: int| a[t] * pow(wj, t as nat);
        assert(polynomial::eval(a, wj) == residues::sum(n, inner));
        residues::lemma_cong_ops(b[j], residues::sum(n, inner), xj, xj, p);
        residues::lemma_sum_scale(n, inner, xj);
        let scaled = |t: int| inner(t) * xj;
        let row = |t: int| term(j, t);
        assert forall|t: int| 0 <= t < n implies #[trigger] scaled(t) == row(t) by {
            lemma_pow_multiplies(w, j as nat, t as nat);
            lemma_pow_multiplies(w, t as nat, j as nat);
            lemma_mul_is_commutative(j, t);
            lemma_pow_distributes(pow(w, t as nat), x, j as nat);
            let (c, d) = (a[t], pow(wj, t as nat));
            assert((c * d) * xj == c * (d * xj)) by (nonlinear_arith);
        }
        residues::lemma_sum_eq(n, scaled, row);
    }
    residues::lemma_sum_cong(n, f, rows, p);
    residues::lemma_sum_exchange(n, n, term);
    let columns = |t: int| residues::sum(n, |j: int| term(j, t));
    assert forall|t: int| 0 <= t < n implies residues::cong(
        #[trigger] columns(t),
        if t == i {
            a[t] * n
        } else {
            0
        },
        p,
    ) by {
        let y = pow(w, t as nat) * x;
        let g = |j: int| pow(y, j as nat);
        residues::lemma_sum_scale(n, g, a[t]);
        residues::lemma_sum_eq(n, |j: int| a[t] * g(j), |j: int| term(j, t));
        lemma_orthogonal(w, v, k, t as nat, i, p);
        let s = residues::sum(n, g);
        if t == i {
            residues::lemma_cong_ops(a[t], a[t], s, n as int, p);
        } else {
            residues::lemma_cong_zero(a[t], s, p);
        }
    }
    residues::lemma_sum_single(n, columns, i as int, p);
    let total = polynomial::eval(b, x);
    let ai = a[i as int];
    assert(residues::cong(total, ai * n, p));
    residues::lemma_cong_ops(n_inv, n_inv, total, ai * n, p);
    residues::lemma_cong_one(ai, n_inv * n, p);
    assert(n_inv * (ai * n) == ai * (n_inv * n)) by (nonlinear_arith);
}

} // verus!
