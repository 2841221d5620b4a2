//! Interpolation on the powers of a root of unity, and on a coset of them.
use crate::field::PrimeField;
use crate::polynomial;
use crate::residues;
use crate::roots;
use vstd::arithmetic::mul::*;
use vstd::arithmetic::power::*;
use vstd::arithmetic::power2::*;
use vstd::prelude::*;

verus! {

/// The generator of the domain of 2^`k` points.
pub open spec fn omega_of<F: PrimeField>(k: nat) -> int {
    pow(F::root(), pow2((F::two_adicity() - k) as nat)) % F::modulus()
}

/// The inverse of the generator of the domain of 2^`k` points.
pub open spec fn omega_inv_of<F: PrimeField>(k: nat) -> int {
    residues::inverse(omega_of::<F>(k), F::modulus())
}

/// The inverse of the number of points.
pub open spec fn size_inv_of<F: PrimeField>(k: nat) -> int {
    residues::inverse(pow2(k) as int, F::modulus())
}

/// The `i`-th point of the domain of 2^`k` points.
pub open spec fn point<F: PrimeField>(k: nat, i: nat) -> int {
    pow(omega_of::<F>(k), i)
}

/// The `i`-th point of the coset of the domain of 2^`k` points.
pub open spec fn coset_point<F: PrimeField>(k: nat, i: nat) -> int {
    F::cube_root() * pow(omega_of::<F>(k), i)
}

/// The coefficients of the polynomial of degree below 2^`k` that takes the
/// values `v` on the domain.
pub open spec fn interpolate<F: PrimeField>(v: Seq<int>, k: nat) -> Seq<int> {
    Seq::new(
        v.len(),
        |j: int|
            (size_inv_of::<F>(k) * polynomial::eval(v, pow(omega_inv_of::<F>(k), j as nat)))
                % F::modulus(),
    )
}

/// The coefficients of the polynomial of degree below 2^`k` that takes the
/// values `v` on the coset.
pub open spec fn interpolate_coset<F: PrimeField>(v: Seq<int>, k: nat) -> Seq<int> {
    Seq::new(
        v.len(),
        |j: int|
            (interpolate::<F>(v, k)[j] * pow(F::cube_root() * F::cube_root(), j as nat))
                % F::modulus(),
    )
}

/// The values that are one at `i` and zero elsewhere.
pub open spec fn unit(n: nat, i: int) -> Seq<int> {
    Seq::new(
        n,
        |j: int|
            if j == i {
                1
            } else {
                0
            },
    )
}

/// The value at `x` of the polynomial of degree below 2^`k` that is one at the
/// `i`-th point of the domain and zero at the others.
pub open spec fn lagrange<F: PrimeField>(k: nat, i: int, x: int) -> int {
    polynomial::eval(interpolate::<F>(unit(pow2(k), i), k), x) % F::modulus()
}

/// The values at `x` of all basis polynomials of the domain of 2^`k` points.
pub open spec fn lagranges<F: PrimeField>(k: nat, x: int) -> Seq<int> {
    Seq::new(pow2(k), |i: int| lagrange::<F>(k, i, x))
}

/// The value at `x` of the polynomial that vanishes on the domain of 2^`k`
/// points.
pub open spec fn vanishing(k: nat, x: int) -> int {
    pow(x, pow2(k)) - 1
}

/// What holds of the generator of a domain.
pub proof fn lemma_omega<F: PrimeField>(k: nat)
    requires
        k <= F::two_adicity(),
    ensures
        F::modulus() > 3,
        0 <= omega_of::<F>(k) < F::modulus(),
        roots::is_root(omega_of::<F>(k), k, F::modulus()),
{
    F::lemma_field();
    let p = F::modulus();
    let s = F::two_adicity();
    let w = pow(F::root(), pow2((s - k) as nat));
    residues::lemma_mod_cong(w, p);
    if k == 0 {
        roots::lemma_root_order(F::root(), s, p);
    } else {
        lemma_pow_multiplies(F::root(), pow2((s - k) as nat), pow2((k - 1) as nat));
        lemma_pow2_adds((s - k) as nat, (k - 1) as nat);
    }
    roots::lemma_root_cong(w, w % p, k, p);
}

/// The last power of the generator is its inverse.
pub proof fn lemma_omega_inv<F: PrimeField>(k: nat)
    requires
        k <= F::two_adicity(),
    ensures
        omega_inv_of::<F>(k) == pow(omega_of::<F>(k), (pow2(k) - 1) as nat) % F::modulus(),
        0 <= omega_inv_of::<F>(k) < F::modulus(),
        residues::cong(omega_of::<F>(k) * omega_inv_of::<F>(k), 1, F::modulus()),
{
    let p = F::modulus();
    let w = omega_of::<F>(k);
    lemma_omega::<F>(k);
    lemma_pow2_pos(k);
    let e = (pow2(k) - 1) as nat;
    let v = pow(w, e);
    residues::lemma_pow_step(w, e);
    roots::lemma_root_order(w, k, p);
    residues::lemma_mod_cong(v, p);
    residues::lemma_cong_ops(v % p, v, w, w, p);
    lemma_mul_is_commutative(w, v);
    residues::lemma_inverse_is(w, v % p, p);
    lemma_mul_is_commutative(w, v % p);
}

/// A power of one half is the inverse of the number of points.
pub proof fn lemma_size_inv<F: PrimeField>(k: nat)
    ensures
        size_inv_of::<F>(k) == pow(F::half(), k) % F::modulus(),
        0 <= size_inv_of::<F>(k) < F::modulus(),
        residues::cong(size_inv_of::<F>(k) * pow2(k), 1, F::modulus()),
{
    F::lemma_field();
    let p = F::modulus();
    let h = pow(F::half(), k);
    lemma_pow2(k);
    lemma_pow_distributes(2, F::half(), k);
    residues::lemma_cong_pow(2 * F::half(), 1, k, p);
    lemma1_pow(k);
    residues::lemma_mod_cong(h, p);
    residues::lemma_cong_ops(h % p, h, pow2(k) as int, pow2(k) as int, p);
    lemma_mul_is_commutative(h, pow2(k) as int);
    residues::lemma_inverse_is(pow2(k) as int, h % p, p);
}

/// Interpolation gives the values back: the polynomial takes them on the domain.
pub proof fn lemma_interpolate<F: PrimeField>(v: Seq<int>, k: nat, i: nat)
    requires
        k <= F::two_adicity(),
        v.len() == pow2(k),
        i < pow2(k),
    ensures
        residues::cong(
            polynomial::eval(interpolate::<F>(v, k), point::<F>(k, i)),
            v[i as int],
            F::modulus(),
        ),
{
    let p = F::modulus();
    let w = omega_of::<F>(k);
    let u = omega_inv_of::<F>(k);
    let m = size_inv_of::<F>(k);
    lemma_omega::<F>(k);
    lemma_omega_inv::<F>(k);
    lemma_size_inv::<F>(k);
    roots::lemma_root_inverse(w, u, k, p);
    lemma_mul_is_commutative(w, u);
    let b = Seq::new(v.len(), |j: int| polynomial::eval(v, pow(u, j as nat)));
    roots::lemma_inverse_transform(v, b, u, w, k, m, p, i);
    let x = pow(w, i);
    let scaled = Seq::new(v.len(), |j: int| m * b[j]);
    polynomial::lemma_eval_scale(b, scaled, m, x);
    let c = interpolate::<F>(v, k);
    assert forall|j: int| 0 <= j < c.len() implies residues::cong(#[trigger] c[j], scaled[j], p) by {
        residues::lemma_mod_cong(scaled[j], p);
    }
    polynomial::lemma_eval_cong(c, scaled, x, x, p);
}

/// Interpolation gives the coefficients back, from the values on the domain.
pub proof fn lemma_interpolate_values<F: PrimeField>(c: Seq<int>, v: Seq<int>, k: nat)
    requires
        k <= F::two_adicity(),
        c.len() == pow2(k),
        v.len() == pow2(k),
        forall|i: int|
            0 <= i < v.len() ==> residues::cong(
                #[trigger] v[i],
                polynomial::eval(c, point::<F>(k, i as nat)),
                F::modulus(),
            ),
    ensures
        forall|j: int|
            0 <= j < c.len() ==> #[trigger] interpolate::<F>(v, k)[j] == c[j] % F::modulus(),
{
    let p = F::modulus();
    let w = omega_of::<F>(k);
    let u = omega_inv_of::<F>(k);
    lemma_omega::<F>(k);
    lemma_omega_inv::<F>(k);
    lemma_size_inv::<F>(k);
    assert forall|j: int| 0 <= j < c.len() implies #[trigger] interpolate::<F>(v, k)[j] == c[j] % p by {
        roots::lemma_inverse_transform(c, v, w, u, k, size_inv_of::<F>(k), p, j as nat);
    }
}

/// The cube root and its square multiply to one.
pub proof fn lemma_cube<F: PrimeField>(j: nat)
    ensures
        residues::cong(
            pow(F::cube_root(), j) * pow(F::cube_root() * F::cube_root(), j),
            1,
            F::modulus(),
        ),
{
    F::lemma_field();
    let p = F::modulus();
    let z = F::cube_root();
    let q = z * z + z + 1;
    residues::lemma_cong_zero(z - 1, q, p);
    assert((z - 1) * q == z * (z * z) - 1) by (nonlinear_arith)
        requires
            q == z * z + z + 1,
    ;
    residues::lemma_cong_ops((z - 1) * q, 0, 1, 1, p);
    lemma_pow_distributes(z, z * z, j);
    residues::lemma_cong_pow(z * (z * z), 1, j, p);
    lemma1_pow(j);
}

/// The points of a coset are those of the domain times the cube root, so that
/// the values on the coset are those of stretched coefficients on the domain.
pub proof fn lemma_stretch<F: PrimeField>(c: Seq<int>, d: Seq<int>, k: nat, i: nat)
    requires
        c.len() == d.len(),
        forall|j: int|
            0 <= j < c.len() ==> residues::cong(
                #[trigger] d[j],
                c[j] * pow(F::cube_root(), j as nat),
                F::modulus(),
            ),
    ensures
        residues::cong(
            polynomial::eval(d, point::<F>(k, i)),
            polynomial::eval(c, coset_point::<F>(k, i)),
            F::modulus(),
        ),
{
    F::lemma_field();
    let p = F::modulus();
    let x = point::<F>(k, i);
    let z = F::cube_root();
    let e = Seq::new(c.len(), |j: int| c[j] * pow(z, j as nat));
    polynomial::lemma_eval_cong(d, e, x, x, p);
    let f = |j: int| e[j] * pow(x, j as nat);
    let g = |j: int| c[j] * pow(z * x, j as nat);
    assert forall|j: int| 0 <= j < c.len() implies #[trigger] f(j) == g(j) by {
        lemma_pow_distributes(z, x, j as nat);
        let (a, b, t) = (c[j], pow(z, j as nat), pow(x, j as nat));
        assert((a * b) * t == a * (b * t)) by (nonlinear_arith);
    }
    residues::lemma_sum_eq(c.len(), f, g);
}

/// Interpolation on the coset gives the values back.
pub proof fn lemma_interpolate_coset<F: PrimeField>(v: Seq<int>, k: nat, i: nat)
    requires
        k <= F::two_adicity(),
        v.len() == pow2(k),
        i < pow2(k),
    ensures
        residues::cong(
            polynomial::eval(interpolate_coset::<F>(v, k), coset_point::<F>(k, i)),
            v[i as int],
            F::modulus(),
        ),
{
    F::lemma_field();
    let p = F::modulus();
    let z = F::cube_root();
    let c = interpolate_coset::<F>(v, k);
    let d = interpolate::<F>(v, k);
    assert forall|j: int| 0 <= j < c.len() implies residues::cong(
        #[trigger] d[j],
        c[j] * pow(z, j as nat),
        p,
    ) by {
        let (a, b) = (pow(z, j as nat), pow(z * z, j as nat));
        lemma_cube::<F>(j as nat);
        residues::lemma_cong_one(d[j], a * b, p);
        residues::lemma_mod_cong(d[j] * b, p);
        residues::lemma_cong_ops(c[j], d[j] * b, a, a, p);
        assert((d[j] * b) * a == d[j] * (a * b)) by (nonlinear_arith);
    }
    lemma_stretch::<F>(c, d, k, i);
    lemma_interpolate::<F>(v, k, i);
}

/// Interpolation on the coset gives the coefficients back.
pub proof fn lemma_interpolate_coset_values<F: PrimeField>(c: Seq<int>, v: Seq<int>, k: nat)
    requires
        k <= F::two_adicity(),
        c.len() == pow2(k),
        v.len() == pow2(k),
        forall|i: int|
            0 <= i < v.len() ==> residues::cong(
                #[trigger] v[i],
                polynomial::eval(c, coset_point::<F>(k, i as nat)),
                F::modulus(),
            ),
    ensures
        forall|j: int|
            0 <= j < c.len() ==> #[trigger] interpolate_coset::<F>(v, k)[j] == c[j]
                % F::modulus(),
{
    F::lemma_field();
    let p = F::modulus();
    let z = F::cube_root();
    let d = Seq::new(c.len(), |j: int| c[j] * pow(z, j as nat));
    assert forall|i: int| 0 <= i < v.len() implies residues::cong(
        #[trigger] v[i],
        polynomial::eval(d, point::<F>(k, i as nat)),
        p,
    ) by {
        lemma_stretch::<F>(c, d, k, i as nat);
    }
    lemma_interpolate_values::<F>(d, v, k);
    assert forall|j: int| 0 <= j < c.len() implies #[trigger] interpolate_coset::<F>(v, k)[j] == c[j]
        % p by {
        let e = interpolate::<F>(v, k)[j];
        let (a, b) = (pow(z, j as nat), pow(z * z, j as nat));
        assert(e == d[j] % p);
        residues::lemma_mod_cong(d[j], p);
        residues::lemma_cong_ops(e, d[j], b, b, p);
        lemma_cube::<F>(j as nat);
        residues::lemma_cong_one(c[j], a * b, p);
        assert((c[j] * a) * b == c[j] * (a * b)) by (nonlinear_arith);
    }
}

/// What the value at the place `i` on the coset contributes to the value at `x` of the
/// polynomial that is interpolated there, of which `len` coefficients are kept.
pub open spec fn coset_weight<F: PrimeField>(k: nat, len: nat, x: int, i: int) -> int {
    residues::sum(
        len,
        |t: int|
            pow(pow(omega_inv_of::<F>(k), t as nat), i as nat) * (size_inv_of::<F>(k) * (pow(
                F::cube_root() * F::cube_root(),
                t as nat,
            ) * pow(x, t as nat))),
    )
}

/// Interpolation on the coset is linear: the value at a point is a sum of the given
/// values with weights that do not depend on them.
pub proof fn lemma_coset_weights<F: PrimeField>(v: Seq<int>, k: nat, len: nat, x: int)
    requires
        len <= v.len(),
    ensures
        residues::cong(
            polynomial::eval(interpolate_coset::<F>(v, k).take(len as int), x),
            residues::sum(v.len(), |i: int| v[i] * coset_weight::<F>(k, len, x, i)),
            F::modulus(),
        ),
{
    F::lemma_field();
    let p = F::modulus();
    let n = v.len();
    let u = omega_inv_of::<F>(k);
    let m = size_inv_of::<F>(k);
    let zz = F::cube_root() * F::cube_root();
    let c = interpolate_coset::<F>(v, k).take(len as int);
    let b = |t: int| m * (pow(zz, t as nat) * pow(x, t as nat));
    let term = |t: int, i: int| v[i] * (pow(pow(u, t as nat), i as nat) * b(t));
    let f = |t: int| c[t] * pow(x, t as nat);
    let rows = |t: int| residues::sum(n, |i: int| term(t, i));
    let columns = |i: int| residues::sum(len, |t: int| term(t, i));
    residues::lemma_sum_exchange(len, n, term);
    assert forall|t: int| 0 <= t < len implies residues::cong(#[trigger] f(t), rows(t), p) by {
        let y = pow(u, t as nat);
        let (e, z, xt) = (polynomial::eval(v, y), pow(zz, t as nat), pow(x, t as nat));
        let d = interpolate::<F>(v, k)[t];
        residues::lemma_mod_cong(m * e, p);
        residues::lemma_cong_ops(d, m * e, z, z, p);
        residues::lemma_mod_cong(d * z, p);
        residues::lemma_cong_ops(c[t], m * e * z, xt, xt, p);
        assert(m * e * z * xt == e * (m * (z * xt))) by (nonlinear_arith);
        let g = |i: int| v[i] * pow(y, i as nat);
        let gb = |i: int| g(i) * b(t);
        let row = |i: int| term(t, i);
        residues::lemma_sum_scale(n, g, b(t));
        assert forall|i: int| 0 <= i < n implies #[trigger] gb(i) == row(i) by {
            let (a, q, r) = (v[i], pow(y, i as nat), b(t));
            assert((a * q) * r == a * (q * r)) by (nonlinear_arith);
        }
        residues::lemma_sum_eq(n, gb, row);
    }
    residues::lemma_sum_cong(len, f, rows, p);
    let h = |i: int| v[i] * coset_weight::<F>(k, len, x, i);
    assert forall|i: int| 0 <= i < n implies #[trigger] columns(i) == h(i) by {
        let w = |t: int| pow(pow(u, t as nat), i as nat) * b(t);
        residues::lemma_sum_scale(len, w, v[i]);
        residues::lemma_sum_eq(len, |t: int| v[i] * w(t), |t: int| term(t, i));
        residues::lemma_sum_eq(
            len,
            w,
            |t: int|
                pow(pow(omega_inv_of::<F>(k), t as nat), i as nat) * (size_inv_of::<F>(k) * (pow(
                    F::cube_root() * F::cube_root(),
                    t as nat,
                ) * pow(x, t as nat))),
        );
    }
    residues::lemma_sum_eq(n, columns, h);
}

/// The coefficients of a basis polynomial.
pub proof fn lemma_basis<F: PrimeField>(k: nat, i: int, t: int)
    requires
        0 <= i < pow2(k),
        0 <= t < pow2(k),
        k <= F::two_adicity(),
    ensures
        residues::cong(
            interpolate::<F>(unit(pow2(k), i), k)[t],
            size_inv_of::<F>(k) * pow(pow(omega_inv_of::<F>(k), i as nat), t as nat),
            F::modulus(),
        ),
{
    lemma_omega::<F>(k);
    let p = F::modulus();
    let u = omega_inv_of::<F>(k);
    let m = size_inv_of::<F>(k);
    let e = unit(pow2(k), i);
    let x = pow(u, t as nat);
    let f = |j: int| e[j] * pow(x, j as nat);
    assert forall|j: int| 0 <= j < pow2(k) && j != i implies residues::cong(
        #[trigger] f(j),
        0,
        p,
    ) by {
        assert(0 * pow(x, j as nat) == 0);
    }
    residues::lemma_sum_single(pow2(k), f, i, p);
    assert(f(i) == 1 * pow(x, i as nat));
    lemma_pow_multiplies(u, t as nat, i as nat);
    lemma_pow_multiplies(u, i as nat, t as nat);
    lemma_mul_is_commutative(t, i);
    residues::lemma_cong_ops(m, m, polynomial::eval(e, x), pow(x, i as nat), p);
    residues::lemma_mod_cong(m * polynomial::eval(e, x), p);
}

/// The values of all basis polynomials at one point are an inverse transform of
/// the powers of that point.
pub proof fn lemma_lagrange_powers<F: PrimeField>(k: nat, powers: Seq<int>, x: int, i: int)
    requires
        k <= F::two_adicity(),
        0 <= i < pow2(k),
        powers.len() == pow2(k),
        forall|t: int|
            0 <= t < powers.len() ==> residues::cong(
                #[trigger] powers[t],
                pow(x, t as nat),
                F::modulus(),
            ),
    ensures
        interpolate::<F>(powers, k)[i] == lagrange::<F>(k, i, x),
{
    lemma_omega::<F>(k);
    let p = F::modulus();
    let n = pow2(k);
    let m = size_inv_of::<F>(k);
    let y = pow(omega_inv_of::<F>(k), i as nat);
    let c = interpolate::<F>(unit(n, i), k);
    let f = |t: int| c[t] * pow(x, t as nat);
    let g = |t: int| powers[t] * pow(y, t as nat);
    let scaled = |t: int| m * g(t);
    assert forall|t: int| 0 <= t < n implies residues::cong(#[trigger] f(t), scaled(t), p) by {
        lemma_basis::<F>(k, i, t);
        let (a, b) = (pow(x, t as nat), pow(y, t as nat));
        residues::lemma_cong_ops(c[t], m * b, a, a, p);
        residues::lemma_cong_ops(powers[t], a, b, b, p);
        residues::lemma_cong_ops(m, m, powers[t] * b, a * b, p);
        assert((m * b) * a == m * (a * b)) by (nonlinear_arith);
    }
    residues::lemma_sum_cong(n, f, scaled, p);
    residues::lemma_sum_scale(n, g, m);
}

/// The value of an interpolation polynomial is the combination of the given
/// values with those of the basis polynomials.
pub proof fn lemma_lagrange_combination<F: PrimeField>(k: nat, v: Seq<int>, x: int)
    requires
        k <= F::two_adicity(),
        v.len() == pow2(k),
    ensures
        residues::cong(
            residues::sum(v.len(), |i: int| v[i] * lagrange::<F>(k, i, x)),
            polynomial::eval(interpolate::<F>(v, k), x),
            F::modulus(),
        ),
{
    lemma_omega::<F>(k);
    let p = F::modulus();
    let n = pow2(k);
    let m = size_inv_of::<F>(k);
    let u = omega_inv_of::<F>(k);
    // Both are the double sum of v[i] m u^(i t) x^t.
    let term = |i: int, t: int| v[i] * (m * pow(pow(u, i as nat), t as nat)) * pow(x, t as nat);
    let rows = |i: int| residues::sum(n, |t: int| term(i, t));
    let columns = |t: int| residues::sum(n, |i: int| term(i, t));
    residues::lemma_sum_exchange(n, n, term);
    let f = |i: int| v[i] * lagrange::<F>(k, i, x);
    assert forall|i: int| 0 <= i < n implies residues::cong(#[trigger] f(i), rows(i), p) by {
        let c = interpolate::<F>(unit(n, i), k);
        let g = |t: int| c[t] * pow(x, t as nat);
        let vg = |t: int| v[i] * g(t);
        let row = |t: int| term(i, t);
        residues::lemma_sum_scale(n, g, v[i]);
        assert forall|t: int| 0 <= t < n implies residues::cong(#[trigger] vg(t), row(t), p) by {
            lemma_basis::<F>(k, i, t);
            let (a, b) = (pow(x, t as nat), m * pow(pow(u, i as nat), t as nat));
            residues::lemma_cong_ops(c[t], b, a, a, p);
            residues::lemma_cong_ops(v[i], v[i], c[t] * a, b * a, p);
            assert(v[i] * (b * a) == v[i] * b * a) by (nonlinear_arith);
        }
        residues::lemma_sum_cong(n, vg, row, p);
        let e = polynomial::eval(c, x);
        residues::lemma_mod_cong(e, p);
        residues::lemma_cong_ops(v[i], v[i], e % p, e, p);
    }
    residues::lemma_sum_cong(n, f, rows, p);
    let d = interpolate::<F>(v, k);
    let h = |t: int| d[t] * pow(x, t as nat);
    assert forall|t: int| 0 <= t < n implies residues::cong(#[trigger] h(t), columns(t), p) by {
        let a = pow(x, t as nat);
        let y = pow(u, t as nat);
        let g = |i: int| v[i] * pow(y, i as nat);
        let column = |i: int| term(i, t);
        let mg = |i: int| m * g(i);
        let mga = |i: int| mg(i) * a;
        residues::lemma_sum_scale(n, g, m);
        residues::lemma_sum_scale(n, mg, a);
        assert forall|i: int| 0 <= i < n implies #[trigger] mga(i) == column(i) by {
            lemma_pow_multiplies(u, t as nat, i as nat);
            lemma_pow_multiplies(u, i as nat, t as nat);
            lemma_mul_is_commutative(t, i);
            let (q, s) = (v[i], pow(y, i as nat));
            assert(m * (q * s) * a == q * (m * s) * a) by (nonlinear_arith);
        }
        residues::lemma_sum_eq(n, mga, column);
        let e = m * polynomial::eval(v, y);
        residues::lemma_mod_cong(e, p);
        residues::lemma_cong_ops(e % p, e, a, a, p);
    }
    residues::lemma_sum_cong(n, h, columns, p);
}

/// The basis polynomials sum up to one everywhere.
pub proof fn lemma_lagranges_sum<F: PrimeField>(k: nat, x: int)
    requires
        k <= F::two_adicity(),
    ensures
        residues::cong(
            residues::sum(pow2(k), |i: int| lagranges::<F>(k, x)[i]),
            1,
            F::modulus(),
        ),
{
    lemma_omega::<F>(k);
    let p = F::modulus();
    let n = pow2(k);
    lemma_pow2_pos(k);
    // The polynomial one takes the value one on the domain.
    let c = unit(n, 0);
    let v = Seq::new(n, |i: int| 1int);
    assert forall|y: int| #[trigger] polynomial::eval(c, y) == 1 by {
        polynomial::lemma_eval_pad(seq![1int], c, y);
        lemma_pow0(y);
        reveal_with_fuel(residues::sum, 2);
        assert(polynomial::eval(seq![1int], y) == 1 * pow(y, 0));
    }
    lemma_interpolate_values::<F>(c, v, k);
    assert(interpolate::<F>(v, k) =~= c) by {
        assert forall|j: int| 0 <= j < n implies #[trigger] interpolate::<F>(v, k)[j] == c[j] by {
            residues::lemma_residue_is(c[j], c[j], p);
        }
    }
    lemma_lagrange_combination::<F>(k, v, x);
    let f = |i: int| v[i] * lagrange::<F>(k, i, x);
    let g = |i: int| lagranges::<F>(k, x)[i];
    assert forall|i: int| 0 <= i < n implies #[trigger] f(i) == g(i) by {
        assert(1 * lagrange::<F>(k, i, x) == lagrange::<F>(k, i, x));
    }
    residues::lemma_sum_eq(n, f, g);
}

/// A basis polynomial is one at its own point and zero at the others.
pub proof fn lemma_lagrange_at_points<F: PrimeField>(k: nat, i: nat, j: nat)
    requires
        k <= F::two_adicity(),
        i < pow2(k),
        j < pow2(k),
    ensures
        lagrange::<F>(k, i as int, point::<F>(k, j)) == if i == j {
            1int
        } else {
            0
        },
{
    lemma_omega::<F>(k);
    let p = F::modulus();
    let v = unit(pow2(k), i as int);
    lemma_interpolate::<F>(v, k, j);
    residues::lemma_residue_is(v[j as int], v[j as int], p);
}

/// (y - 1) (1 + y + ... + y^(m - 1)) = y^m - 1.
proof fn lemma_telescope(y: int, m: nat)
    ensures
        (y - 1) * residues::sum(m, |t: int| pow(y, t as nat)) == pow(y, m) - 1,
    decreases m,
{
    lemma_pow0(y);
    if m == 0 {
        assert((y - 1) * 0 == 0);
    } else {
        let l = (m - 1) as nat;
        lemma_telescope(y, l);
        residues::lemma_pow_step(y, l);
        let (s, e) = (residues::sum(l, |t: int| pow(y, t as nat)), pow(y, l));
        assert((y - 1) * (s + e) == (y - 1) * s + y * e - e) by (nonlinear_arith);
    }
}

/// Squaring a primitive cube root of unity gives one.
proof fn lemma_cube_powers<F: PrimeField>(e: nat)
    ensures
        ({
            let z = pow(F::cube_root(), pow2(e));
            residues::cong(z * z + z + 1, 0, F::modulus())
        }),
    decreases e,
{
    F::lemma_field();
    let p = F::modulus();
    lemma2_to64();
    residues::lemma_pow_step(F::cube_root(), 0);
    if e > 0 {
        let h = pow2((e - 1) as nat);
        let u = pow(F::cube_root(), h);
        lemma_cube_powers::<F>((e - 1) as nat);
        lemma_pow2_unfold(e);
        lemma_pow_adds(F::cube_root(), h, h);
        let q = u * u + u + 1;
        residues::lemma_cong_zero(u * u - u + 1, q, p);
        assert((u * u - u + 1) * q == (u * u) * (u * u) + u * u + 1) by (nonlinear_arith)
            requires
                q == u * u + u + 1,
        ;
    }
}

/// The inverse, on the coset, of the polynomial that vanishes on the domain.
pub proof fn lemma_vanishing_inverse<F: PrimeField>(k: nat, extended: nat, i: nat)
    requires
        k <= extended <= F::two_adicity(),
    ensures
        ({
            let y = pow(coset_point::<F>(extended, i), pow2(k));
            let m = pow2((extended - k) as nat);
            let z = pow(y, m);
            let s = residues::sum(m, |t: int| pow(y, t as nat));
            residues::cong(
                (s * (z * z - 1) * F::third()) * vanishing(k, coset_point::<F>(extended, i)),
                1,
                F::modulus(),
            )
        }),
{
    F::lemma_field();
    let p = F::modulus();
    let x = coset_point::<F>(extended, i);
    let w = omega_of::<F>(extended);
    let n = pow2(k);
    let y = pow(x, n);
    let m = pow2((extended - k) as nat);
    let z = pow(y, m);
    let s = residues::sum(m, |t: int| pow(y, t as nat));
    let third = F::third();
    // z is a primitive cube root of unity.
    lemma_pow_multiplies(x, n, m);
    lemma_pow2_adds(k, (extended - k) as nat);
    let len = pow2(extended);
    lemma_pow_distributes(F::cube_root(), pow(w, i), len);
    lemma_pow_multiplies(w, i, len);
    lemma_pow_multiplies(w, len, i);
    lemma_mul_is_commutative(i as int, len as int);
    lemma_omega::<F>(extended);
    roots::lemma_root_order(w, extended, p);
    residues::lemma_cong_pow(pow(w, len), 1, i, p);
    lemma1_pow(i);
    let c = pow(F::cube_root(), len);
    residues::lemma_cong_one(c, pow(pow(w, i), len), p);
    lemma_cube_powers::<F>(extended);
    residues::lemma_cong_ops(z, c, z, c, p);
    residues::lemma_cong_ops(z * z, c * c, z, c, p);
    residues::lemma_cong_ops(z * z + z, c * c + c, 1, 1, p);
    // So (z - 1) (z^2 - 1) is three.
    let q = z * z + z + 1;
    residues::lemma_cong_zero(z - 2, q, p);
    assert((z - 2) * q == (z - 1) * (z * z - 1) - 3) by (nonlinear_arith)
        requires
            q == z * z + z + 1,
    ;
    residues::lemma_cong_ops((z - 2) * q, 0, 3, 3, p);
    residues::lemma_cong_ops((z - 1) * (z * z - 1), 3, third, third, p);
    lemma_telescope(y, m);
    assert((s * (z * z - 1) * third) * (y - 1) == ((y - 1) * s) * (z * z - 1) * third)
        by (nonlinear_arith);
}

/// On the coset, the polynomial that vanishes on the domain repeats itself.
pub proof fn lemma_vanishing_repeats<F: PrimeField>(k: nat, extended: nat, i: nat)
    requires
        k <= extended <= F::two_adicity(),
    ensures
        residues::cong(
            vanishing(k, coset_point::<F>(extended, i)),
            vanishing(k, coset_point::<F>(extended, i % pow2((extended - k) as nat))),
            F::modulus(),
        ),
{
    let p = F::modulus();
    let w = omega_of::<F>(extended);
    let n = pow2(k);
    let m = pow2((extended - k) as nat);
    lemma_pow2_pos((extended - k) as nat);
    let (j, l) = (i % m, i / m);
    let c = F::cube_root();
    lemma_omega::<F>(extended);
    roots::lemma_root_order(w, extended, p);
    lemma_pow2_adds(k, (extended - k) as nat);
    assert(i == m * l + j) by {
        vstd::arithmetic::div_mod::lemma_fundamental_div_mod(i as int, m as int);
    }
    // w^(i n) = w^(j n) (w^(m n))^l
    lemma_pow_distributes(c, pow(w, i), n);
    lemma_pow_distributes(c, pow(w, j), n);
    lemma_pow_multiplies(w, i, n);
    lemma_pow_multiplies(w, j, n);
    lemma_pow_multiplies(w, m * n, l);
    assert(i * n == j * n + (m * n) * l) by (nonlinear_arith)
        requires
            i == m * l + j,
    ;
    lemma_pow_adds(w, j * n, (m * n) * l);
    lemma_mul_is_commutative(m as int, n as int);
    residues::lemma_cong_pow(pow(w, m * n), 1, l, p);
    lemma1_pow(l);
    let e = pow(w, (m * n) * l);
    let d = pow(w, j * n);
    residues::lemma_cong_one(d, e, p);
    let cn = pow(c, n);
    residues::lemma_cong_ops(cn, cn, d * e, d, p);
    residues::lemma_cong_ops(cn * (d * e), cn * d, 1, 1, p);
}

/// On the coset, the polynomial that vanishes on the domain has an inverse.
pub proof fn lemma_vanishing_invertible<F: PrimeField>(k: nat, extended: nat, i: nat)
    requires
        k <= extended <= F::two_adicity(),
    ensures
        ({
            let v = vanishing(k, coset_point::<F>(extended, i));
            let t = residues::inverse(v, F::modulus());
            &&& 0 <= t < F::modulus()
            &&& residues::cong(t * v, 1, F::modulus())
        }),
{
    F::lemma_field();
    let p = F::modulus();
    let y = pow(coset_point::<F>(extended, i), pow2(k));
    let m = pow2((extended - k) as nat);
    let z = pow(y, m);
    let s = residues::sum(m, |t: int| pow(y, t as nat));
    let a = s * (z * z - 1) * F::third();
    let v = vanishing(k, coset_point::<F>(extended, i));
    lemma_vanishing_inverse::<F>(k, extended, i);
    residues::lemma_mod_cong(a, p);
    residues::lemma_cong_ops(a % p, a, v, v, p);
    residues::lemma_inverse_is(v, a % p, p);
}

/// Congruent points give the same values of the basis polynomials.
pub proof fn lemma_lagranges_cong<F: PrimeField>(k: nat, x: int, y: int)
    requires
        residues::cong(x, y, F::modulus()),
    ensures
        lagranges::<F>(k, x) == lagranges::<F>(k, y),
{
    F::lemma_field();
    assert forall|i: int| 0 <= i < pow2(k) implies lagranges::<F>(k, x)[i] == lagranges::<F>(
        k,
        y,
    )[i] by {
        let c = interpolate::<F>(unit(pow2(k), i), k);
        polynomial::lemma_eval_cong(c, c, x, y, F::modulus());
    }
    assert(lagranges::<F>(k, x) =~= lagranges::<F>(k, y));
}

} // verus!
