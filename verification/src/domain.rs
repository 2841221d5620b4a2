//! Evaluation domains: the powers of a root of unity, and a coset of a larger
//! group on which products of polynomials are represented.
use crate::fft;
use crate::field::{self, PrimeField};
use crate::interpolation;
use crate::polynomial;
use crate::residues;
use crate::roots;
use vstd::arithmetic::mul::*;
use vstd::arithmetic::power::*;
use vstd::arithmetic::power2::*;
use vstd::prelude::*;

verus! {

/// A domain of `n` points, and its extension.
pub struct EvaluationDomain<F: PrimeField> {
    /// The number of points, 2^`k`.
    pub n: u64,
    /// The exponent of the number of points.
    pub k: u32,
    /// The exponent of the number of points of the extension.
    pub extended_k: u32,
    /// How many times the domain the coefficients of a quotient may fill.
    pub quotient_poly_degree: u64,
    /// The generator of the domain.
    pub omega: F,
    /// Its inverse.
    pub omega_inv: F,
    /// The generator of the extension.
    pub extended_omega: F,
    /// Its inverse.
    pub extended_omega_inv: F,
    /// The inverse of the number of points.
    pub ifft_divisor: F,
    /// The inverse of the number of points of the extension.
    pub extended_ifft_divisor: F,
    /// The inverses of the values, on the coset, of the polynomial that vanishes
    /// on the domain. They repeat themselves.
    pub t_evaluations: Vec<F>,
}

/// The extension of a domain of 2^`k` points has the least size, at least that
/// of the domain, that holds `target` coefficients.
pub open spec fn is_extension(e: nat, k: nat, target: nat) -> bool {
    &&& k <= e
    &&& target <= pow2(e)
    &&& e == k || pow2((e - 1) as nat) < target
}

/// The exponent of the size of the extension.
pub open spec fn extension_of(k: nat, target: nat) -> nat {
    choose|e: nat| is_extension(e, k, target)
}

/// There is one extension only.
pub proof fn lemma_extension_is(e: nat, k: nat, target: nat)
    requires
        is_extension(e, k, target),
    ensures
        extension_of(k, target) == e,
{
    let d = extension_of(k, target);
    assert(is_extension(d, k, target));
    if d < e {
        if d < e - 1 {
            lemma_pow2_strictly_increases(d, (e - 1) as nat);
        }
    } else if e < d {
        if e < d - 1 {
            lemma_pow2_strictly_increases(e, (d - 1) as nat);
        }
    }
}

/// There are enough roots of unity for a domain of 2^`k` points that serves
/// polynomials of degree `j`, and its points can be counted.
pub open spec fn fits<F: PrimeField>(j: nat, k: nat) -> bool {
    &&& 1 <= j
    &&& k <= F::two_adicity()
    &&& pow2(k) * (j - 1) <= pow2(F::two_adicity())
    &&& 2 * (pow2(k) * (j - 1)) <= usize::MAX
    &&& pow2(k) <= usize::MAX
}

/// Tells whether there are enough roots of unity.
pub fn has_room<F: PrimeField>(j: u32, k: u32) -> (r: bool)
    ensures
        r == fits::<F>(j as nat, k as nat),
{
    proof {
        F::lemma_field();
        lemma2_to64_rest();
        lemma_pow2_strictly_increases(F::two_adicity(), 64);
    }
    let s: u32 = F::s();
    if j == 0 || k > s {
        return false;
    }
    let size: u128 = power_of_two(k) as u128;
    let most: u128 = power_of_two(s) as u128;
    proof {
        let (a, b) = (size as int, (j - 1) as int);
        assert(0 <= a * b <= 0x1_0000_0000_0000_0000 * 0x1_0000_0000) by (nonlinear_arith)
            requires
                0 <= a <= 0x1_0000_0000_0000_0000,
                0 <= b <= 0x1_0000_0000,
        ;
    }
    let len: u128 = size * (j - 1) as u128;
    len <= most && 2 * len <= usize::MAX as u128 && size <= usize::MAX as u128
}

/// The index of a row that is counted from either end.
pub open spec fn wrap(i: int, n: nat) -> int {
    i % (n as int)
}

impl<F: PrimeField> EvaluationDomain<F> {
    pub open spec fn size(&self) -> nat {
        pow2(self.k as nat)
    }

    pub open spec fn extended_size(&self) -> nat {
        pow2(self.extended_k as nat)
    }

    /// The generators and inverses are those of the two sizes.
    pub open spec fn wf(&self) -> bool {
        let p = F::modulus();
        let k = self.k as nat;
        let e = self.extended_k as nat;
        &&& self.n == pow2(k)
        &&& self.n <= usize::MAX
        &&& e <= F::two_adicity()
        &&& is_extension(e, k, (self.n * self.quotient_poly_degree) as nat)
        &&& pow2(e) <= usize::MAX
        &&& self.omega.value() == interpolation::omega_of::<F>(k)
        &&& self.omega_inv.value() == interpolation::omega_inv_of::<F>(k)
        &&& self.extended_omega.value() == interpolation::omega_of::<F>(e)
        &&& self.extended_omega_inv.value() == interpolation::omega_inv_of::<F>(e)
        &&& self.ifft_divisor.value() == interpolation::size_inv_of::<F>(k)
        &&& self.extended_ifft_divisor.value() == interpolation::size_inv_of::<F>(e)
        &&& self.t_evaluations@.len() == pow2((e - k) as nat)
        &&& forall|i: int|
            0 <= i < self.t_evaluations@.len() ==> #[trigger] self.t_evaluations@[i].value()
                == residues::inverse(
                interpolation::vanishing(k, interpolation::coset_point::<F>(e, i as nat)),
                p,
            )
    }

    /// Returns the domain of 2^`k` points for polynomials of degree `j`.
    pub fn new(j: u32, k: u32) -> (r: Self)
        requires
            fits::<F>(j as nat, k as nat),
        ensures
            r.wf(),
            r.k == k,
            r.quotient_poly_degree == j - 1,
    {
        proof {
            F::lemma_field();
            lemma_pow2_pos(k as nat);
            lemma2_to64_rest();
            if F::two_adicity() < 63 {
                lemma_pow2_strictly_increases(F::two_adicity(), 63);
            }
            if k < 63 {
                lemma_pow2_strictly_increases(k as nat, 63);
            }
        }
        let quotient_poly_degree: u64 = (j - 1) as u64;
        let n: u64 = power_of_two(k);
        assert(n * quotient_poly_degree <= pow2(63));
        let target: u64 = n * quotient_poly_degree;
        let mut extended_k: u32 = k;
        let mut extended_n: u64 = n;
        while extended_n < target
            invariant
                n == pow2(k as nat),
                k <= extended_k <= F::two_adicity() < 64,
                extended_n == pow2(extended_k as nat),
                target <= pow2(F::two_adicity()) <= pow2(63),
                pow2(63) == 0x8000000000000000,
                extended_k == k || pow2((extended_k - 1) as nat) < target,
            decreases F::two_adicity() - extended_k,
        {
            proof {
                lemma_pow2_unfold((extended_k + 1) as nat);
                if extended_k >= F::two_adicity() {
                    assert(extended_k == F::two_adicity());
                }
            }
            extended_k += 1;
            extended_n *= 2;
        }
        proof {
            if extended_k != k {
                lemma_pow2_unfold(extended_k as nat);
            }
        }
        let omega = generator::<F>(k);
        let omega_inv = field::pow_vartime(&omega, n - 1);
        let extended_omega = generator::<F>(extended_k);
        let extended_omega_inv = field::pow_vartime(&extended_omega, extended_n - 1);
        let ifft_divisor = field::pow_vartime(&F::two_inv(), k as u64);
        let extended_ifft_divisor = field::pow_vartime(&F::two_inv(), extended_k as u64);
        proof {
            interpolation::lemma_omega_inv::<F>(k as nat);
            interpolation::lemma_omega_inv::<F>(extended_k as nat);
            interpolation::lemma_size_inv::<F>(k as nat);
            interpolation::lemma_size_inv::<F>(extended_k as nat);
        }
        let t_evaluations = vanishing_inverses(n, k, extended_k, &extended_omega);
        EvaluationDomain {
            n,
            k,
            extended_k,
            quotient_poly_degree,
            omega,
            omega_inv,
            extended_omega,
            extended_omega_inv,
            ifft_divisor,
            extended_ifft_divisor,
            t_evaluations,
        }
    }

    /// Returns the values of the zero polynomial.
    pub fn empty_lagrange(&self) -> (r: Vec<F>)
        requires
            self.wf(),
        ensures
            field::values(r@) == Seq::new(self.size(), |i: int| 0int),
    {
        zeros(self.n as usize)
    }

    /// Returns the coefficients of the zero polynomial.
    pub fn empty_coeff(&self) -> (r: Vec<F>)
        requires
            self.wf(),
        ensures
            field::values(r@) == Seq::new(self.size(), |i: int| 0int),
    {
        zeros(self.n as usize)
    }

    /// Returns the number of points of the extension.
    pub fn extended_len(&self) -> (r: usize)
        requires
            self.wf(),
        ensures
            r == self.extended_size(),
    {
        proof {
            F::lemma_field();
        }
        power_of_two(self.extended_k) as usize
    }

    /// Returns the values on the domain of the polynomial with the coefficients
    /// `poly`.
    pub fn coeff_to_lagrange(&self, poly: &Vec<F>) -> (r: Vec<F>)
        requires
            self.wf(),
            poly@.len() == self.size(),
        ensures
            r@.len() == self.size(),
            forall|i: int|
                0 <= i < r@.len() ==> #[trigger] r@[i].value() == polynomial::eval(
                    field::values(poly@),
                    interpolation::point::<F>(self.k as nat, i as nat),
                ) % F::modulus(),
    {
        proof {
            F::lemma_field();
            interpolation::lemma_omega::<F>(self.k as nat);
        }
        let r = fft::best_fft(poly, &self.omega, self.k);
        proof {
            let d = fft::dft(field::values(poly@), self.omega.value(), F::modulus());
            assert(field::values(r@).len() == d.len());
            assert forall|i: int| 0 <= i < r@.len() implies #[trigger] r@[i].value()
                == polynomial::eval(
                field::values(poly@),
                interpolation::point::<F>(self.k as nat, i as nat),
            ) % F::modulus() by {
                assert(field::values(r@)[i] == d[i]);
            }
        }
        r
    }

    /// Returns the coefficients of the polynomial that takes the values `poly` on
    /// the domain.
    pub fn lagrange_to_coeff(&self, poly: &Vec<F>) -> (r: Vec<F>)
        requires
            self.wf(),
            poly@.len() == self.size(),
        ensures
            field::values(r@) == interpolation::interpolate::<F>(
                field::values(poly@),
                self.k as nat,
            ),
    {
        ifft(poly, &self.omega_inv, self.k, &self.ifft_divisor)
    }

    /// Returns the values on the coset of the polynomial with the coefficients
    /// `poly`.
    pub fn coeff_to_extended(&self, poly: &Vec<F>) -> (r: Vec<F>)
        requires
            self.wf(),
            poly@.len() == self.size(),
        ensures
            r@.len() == self.extended_size(),
            forall|i: int|
                0 <= i < r@.len() ==> #[trigger] r@[i].value() == polynomial::eval(
                    field::values(poly@),
                    interpolation::coset_point::<F>(self.extended_k as nat, i as nat),
                ) % F::modulus(),
    {
        let ghost p = F::modulus();
        let ghost z = F::cube_root();
        let ghost e = self.extended_k as nat;
        proof {
            F::lemma_field();
            interpolation::lemma_omega::<F>(e);
            if self.k < self.extended_k {
                lemma_pow2_strictly_increases(self.k as nat, e);
            }
            lemma_pow0(z);
        }
        let len: usize = self.extended_len();
        let mut a: Vec<F> = Vec::new();
        let mut power = F::one();
        let zeta = F::zeta();
        for i in 0..len
            invariant
                p == F::modulus(),
                p > 3,
                z == F::cube_root(),
                zeta.value() == z,
                poly@.len() <= len,
                residues::cong(power.value(), pow(z, i as nat), p),
                a@.len() == i,
                forall|j: int|
                    0 <= j < i && j < poly@.len() ==> residues::cong(
                        #[trigger] a@[j].value(),
                        poly@[j].value() * pow(z, j as nat),
                        p,
                    ),
                forall|j: int| poly@.len() <= j < i ==> #[trigger] a@[j].value() == 0,
        {
            if i < poly.len() {
                let c = poly[i].mul(&power);
                proof {
                    let (u, v) = (poly@[i as int].value(), power.value());
                    residues::lemma_cong_ops(u, u, v, pow(z, i as nat), p);
                    residues::lemma_mod_cong(u * v, p);
                }
                a.push(c);
            } else {
                a.push(F::zero());
            }
            proof {
                residues::lemma_pow_step(z, i as nat);
                residues::lemma_cong_ops(power.value(), pow(z, i as nat), z, z, p);
                residues::lemma_mod_cong(power.value() * z, p);
                lemma_mul_is_commutative(z, pow(z, i as nat));
            }
            power = power.mul(&zeta);
        }
        let r = fft::best_fft(&a, &self.extended_omega, self.extended_k);
        proof {
            let w = self.extended_omega.value();
            let c = field::values(poly@);
            let d = field::values(a@);
            assert(field::values(r@).len() == d.len());
            let low = Seq::new(c.len(), |j: int| c[j] * pow(z, j as nat));
            let stretched = Seq::new(
                d.len(),
                |j: int|
                    if j < c.len() {
                        low[j]
                    } else {
                        0
                    },
            );
            assert forall|i: int| 0 <= i < r@.len() implies #[trigger] r@[i].value()
                == polynomial::eval(c, interpolation::coset_point::<F>(e, i as nat)) % p by {
                assert(field::values(r@)[i] == fft::dft(d, w, p)[i]);
                let x = pow(w, i as nat);
                polynomial::lemma_eval_cong(d, stretched, x, x, p);
                polynomial::lemma_eval_pad(low, stretched, x);
                interpolation::lemma_stretch::<F>(c, low, e, i as nat);
            }
        }
        r
    }

    /// Returns the coefficients of the polynomial that takes the values `a` on
    /// the coset, as many as a quotient may have.
    pub fn extended_to_coeff(&self, a: &Vec<F>) -> (r: Vec<F>)
        requires
            self.wf(),
            a@.len() == self.extended_size(),
        ensures
            field::values(r@) == interpolation::interpolate_coset::<F>(
                field::values(a@),
                self.extended_k as nat,
            ).take((self.n * self.quotient_poly_degree) as int),
    {
        let ghost p = F::modulus();
        let ghost z = F::cube_root();
        let ghost e = self.extended_k as nat;
        proof {
            F::lemma_field();
            lemma_pow0(z * z);
            residues::lemma_mod_cong(z * z, p);
        }
        let c = ifft(a, &self.extended_omega_inv, self.extended_k, &self.extended_ifft_divisor);
        let ghost cv = interpolation::interpolate::<F>(field::values(a@), e);
        assert(c@.len() == self.extended_size()) by {
            assert(field::values(c@).len() == cv.len());
        }
        let zeta = F::zeta();
        let zeta_inv = zeta.mul(&zeta);
        assert(self.n * self.quotient_poly_degree <= usize::MAX);
        let len: usize = (self.n * self.quotient_poly_degree) as usize;
        let mut r: Vec<F> = Vec::new();
        let mut power = F::one();
        let ghost full = interpolation::interpolate_coset::<F>(field::values(a@), e);
        for i in 0..len
            invariant
                p == F::modulus(),
                p > 3,
                z == F::cube_root(),
                residues::cong(zeta_inv.value(), z * z, p),
                len <= c@.len(),
                full.len() == c@.len(),
                field::values(c@) == cv,
                cv == interpolation::interpolate::<F>(field::values(a@), e),
                full == interpolation::interpolate_coset::<F>(field::values(a@), e),
                residues::cong(power.value(), pow(z * z, i as nat), p),
                r@.len() == i,
                forall|j: int| 0 <= j < i ==> #[trigger] r@[j].value() == full[j],
        {
            let t = c[i].mul(&power);
            proof {
                let u = c@[i as int].value();
                assert(field::values(c@)[i as int] == u);
                residues::lemma_cong_ops(u, u, power.value(), pow(z * z, i as nat), p);
                residues::lemma_pow_step(z * z, i as nat);
                residues::lemma_cong_ops(
                    power.value(),
                    pow(z * z, i as nat),
                    zeta_inv.value(),
                    z * z,
                    p,
                );
                residues::lemma_mod_cong(power.value() * zeta_inv.value(), p);
                lemma_mul_is_commutative(z * z, pow(z * z, i as nat));
            }
            r.push(t);
            power = power.mul(&zeta_inv);
        }
        assert(field::values(r@) =~= full.take(len as int));
        r
    }

    /// Returns the values on the coset of the quotient by the polynomial that
    /// vanishes on the domain, from those of the dividend.
    pub fn divide_by_vanishing_poly(&self, a: &Vec<F>) -> (r: Vec<F>)
        requires
            self.wf(),
            a@.len() == self.extended_size(),
        ensures
            r@.len() == a@.len(),
            forall|i: int|
                0 <= i < r@.len() ==> #[trigger] r@[i].value() == (a@[i].value()
                    * residues::inverse(
                    interpolation::vanishing(
                        self.k as nat,
                        interpolation::coset_point::<F>(self.extended_k as nat, i as nat),
                    ),
                    F::modulus(),
                )) % F::modulus(),
    {
        let ghost p = F::modulus();
        let ghost k = self.k as nat;
        let ghost e = self.extended_k as nat;
        let m: usize = self.t_evaluations.len();
        proof {
            F::lemma_field();
            lemma_pow2_pos((e - k) as nat);
        }
        let mut r: Vec<F> = Vec::new();
        for i in 0..a.len()
            invariant
                self.wf(),
                p == F::modulus(),
                p > 3,
                k == self.k,
                e == self.extended_k,
                m == self.t_evaluations@.len(),
                m > 0,
                r@.len() == i,
                forall|j: int|
                    0 <= j < i ==> #[trigger] r@[j].value() == (a@[j].value()
                        * residues::inverse(
                        interpolation::vanishing(k, interpolation::coset_point::<F>(e, j as nat)),
                        p,
                    )) % p,
        {
            let t = a[i].mul(&self.t_evaluations[i % m]);
            proof {
                let q = (i % m) as nat;
                let here = interpolation::vanishing(k, interpolation::coset_point::<F>(e, i as nat));
                let there = interpolation::vanishing(k, interpolation::coset_point::<F>(e, q));
                interpolation::lemma_vanishing_repeats::<F>(k, e, i as nat);
                let inv = self.t_evaluations@[q as int].value();
                self.t_evaluations@[q as int].lemma_value();
                interpolation::lemma_vanishing_invertible::<F>(k, e, q);
                residues::lemma_cong_ops(inv, inv, here, there, p);
                residues::lemma_inverse_is(here, inv, p);
            }
            r.push(t);
        }
        r
    }

    /// Returns the index in the domain of a row that is counted from either end.
    pub fn row(&self, i: i32) -> (r: u64)
        requires
            self.wf(),
        ensures
            r == wrap(i as int, self.size()),
    {
        proof {
            lemma_pow2_pos(self.k as nat);
        }
        if i >= 0 {
            (i as u64) % self.n
        } else {
            let m: u64 = (-(i as i64)) as u64;
            let t: u64 = m % self.n;
            proof {
                let n = self.n as int;
                vstd::arithmetic::div_mod::lemma_fundamental_div_mod(m as int, n);
                let q = m as int / n;
                assert(i == -q * n - t) by (nonlinear_arith)
                    requires
                        m == -i,
                        m == n * q + t,
                ;
                if t == 0 {
                    vstd::arithmetic::div_mod::lemma_fundamental_div_mod_converse(
                        i as int,
                        n,
                        -q,
                        0,
                    );
                } else {
                    assert(-q * n - t == (-q - 1) * n + (n - t)) by (nonlinear_arith);
                    vstd::arithmetic::div_mod::lemma_fundamental_div_mod_converse(
                        i as int,
                        n,
                        -q - 1,
                        n - t,
                    );
                }
            }
            if t == 0 {
                0
            } else {
                self.n - t
            }
        }
    }

    /// Returns `value`, rotated by `rotation` rows.
    pub fn rotate_omega(&self, value: &F, rotation: i32) -> (r: F)
        requires
            self.wf(),
        ensures
            r.value() == (value.value() * interpolation::point::<F>(
                self.k as nat,
                wrap(rotation as int, self.size()) as nat,
            )) % F::modulus(),
    {
        let power = field::pow_vartime(&self.omega, self.row(rotation));
        proof {
            F::lemma_field();
            let q = interpolation::point::<F>(
                self.k as nat,
                wrap(rotation as int, self.size()) as nat,
            );
            residues::lemma_mod_cong(q, F::modulus());
            residues::lemma_cong_ops(
                value.value(),
                value.value(),
                q % F::modulus(),
                q,
                F::modulus(),
            );
        }
        value.mul(&power)
    }

    /// Returns the values at `x` of the basis polynomials of the rows from `from`
    /// to below `to`, which are counted from either end.
    pub fn l_i_range(&self, x: &F, from: i32, to: i32) -> (r: Vec<F>)
        requires
            self.wf(),
            from <= to,
            to - from <= usize::MAX,
        ensures
            r@.len() == to - from,
            forall|i: int|
                0 <= i < r@.len() ==> #[trigger] r@[i].value() == interpolation::lagrange::<F>(
                    self.k as nat,
                    wrap(from + i, self.size()),
                    x.value(),
                ),
    {
        let all = lagrange_evals_at(self, x);
        let mut r: Vec<F> = Vec::new();
        let mut i: i32 = from;
        while i < to
            invariant
                self.wf(),
                from <= i <= to,
                all@.len() == self.size(),
                forall|j: int|
                    0 <= j < all@.len() ==> #[trigger] all@[j].value()
                        == interpolation::lagrange::<F>(self.k as nat, j, x.value()),
                r@.len() == i - from,
                forall|j: int|
                    0 <= j < r@.len() ==> #[trigger] r@[j].value()
                        == interpolation::lagrange::<F>(
                        self.k as nat,
                        wrap(from + j, self.size()),
                        x.value(),
                    ),
            decreases to - i,
        {
            let row: u64 = self.row(i);
            proof {
                lemma_pow2_pos(self.k as nat);
                vstd::arithmetic::div_mod::lemma_mod_bound(i as int, self.size() as int);
            }
            r.push(all[row as usize]);
            i += 1;
        }
        r
    }
}

/// Returns `n` zeros.
pub fn zeros<F: PrimeField>(n: usize) -> (r: Vec<F>)
    ensures
        field::values(r@) == Seq::new(n as nat, |i: int| 0int),
{
    let mut r: Vec<F> = Vec::new();
    for i in 0..n
        invariant
            r@.len() == i,
            forall|j: int| 0 <= j < i ==> #[trigger] r@[j].value() == 0,
    {
        r.push(F::zero());
    }
    assert(field::values(r@) =~= Seq::new(n as nat, |i: int| 0int));
    r
}

/// Returns the values at `x` of all basis polynomials of a domain.
pub fn lagrange_evals_at<F: PrimeField>(domain: &EvaluationDomain<F>, x: &F) -> (r: Vec<F>)
    requires
        domain.wf(),
    ensures
        r@.len() == domain.size(),
        forall|i: int|
            0 <= i < r@.len() ==> #[trigger] r@[i].value() == interpolation::lagrange::<F>(
                domain.k as nat,
                i,
                x.value(),
            ),
{
    let ghost p = F::modulus();
    let ghost k = domain.k as nat;
    proof {
        F::lemma_field();
        lemma_pow0(x.value());
    }
    let mut powers: Vec<F> = Vec::new();
    let mut power = F::one();
    for i in 0..domain.n as usize
        invariant
            p == F::modulus(),
            p > 3,
            residues::cong(power.value(), pow(x.value(), i as nat), p),
            powers@.len() == i,
            forall|j: int|
                0 <= j < i ==> residues::cong(
                    #[trigger] powers@[j].value(),
                    pow(x.value(), j as nat),
                    p,
                ),
    {
        powers.push(power);
        proof {
            let (v, t) = (power.value(), x.value());
            residues::lemma_pow_step(t, i as nat);
            residues::lemma_cong_ops(v, pow(t, i as nat), t, t, p);
            residues::lemma_mod_cong(v * t, p);
            lemma_mul_is_commutative(t, pow(t, i as nat));
        }
        power = power.mul(x);
    }
    let r = domain.lagrange_to_coeff(&powers);
    proof {
        let v = field::values(powers@);
        assert(field::values(r@).len() == v.len());
        assert forall|i: int| 0 <= i < r@.len() implies #[trigger] r@[i].value()
            == interpolation::lagrange::<F>(k, i, x.value()) by {
            assert(field::values(r@)[i] == interpolation::interpolate::<F>(v, k)[i]);
            interpolation::lemma_lagrange_powers::<F>(k, v, x.value(), i);
        }
    }
    r
}

/// Returns the coefficients of the polynomial of degree below 2^`k` that takes
/// the values `a` on the domain whose generator has the inverse `omega_inv`.
fn ifft<F: PrimeField>(a: &Vec<F>, omega_inv: &F, k: u32, divisor: &F) -> (r: Vec<F>)
    requires
        a@.len() == pow2(k as nat),
        k <= F::two_adicity(),
        omega_inv.value() == interpolation::omega_inv_of::<F>(k as nat),
        divisor.value() == interpolation::size_inv_of::<F>(k as nat),
    ensures
        field::values(r@) == interpolation::interpolate::<F>(field::values(a@), k as nat),
{
    let ghost p = F::modulus();
    let ghost u = omega_inv.value();
    proof {
        interpolation::lemma_omega::<F>(k as nat);
        interpolation::lemma_omega_inv::<F>(k as nat);
        roots::lemma_root_inverse(interpolation::omega_of::<F>(k as nat), u, k as nat, p);
    }
    let t = fft::best_fft(a, omega_inv, k);
    let ghost v = field::values(a@);
    let ghost d = fft::dft(v, u, p);
    let ghost c = interpolation::interpolate::<F>(v, k as nat);
    assert(t@.len() == d.len()) by {
        assert(field::values(t@).len() == d.len());
    }
    let mut r: Vec<F> = Vec::new();
    for i in 0..t.len()
        invariant
            p == F::modulus(),
            p > 3,
            u == omega_inv.value(),
            u == interpolation::omega_inv_of::<F>(k as nat),
            divisor.value() == interpolation::size_inv_of::<F>(k as nat),
            d == fft::dft(v, u, p),
            t@.len() == d.len(),
            v.len() == d.len(),
            field::values(t@) == d,
            c == interpolation::interpolate::<F>(v, k as nat),
            r@.len() == i,
            forall|j: int| 0 <= j < i ==> #[trigger] r@[j].value() == c[j],
    {
        proof {
            assert(field::values(t@)[i as int] == t@[i as int].value());
            let e = polynomial::eval(v, pow(u, i as nat));
            let m = divisor.value();
            residues::lemma_mod_cong(e, p);
            residues::lemma_cong_ops(m, m, e % p, e, p);
            lemma_mul_is_commutative(m, e % p);
        }
        r.push(t[i].mul(divisor));
    }
    assert(field::values(r@) =~= c);
    r
}

/// Returns 2^`k`.
pub fn power_of_two(k: u32) -> (r: u64)
    requires
        k < 64,
    ensures
        r == pow2(k as nat),
{
    let mut r: u64 = 1;
    proof {
        lemma2_to64();
        lemma2_to64_rest();
    }
    for i in 0..k
        invariant
            k < 64,
            r == pow2(i as nat),
            pow2(63) == 0x8000000000000000,
    {
        proof {
            lemma_pow2_unfold((i + 1) as nat);
            if i + 1 < 63 {
                lemma_pow2_strictly_increases((i + 1) as nat, 63);
            }
        }
        r = r * 2;
    }
    r
}

/// Returns the generator of the domain of 2^`k` points.
fn generator<F: PrimeField>(k: u32) -> (r: F)
    requires
        k <= F::two_adicity(),
    ensures
        r.value() == interpolation::omega_of::<F>(k as nat),
{
    proof {
        F::lemma_field();
    }
    let exponent: u64 = power_of_two(F::s() - k);
    field::pow_vartime(&F::root_of_unity(), exponent)
}

/// Returns the inverses, on the coset, of the polynomial that vanishes on the
/// domain, up to where they repeat themselves.
fn vanishing_inverses<F: PrimeField>(n: u64, k: u32, extended_k: u32, extended_omega: &F) -> (r:
    Vec<F>)
    requires
        n == pow2(k as nat),
        k <= extended_k <= F::two_adicity(),
        extended_omega.value() == interpolation::omega_of::<F>(extended_k as nat),
    ensures
        r@.len() == pow2((extended_k - k) as nat),
        forall|i: int|
            0 <= i < r@.len() ==> #[trigger] r@[i].value() == residues::inverse(
                interpolation::vanishing(
                    k as nat,
                    interpolation::coset_point::<F>(extended_k as nat, i as nat),
                ),
                F::modulus(),
            ),
{
    proof {
        F::lemma_field();
    }
    let ghost p = F::modulus();
    let ghost w = extended_omega.value();
    let ghost e = extended_k as nat;
    let m: u64 = power_of_two(extended_k - k);
    let mut r: Vec<F> = Vec::new();
    let mut x = F::zeta();
    let mut i: u64 = 0;
    proof {
        lemma_pow0(w);
        assert(F::cube_root() * 1 == F::cube_root());
    }
    while i < m
        invariant
            p == F::modulus(),
            p > 3,
            n == pow2(k as nat),
            k <= e <= F::two_adicity(),
            w == interpolation::omega_of::<F>(e),
            w == extended_omega.value(),
            m == pow2((e - k) as nat),
            i <= m,
            residues::cong(x.value(), interpolation::coset_point::<F>(e, i as nat), p),
            r@.len() == i,
            forall|l: int|
                0 <= l < i ==> #[trigger] r@[l].value() == residues::inverse(
                    interpolation::vanishing(
                        k as nat,
                        interpolation::coset_point::<F>(e, l as nat),
                    ),
                    p,
                ),
        decreases m - i,
    {
        let y = field::pow_vartime(&x, n);
        let mut s = F::zero();
        let mut z = F::one();
        let mut t: u64 = 0;
        let ghost yv = y.value();
        let ghost f = |t: int| pow(yv, t as nat);
        proof {
            lemma_pow0(yv);
        }
        while t < m
            invariant
                p == F::modulus(),
                p > 3,
                t <= m,
                yv == y.value(),
                f == (|t: int| pow(yv, t as nat)),
                residues::cong(z.value(), pow(yv, t as nat), p),
                residues::cong(s.value(), residues::sum(t as nat, f), p),
            decreases m - t,
        {
            let ghost (sv, zv) = (s.value(), z.value());
            proof {
                residues::lemma_pow_step(yv, t as nat);
                residues::lemma_cong_ops(sv, residues::sum(t as nat, f), zv, f(t as int), p);
                residues::lemma_mod_cong(sv + zv, p);
                residues::lemma_cong_ops(zv, pow(yv, t as nat), yv, yv, p);
                residues::lemma_mod_cong(zv * yv, p);
                lemma_mul_is_commutative(yv, pow(yv, t as nat));
            }
            s = s.add(&z);
            z = z.mul(&y);
            t += 1;
        }
        let square = z.mul(&z);
        let factor = square.sub(&F::one());
        let product = s.mul(&factor);
        let inverse = product.mul(&F::three_inv());
        proof {
            let c = interpolation::coset_point::<F>(e, i as nat);
            let yy = pow(c, pow2(k as nat));
            let ff = |t: int| pow(yy, t as nat);
            let zz = pow(yy, m as nat);
            let ss = residues::sum(m as nat, ff);
            let third = F::third();
            residues::lemma_cong_pow(x.value(), c, n as nat, p);
            residues::lemma_mod_cong(pow(x.value(), n as nat), p);
            assert(residues::cong(yv, yy, p));
            residues::lemma_cong_pow(yv, yy, m as nat, p);
            assert forall|t: int| 0 <= t < m implies residues::cong(#[trigger] f(t), ff(t), p) by {
                residues::lemma_cong_pow(yv, yy, t as nat, p);
            }
            residues::lemma_sum_cong(m as nat, f, ff, p);
            let (sv, zv) = (s.value(), z.value());
            assert(residues::cong(sv, ss, p));
            assert(residues::cong(zv, zz, p));
            residues::lemma_cong_ops(zv, zz, zv, zz, p);
            residues::lemma_mod_cong(zv * zv, p);
            residues::lemma_cong_ops(square.value(), zz * zz, 1, 1, p);
            residues::lemma_mod_cong(square.value() - 1, p);
            residues::lemma_cong_ops(sv, ss, factor.value(), zz * zz - 1, p);
            residues::lemma_mod_cong(sv * factor.value(), p);
            residues::lemma_cong_ops(product.value(), ss * (zz * zz - 1), third, third, p);
            residues::lemma_mod_cong(product.value() * third, p);
            let v = interpolation::vanishing(k as nat, c);
            residues::lemma_cong_ops(inverse.value(), ss * (zz * zz - 1) * third, v, v, p);
            interpolation::lemma_vanishing_inverse::<F>(k as nat, e, i as nat);
            inverse.lemma_value();
            residues::lemma_inverse_is(v, inverse.value(), p);
        }
        r.push(inverse);
        proof {
            let c = F::cube_root();
            let wi = pow(w, i as nat);
            residues::lemma_pow_step(w, i as nat);
            residues::lemma_cong_ops(x.value(), c * wi, w, w, p);
            residues::lemma_mod_cong(x.value() * w, p);
            assert((c * wi) * w == c * (w * wi)) by (nonlinear_arith);
        }
        x = x.mul(extended_omega);
        i += 1;
    }
    r
}

} // verus!
