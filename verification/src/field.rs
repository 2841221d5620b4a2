//! Prime fields: the integers up to multiples of a modulus.
use crate::residues;
use vstd::arithmetic::div_mod::*;
use vstd::arithmetic::power::*;
use vstd::arithmetic::power2::*;
use vstd::prelude::*;

verus! {

/// An element of a prime field with a subgroup of order 2^`two_adicity()` and
/// one of order 3. An element is seen as its residue, which is at least zero
/// and below `modulus()`.
pub trait PrimeField: Sized + Copy + Send + Sync {
    /// The number of elements.
    spec fn modulus() -> int;

    /// The residue that the element stands for.
    spec fn value(&self) -> int;

    /// The exponent of the greatest power of two below which there are roots of
    /// unity.
    spec fn two_adicity() -> nat;

    /// The residue of `root_of_unity()`.
    spec fn root() -> int;

    /// The residue of `zeta()`.
    spec fn cube_root() -> int;

    /// The residue of `two_inv()`.
    spec fn half() -> int;

    /// The residue of `three_inv()`.
    spec fn third() -> int;

    /// What holds of the constants.
    proof fn lemma_field()
        ensures
            Self::modulus() > 3,
            0 < Self::two_adicity() < 64,
            residues::cong(
                pow(Self::root(), pow2((Self::two_adicity() - 1) as nat)),
                -1,
                Self::modulus(),
            ),
            residues::cong(
                Self::cube_root() * Self::cube_root() + Self::cube_root() + 1,
                0,
                Self::modulus(),
            ),
            residues::cong(2 * Self::half(), 1, Self::modulus()),
            residues::cong(3 * Self::third(), 1, Self::modulus()),
            0 <= Self::root() < Self::modulus(),
            0 <= Self::cube_root() < Self::modulus(),
            0 <= Self::half() < Self::modulus(),
            0 <= Self::third() < Self::modulus(),
    ;

    /// A residue lies below the modulus.
    proof fn lemma_value(&self)
        ensures
            0 <= self.value() < Self::modulus(),
    ;

    /// Returns the neutral element of addition.
    fn zero() -> (r: Self)
        ensures
            r.value() == 0,
    ;

    /// Returns the neutral element of multiplication.
    fn one() -> (r: Self)
        ensures
            r.value() == 1,
    ;

    /// Returns the sum.
    fn add(&self, other: &Self) -> (r: Self)
        ensures
            r.value() == (self.value() + other.value()) % Self::modulus(),
    ;

    /// Returns the difference.
    fn sub(&self, other: &Self) -> (r: Self)
        ensures
            r.value() == (self.value() - other.value()) % Self::modulus(),
    ;

    /// Returns the product.
    fn mul(&self, other: &Self) -> (r: Self)
        ensures
            r.value() == (self.value() * other.value()) % Self::modulus(),
    ;

    /// Tells whether two elements are the same.
    fn is(&self, other: &Self) -> (r: bool)
        ensures
            r == (self.value() == other.value()),
    ;

    /// Returns the exponent of the number of roots of unity that there are.
    fn s() -> (r: u32)
        ensures
            r == Self::two_adicity(),
    ;

    /// Returns a root of unity of order 2^`s()`.
    fn root_of_unity() -> (r: Self)
        ensures
            r.value() == Self::root(),
    ;

    /// Returns a root of unity of order 3.
    fn zeta() -> (r: Self)
        ensures
            r.value() == Self::cube_root(),
    ;

    /// Returns the inverse of 2.
    fn two_inv() -> (r: Self)
        ensures
            r.value() == Self::half(),
    ;

    /// Returns the inverse of 3.
    fn three_inv() -> (r: Self)
        ensures
            r.value() == Self::third(),
    ;
}

/// The residues of a sequence of elements.
pub open spec fn values<F: PrimeField>(s: Seq<F>) -> Seq<int> {
    s.map_values(|x: F| x.value())
}

/// Returns `base` to the power `exp`.
pub fn pow_vartime<F: PrimeField>(base: &F, exp: u64) -> (r: F)
    ensures
        r.value() == pow(base.value(), exp as nat) % F::modulus(),
{
    let ghost p = F::modulus();
    let mut acc = F::one();
    let mut square = *base;
    let mut e: u64 = exp;
    proof {
        F::lemma_field();
        lemma_pow0(base.value());
        lemma_small_mod(1, p as nat);
        base.lemma_value();
        assert(1 * pow(square.value(), e as nat) == pow(square.value(), e as nat));
    }
    while e > 0
        invariant
            p == F::modulus(),
            p > 3,
            0 <= acc.value() < p,
            residues::cong(
                acc.value() * pow(square.value(), e as nat),
                pow(base.value(), exp as nat),
                p,
            ),
        decreases e,
    {
        let ghost a = acc.value();
        let ghost x = square.value();
        let ghost half = (e / 2) as nat;
        proof {
            residues::lemma_pow_step(x, 2 * half);
            residues::lemma_pow_step(x, 0);
            lemma_pow_multiplies(x, 2, half);
            residues::lemma_mod_cong(x * x, p);
            residues::lemma_cong_pow((x * x) % p, x * x, half, p);
        }
        if e % 2 == 1 {
            acc = acc.mul(&square);
            proof {
                residues::lemma_mod_cong(a * x, p);
                residues::lemma_cong_ops(
                    (a * x) % p,
                    a * x,
                    pow((x * x) % p, half),
                    pow(x * x, half),
                    p,
                );
                let t = pow(x * x, half);
                assert((a * x) * t == a * (x * t)) by (nonlinear_arith);
                assert(e as nat == 2 * half + 1);
            }
        } else {
            proof {
                residues::lemma_cong_ops(a, a, pow((x * x) % p, half), pow(x * x, half), p);
                assert(e as nat == 2 * half);
            }
        }
        square = square.mul(&square);
        e = e / 2;
    }
    proof {
        lemma_pow0(square.value());
        assert(acc.value() * 1 == acc.value());
        residues::lemma_residue_is(acc.value(), pow(base.value(), exp as nat), p);
    }
    acc
}

} // verus!
