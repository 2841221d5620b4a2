//! Products of challenges, one for each set of them.
use crate::field::{self, PrimeField};
use crate::residues;
use vstd::arithmetic::div_mod::*;
use vstd::arithmetic::power::*;
use vstd::arithmetic::power2::*;
use vstd::prelude::*;

verus! {

/// The bit of `i` with the weight 2^`j` is set.
pub open spec fn bit(i: nat, j: nat) -> bool {
    (i / pow2(j)) % 2 == 1
}

/// The product of those of the first `n` powers whose bit in `i` is set.
pub open spec fn product(powers: Seq<int>, i: nat, n: nat) -> int
    decreases n,
{
    if n == 0 {
        1
    } else {
        product(powers, i, (n - 1) as nat) * (if bit(i, (n - 1) as nat) {
            powers[n - 1]
        } else {
            1
        })
    }
}

/// The product of those powers whose bit in `i` is set.
pub open spec fn pow_of(powers: Seq<int>, i: nat) -> int {
    product(powers, i, powers.len())
}

/// The products for the sets 1, 2, ..., 2^n, where n is the number of powers; the
/// last of them is the empty set.
pub open spec fn pow_seq(powers: Seq<int>, p: int) -> Seq<int> {
    Seq::new(pow2(powers.len()), |i: int| pow_of(powers, (i + 1) as nat) % p)
}

/// A value that is multiplied place by place.
pub trait Pointwise<F: PrimeField>: Sized {
    /// The residues at the places.
    spec fn places(&self) -> Seq<int>;

    /// A residue lies below the modulus.
    proof fn lemma_places(&self)
        ensures
            forall|t: int|
                0 <= t < self.places().len() ==> 0 <= #[trigger] self.places()[t] < F::modulus(),
    ;

    /// Returns a copy.
    fn copy(&self) -> (r: Self)
        ensures
            r.places() == self.places(),
    ;

    /// Returns the product, place by place.
    fn times(&self, other: &Self) -> (r: Self)
        requires
            self.places().len() == other.places().len(),
        ensures
            r.places() == Seq::new(
                self.places().len(),
                |t: int| (self.places()[t] * other.places()[t]) % F::modulus(),
            ),
    ;
}

impl<F: PrimeField> Pointwise<F> for F {
    open spec fn places(&self) -> Seq<int> {
        seq![self.value()]
    }

    proof fn lemma_places(&self) {
        self.lemma_value();
    }

    fn copy(&self) -> (r: Self) {
        *self
    }

    fn times(&self, other: &Self) -> (r: Self) {
        let r = self.mul(other);
        assert(r.places() =~= Seq::new(
            self.places().len(),
            |t: int| (self.places()[t] * other.places()[t]) % F::modulus(),
        ));
        r
    }
}

/// A polynomial by its values.
impl<F: PrimeField> Pointwise<F> for Vec<F> {
    open spec fn places(&self) -> Seq<int> {
        field::values(self@)
    }

    proof fn lemma_places(&self) {
        assert forall|t: int| 0 <= t < self.places().len() implies 0 <= #[trigger] self.places()[t]
            < F::modulus() by {
            self@[t].lemma_value();
        }
    }

    fn copy(&self) -> (r: Self) {
        let mut r: Vec<F> = Vec::new();
        for i in 0..self.len()
            invariant
                r@ =~= self@.take(i as int),
        {
            r.push(self[i]);
        }
        assert(r@ =~= self@);
        r
    }

    fn times(&self, other: &Self) -> (r: Self) {
        let mut r: Vec<F> = Vec::new();
        for i in 0..self.len()
            invariant
                self@.len() == other@.len(),
                r@.len() == i,
                forall|t: int|
                    0 <= t < i ==> #[trigger] r@[t].value() == (self@[t].value()
                        * other@[t].value()) % F::modulus(),
        {
            r.push(self[i].mul(&other[i]));
        }
        assert(r.places() =~= Seq::new(
            self.places().len(),
            |t: int| (self.places()[t] * other.places()[t]) % F::modulus(),
        ));
        r
    }
}

/// The residues of all powers at one place.
pub open spec fn at_place<F: PrimeField, T: Pointwise<F>>(powers: Seq<T>, t: int) -> Seq<int> {
    Seq::new(powers.len(), |j: int| powers[j].places()[t])
}

/// Returns the product of `one` with those powers whose bit in `i` is set.
pub fn pow_i<F: PrimeField, T: Pointwise<F>>(powers: &[T], i: usize, one: &T) -> (r: T)
    requires
        forall|j: int|
            0 <= j < powers@.len() ==> (#[trigger] powers@[j]).places().len()
                == one.places().len(),
    ensures
        r.places() == Seq::new(
            one.places().len(),
            |t: int|
                (one.places()[t] * pow_of(at_place::<F, T>(powers@, t), i as nat)) % F::modulus(),
        ),
{
    let ghost p = F::modulus();
    let ghost n = one.places().len();
    let mut r = one.copy();
    let mut rest: usize = i;
    proof {
        F::lemma_field();
        lemma2_to64();
        lemma_div_basics(i as int);
        one.lemma_places();
        assert forall|t: int| 0 <= t < n implies residues::cong(
            #[trigger] r.places()[t],
            one.places()[t] * product(at_place::<F, T>(powers@, t), i as nat, 0),
            p,
        ) by {
            assert(one.places()[t] * 1 == one.places()[t]);
        }
    }
    for j in 0..powers.len()
        invariant
            p == F::modulus(),
            p > 3,
            n == one.places().len(),
            rest == i as nat / pow2(j as nat),
            forall|l: int| 0 <= l < powers@.len() ==> (#[trigger] powers@[l]).places().len() == n,
            r.places().len() == n,
            forall|t: int|
                0 <= t < n ==> residues::cong(
                    #[trigger] r.places()[t],
                    one.places()[t] * product(
                        at_place::<F, T>(powers@, t),
                        i as nat,
                        j as nat,
                    ),
                    p,
                ),
    {
        let ghost before = r.places();
        let ghost factor = powers@[j as int].places();
        if rest % 2 == 1 {
            r = r.times(&powers[j]);
            proof {
                assert forall|t: int| 0 <= t < n implies residues::cong(
                    #[trigger] r.places()[t],
                    one.places()[t] * product(
                        at_place::<F, T>(powers@, t),
                        i as nat,
                        (j + 1) as nat,
                    ),
                    p,
                ) by {
                    let s = at_place::<F, T>(powers@, t);
                    let (a, b, c) = (one.places()[t], product(s, i as nat, j as nat), factor[t]);
                    assert(residues::cong(before[t], a * b, p));
                    residues::lemma_cong_ops(before[t], a * b, c, c, p);
                    residues::lemma_mod_cong(before[t] * c, p);
                    assert((a * b) * c == a * (b * c)) by (nonlinear_arith);
                }
            }
        } else {
            proof {
                assert forall|t: int| 0 <= t < n implies residues::cong(
                    #[trigger] r.places()[t],
                    one.places()[t] * product(
                        at_place::<F, T>(powers@, t),
                        i as nat,
                        (j + 1) as nat,
                    ),
                    p,
                ) by {
                    let s = at_place::<F, T>(powers@, t);
                    assert(product(s, i as nat, j as nat) * 1 == product(s, i as nat, j as nat));
                }
            }
        }
        proof {
            lemma_pow2_unfold((j + 1) as nat);
            lemma_pow2_pos(j as nat);
            lemma_div_denominator(i as int, pow2(j as nat) as int, 2);
        }
        rest = rest / 2;
    }
    proof {
        r.lemma_places();
        assert forall|t: int| 0 <= t < n implies #[trigger] r.places()[t] == (one.places()[t]
            * pow_of(at_place::<F, T>(powers@, t), i as nat)) % p by {
            assert(at_place::<F, T>(powers@, t).len() == powers@.len());
            residues::lemma_residue_is(
                r.places()[t],
                one.places()[t] * pow_of(at_place::<F, T>(powers@, t), i as nat),
                p,
            );
        }
        assert(r.places() =~= Seq::new(
            one.places().len(),
            |t: int|
                (one.places()[t] * pow_of(at_place::<F, T>(powers@, t), i as nat)) % F::modulus(),
        ));
    }
    r
}

/// Returns the products of the powers for all sets of them.
pub fn pow_vec<F: PrimeField>(powers: &[F]) -> (r: Vec<F>)
    requires
        pow2(powers@.len()) <= usize::MAX,
    ensures
        field::values(r@) == pow_seq(field::values(powers@), F::modulus()),
        r@.len() == pow2(powers@.len()),
        r@.last().value() == 1,
        forall|j: int|
            0 <= j < powers@.len() ==> r@[pow2(j as nat) - 1].value() == (
            #[trigger] powers@[j]).value(),
        forall|i: int, j: int|
            0 <= j < powers@.len() && 0 < i < pow2(j as nat) ==> r@[i + pow2(j as nat) - 1].value()
                == ((#[trigger] r@[i - 1]).value() * (#[trigger] powers@[j]).value())
                % F::modulus(),
{
    let ghost p = F::modulus();
    let ghost s = field::values(powers@);
    let mut n: usize = 1;
    proof {
        lemma2_to64();
    }
    for j in 0..powers.len()
        invariant
            n == pow2(j as nat),
            pow2(powers@.len()) <= usize::MAX,
    {
        proof {
            lemma_pow2_unfold((j + 1) as nat);
            if j + 1 < powers@.len() {
                lemma_pow2_strictly_increases((j + 1) as nat, powers@.len());
            }
        }
        n = n * 2;
    }
    let one = F::one();
    let mut r: Vec<F> = Vec::new();
    for i in 0..n
        invariant
            p == F::modulus(),
            s == field::values(powers@),
            one.value() == 1,
            r@.len() == i,
            forall|t: int| 0 <= t < i ==> #[trigger] r@[t].value() == pow_of(s, (t + 1) as nat) % p,
    {
        let v: F = pow_i(powers, i + 1, &one);
        proof {
            assert(at_place::<F, F>(powers@, 0) =~= s);
            assert(v.places()[0] == v.value());
            assert(1 * pow_of(s, (i + 1) as nat) == pow_of(s, (i + 1) as nat));
        }
        r.push(v);
    }
    assert(field::values(r@) =~= pow_seq(s, p));
    proof {
        F::lemma_field();
        let len = powers@.len();
        lemma_pow2_pos(len);
        lemma_pow_of_one_more_bit(s, 0, len);
        lemma_small_mod(1, p as nat);
        assert(r@[n - 1].value() == pow_of(s, n as nat) % p);
        assert forall|j: int| 0 <= j < len implies r@[pow2(j as nat) - 1].value() == (
        #[trigger] powers@[j]).value() by {
            lemma_pow2_pos(j as nat);
            lemma_pow2_strictly_increases(j as nat, len);
            lemma_pow_of_one_more_bit(s, 0, j as nat);
            assert(r@[pow2(j as nat) - 1].value() == pow_of(s, pow2(j as nat)) % p);
            powers@[j].lemma_value();
            lemma_small_mod(s[j] as nat, p as nat);
        }
        assert forall|i: int, j: int| 0 <= j < len && 0 < i < pow2(j as nat) implies r@[i + pow2(
            j as nat,
        ) - 1].value() == ((#[trigger] r@[i - 1]).value() * (#[trigger] powers@[j]).value())
            % p by {
            lemma_pow2_unfold((j + 1) as nat);
            if j + 1 < len {
                lemma_pow2_strictly_increases((j + 1) as nat, len);
            }
            lemma_pow_of_one_more_bit(s, i as nat, j as nat);
            let q = pow_of(s, i as nat);
            assert(r@[i - 1].value() == q % p);
            assert(r@[i + pow2(j as nat) - 1].value() == pow_of(s, (i + pow2(j as nat)) as nat)
                % p);
            residues::lemma_mod_cong(q, p);
            residues::lemma_cong_ops(q % p, q, s[j], s[j], p);
        }
    }
    r
}

/// The bits of `i` + 2^`j`, where `i` lies below 2^`j`: one more is set.
proof fn lemma_bits_of_sum(i: nat, j: nat, l: nat)
    requires
        i < pow2(j),
    ensures
        l < j ==> bit(i + pow2(j), l) == bit(i, l),
        l == j ==> bit(i + pow2(j), l),
        l >= j ==> !bit(i, l),
        l > j ==> !bit(i + pow2(j), l),
{
    lemma_pow2_pos(l);
    lemma_pow2_pos(j);
    if l < j {
        let m = pow2((j - l) as nat);
        lemma_pow2_adds(l, (j - l) as nat);
        lemma_pow2_unfold((j - l) as nat);
        lemma_hoist_over_denominator(i as int, m as int, pow2(l));
        lemma_mod_multiples_vanish(
            pow2((j - l - 1) as nat) as int,
            (i / pow2(l)) as int,
            2,
        );
        assert(pow2(l) * m == m * pow2(l)) by (nonlinear_arith);
    } else {
        if l > j {
            lemma_pow2_strictly_increases(j, l);
            lemma_pow2_unfold(j + 1);
            if j + 1 < l {
                lemma_pow2_strictly_increases(j + 1, l);
            }
            lemma_basic_div((i + pow2(j)) as int, pow2(l) as int);
        } else {
            lemma_hoist_over_denominator(i as int, 1, pow2(j));
            assert(pow2(j) * 1 == pow2(j));
        }
        lemma_basic_div(i as int, pow2(l) as int);
    }
}

/// Challenges beyond the bits of `i` do not count.
proof fn lemma_product_stops(powers: Seq<int>, i: nat, n: nat, m: nat)
    requires
        i < pow2(n),
        n <= m,
    ensures
        product(powers, i, m) == product(powers, i, n),
    decreases m,
{
    if n < m {
        lemma_product_stops(powers, i, n, (m - 1) as nat);
        if n < m - 1 {
            lemma_pow2_strictly_increases(n, (m - 1) as nat);
        }
        lemma_bits_of_sum(i, (m - 1) as nat, (m - 1) as nat);
    }
}

/// Below `j`, the bits of `i` + 2^`j` are those of `i`.
proof fn lemma_product_below(powers: Seq<int>, i: nat, j: nat, n: nat)
    requires
        i < pow2(j),
        n <= j,
    ensures
        product(powers, i + pow2(j), n) == product(powers, i, n),
    decreases n,
{
    if n > 0 {
        lemma_product_below(powers, i, j, (n - 1) as nat);
        lemma_bits_of_sum(i, j, (n - 1) as nat);
    }
}

/// Every challenge has a weight of its own: the empty product is one, and one more
/// bit brings one more factor. Bits beyond the challenges bring none.
pub proof fn lemma_pow_of_one_more_bit(powers: Seq<int>, i: nat, j: nat)
    requires
        i < pow2(j),
        j <= powers.len(),
    ensures
        pow_of(powers, 0) == 1,
        j < powers.len() ==> pow_of(powers, i + pow2(j)) == pow_of(powers, i) * powers[j as int],
        j < powers.len() ==> pow_of(powers, pow2(j)) == powers[j as int],
        j == powers.len() ==> pow_of(powers, i + pow2(j)) == pow_of(powers, i),
{
    let n = powers.len();
    lemma2_to64();
    lemma_pow2_pos(j);
    lemma_product_stops(powers, 0, 0, n);
    lemma_product_below(powers, i, j, j);
    lemma_product_stops(powers, i, j, n);
    if j < n {
        lemma_pow2_unfold(j + 1);
        lemma_product_stops(powers, i + pow2(j), j + 1, n);
        lemma_bits_of_sum(i, j, j);
        lemma_product_below(powers, 0, j, j);
        lemma_product_stops(powers, pow2(j), j + 1, n);
        lemma_bits_of_sum(0, j, j);
        lemma_product_stops(powers, 0, j, n);
        assert(product(powers, 0, j) * powers[j as int] == powers[j as int]) by {
            assert(1 * powers[j as int] == powers[j as int]);
        }
    }
}

/// Of the squares of squares of an element, the products are its powers.
pub proof fn lemma_pow_of_squares(powers: Seq<int>, x: int, i: nat, n: nat, p: int)
    requires
        p > 0,
        n <= powers.len(),
        i < pow2(n),
        forall|j: int|
            0 <= j < powers.len() ==> residues::cong(
                #[trigger] powers[j],
                pow(x, pow2(j as nat)),
                p,
            ),
    ensures
        residues::cong(pow_of(powers, i), pow(x, i), p),
    decreases n,
{
    lemma2_to64();
    if n == 0 {
        lemma_pow_of_one_more_bit(powers, 0, 0);
        lemma_pow0(x);
    } else {
        let j = (n - 1) as nat;
        lemma_pow2_unfold(n);
        if i < pow2(j) {
            lemma_pow_of_squares(powers, x, i, j, p);
        } else {
            let rest = (i - pow2(j)) as nat;
            lemma_pow_of_squares(powers, x, rest, j, p);
            lemma_pow_of_one_more_bit(powers, rest, j);
            residues::lemma_cong_ops(
                pow_of(powers, rest),
                pow(x, rest),
                powers[j as int],
                pow(x, pow2(j)),
                p,
            );
            lemma_pow_adds(x, rest, pow2(j));
        }
    }
}

} // verus!
