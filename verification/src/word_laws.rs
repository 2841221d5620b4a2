//! What the operations on integers of words have to do with each other.
use crate::limbs;
use crate::words::{U64Double, U64Words};
use vstd::arithmetic::div_mod::*;
use vstd::arithmetic::mul::*;
use vstd::arithmetic::power2::*;
use vstd::prelude::*;

verus! {

/// Two sequences of words with the same value are the same.
proof fn lemma_value_determines(s: Seq<u64>, t: Seq<u64>, n: nat)
    requires
        s.len() >= n,
        t.len() >= n,
        limbs::value_of(s, n) == limbs::value_of(t, n),
    ensures
        forall|i: int| 0 <= i < n ==> s[i] == t[i],
    decreases n,
{
    if n > 0 {
        let m = (n - 1) as nat;
        let r = limbs::radix(m);
        limbs::lemma_value_bound(s, m);
        limbs::lemma_value_bound(t, m);
        let (a, b) = (s[n - 1] as nat, t[n - 1] as nat);
        lemma_mul_is_commutative(a as int, r as int);
        lemma_mul_is_commutative(b as int, r as int);
        lemma_fundamental_div_mod_converse(
            limbs::value_of(s, n) as int,
            r as int,
            a as int,
            limbs::value_of(s, m) as int,
        );
        lemma_fundamental_div_mod_converse(
            limbs::value_of(t, n) as int,
            r as int,
            b as int,
            limbs::value_of(t, m) as int,
        );
        lemma_value_determines(s, t, m);
    }
}

/// An integer has one representation only: equal values have equal words.
pub proof fn lemma_words_determined<const N: usize>(a: U64Words<N>, b: U64Words<N>)
    requires
        a@ == b@,
    ensures
        a.words() == b.words(),
{
    a.lemma_range();
    b.lemma_range();
    lemma_value_determines(a.words(), b.words(), N as nat);
    assert(a.words() =~= b.words());
}

/// The same of integers of twice as many words.
pub proof fn lemma_double_words_determined<const N: usize>(a: U64Double<N>, b: U64Double<N>)
    requires
        a@ == b@,
    ensures
        a.words() == b.words(),
{
    a.lemma_range();
    b.lemma_range();
    lemma_value_determines(a.words(), b.words(), 2 * N as nat);
    assert(a.words() =~= b.words());
}

/// Subtraction undoes addition: the sum in `N` words, less what was added, is the
/// first integer again, and as much is borrowed as was carried.
pub proof fn lemma_sub_undoes_add<const N: usize>(
    a: U64Words<N>,
    b: U64Words<N>,
    sum: U64Words<N>,
    carry: u64,
    difference: U64Words<N>,
    borrow: u64,
)
    requires
        sum@ + carry * limbs::radix(N as nat) == a@ + b@,
        difference@ - borrow * limbs::radix(N as nat) == sum@ - b@,
    ensures
        difference@ == a@,
        borrow == carry,
{
    let r = limbs::radix(N as nat) as int;
    a.lemma_range();
    difference.lemma_range();
    let (c, e) = (carry as int, borrow as int);
    assert(difference@ - a@ == (e - c) * r) by (nonlinear_arith)
        requires
            difference@ - e * r == a@ - c * r,
    ;
    assert(e == c) by (nonlinear_arith)
        requires
            -r < (e - c) * r < r,
            r > 0,
    ;
}

/// A sum is carried if and only if it does not fit.
pub proof fn lemma_carry_means_overflow<const N: usize>(
    a: U64Words<N>,
    b: U64Words<N>,
    sum: U64Words<N>,
    carry: u64,
)
    requires
        sum@ + carry * limbs::radix(N as nat) == a@ + b@,
    ensures
        carry > 0 <==> a@ + b@ >= limbs::radix(N as nat),
{
    let r = limbs::radix(N as nat) as int;
    sum.lemma_range();
    let c = carry as int;
    if carry > 0 {
        assert(c * r >= r) by (nonlinear_arith)
            requires
                c >= 1,
                r > 0,
        ;
    } else {
        assert(0 * r == 0);
    }
}

/// A difference is borrowed for if and only if it is negative.
pub proof fn lemma_borrow_means_negative<const N: usize>(
    a: U64Words<N>,
    b: U64Words<N>,
    difference: U64Words<N>,
    borrow: u64,
)
    requires
        difference@ - borrow * limbs::radix(N as nat) == a@ - b@,
    ensures
        borrow > 0 <==> a@ < b@,
{
    let r = limbs::radix(N as nat) as int;
    difference.lemma_range();
    let c = borrow as int;
    if borrow > 0 {
        assert(c * r >= r) by (nonlinear_arith)
            requires
                c >= 1,
                r > 0,
        ;
    } else {
        assert(0 * r == 0);
    }
}

/// The comparison is an order: it turns round with its arguments, is zero for equal
/// integers only, and is transitive.
pub proof fn lemma_sign_is_an_order(a: nat, b: nat, c: nat)
    ensures
        limbs::sign_of_difference(a, b) == -limbs::sign_of_difference(b, a),
        limbs::sign_of_difference(a, b) == 0 <==> a == b,
        limbs::sign_of_difference(a, b) == -1 && limbs::sign_of_difference(b, c) == -1
            ==> limbs::sign_of_difference(a, c) == -1,
{
}

/// A product may be reduced in its factors: the product of two remainders, reduced,
/// is the reduced product, and lies below the modulus.
pub proof fn lemma_product_of_remainders(a: nat, b: nat, m: nat)
    requires
        m > 0,
    ensures
        limbs::remainder(limbs::remainder(a, m) * limbs::remainder(b, m), m) == limbs::remainder(
            a * b,
            m,
        ),
        limbs::remainder(a * b, m) < m,
        limbs::remainder(limbs::remainder(a, m), m) == limbs::remainder(a, m),
{
    lemma_mul_mod_noop(a as int, b as int, m as int);
    lemma_mod_twice(a as int, m as int);
    lemma_mod_bound((a * b) as int, m as int);
}

/// Two shifts are one shift by both amounts.
pub proof fn lemma_shifts_add(v: nat, s: usize, t: usize, words: nat)
    requires
        s + t <= usize::MAX,
    ensures
        limbs::shifted(limbs::shifted(v, s, words), t, words) == limbs::shifted(
            v,
            (s + t) as usize,
            words,
        ),
{
    let r = limbs::radix(words) as int;
    limbs::lemma_radix_step(words);
    lemma_pow2_adds(s as nat, t as nat);
    let (p, q) = (pow2(s as nat) as int, pow2(t as nat) as int);
    lemma_mul_mod_noop_left(v * p, q, r);
    assert((v * p) * q == v * (p * q)) by (nonlinear_arith);
}

/// Reducing the factors first does not change the product up to multiples of the
/// modulus: the words of both remainders are the same.
pub proof fn lemma_factors_may_be_reduced<const N: usize>(
    a: U64Words<N>,
    b: U64Words<N>,
    d: U64Words<N>,
    reduced_a: U64Words<N>,
    reduced_b: U64Words<N>,
    product: U64Double<N>,
    reduced_product: U64Double<N>,
    r: U64Words<N>,
    s: U64Words<N>,
)
    requires
        d@ > 0,
        reduced_a@ == limbs::remainder(a@, d@),
        reduced_b@ == limbs::remainder(b@, d@),
        product@ == a@ * b@,
        reduced_product@ == reduced_a@ * reduced_b@,
        r@ == limbs::remainder(product@, d@),
        s@ == limbs::remainder(reduced_product@, d@),
    ensures
        r.words() == s.words(),
{
    lemma_product_of_remainders(a@, b@, d@);
    lemma_words_determined(r, s);
}

/// On an integer of `N` words both remainders agree.
pub proof fn lemma_remainders_agree<const N: usize>(
    a: U64Words<N>,
    double: U64Double<N>,
    d: U64Words<N>,
    r: U64Words<N>,
    s: U64Words<N>,
)
    requires
        double@ == a@,
        r@ == limbs::remainder(double@, d@),
        s@ == limbs::remainder(a@, d@),
    ensures
        r.words() == s.words(),
{
    lemma_words_determined(r, s);
}

/// Two shifts have the words of one shift by both amounts, and a shift by zero leaves
/// the words as they are.
pub proof fn lemma_shifts_compose<const N: usize>(
    a: U64Words<N>,
    s: usize,
    t: usize,
    once: U64Words<N>,
    twice: U64Words<N>,
    at_once: U64Words<N>,
    unmoved: U64Words<N>,
)
    requires
        s + t <= usize::MAX,
        once@ == limbs::shifted(a@, s, limbs::word_count(N)),
        twice@ == limbs::shifted(once@, t, limbs::word_count(N)),
        at_once@ == limbs::shifted(a@, (s + t) as usize, limbs::word_count(N)),
        unmoved@ == limbs::shifted(a@, 0, limbs::word_count(N)),
    ensures
        twice.words() == at_once.words(),
        unmoved.words() == a.words(),
{
    lemma_shifts_add(a@, s, t, limbs::word_count(N));
    lemma_words_determined(twice, at_once);
    a.lemma_range();
    lemma2_to64();
    lemma_small_mod(a@, limbs::radix(N as nat));
    assert(a@ * 1 == a@);
    lemma_words_determined(unmoved, a);
}

/// The value of words, the low word first: each word weighs 2^64 times as much as the
/// one before it.
pub proof fn lemma_value_from_low_word(s: Seq<u64>, n: nat)
    requires
        n < s.len(),
    ensures
        limbs::value_of(s, 0) == 0,
        limbs::value_of(s, n + 1) == s[0] + 0x1_0000_0000_0000_0000 * limbs::value_of(
            s.skip(1),
            n,
        ),
{
    let low = s.take(1);
    let high = s.skip(1);
    limbs::lemma_radix_step(0);
    limbs::lemma_value_concat(low, high, n);
    assert(low + high =~= s);
    assert(limbs::value_of(low, 1) == limbs::value_of(low, 0) + low[0] as nat * limbs::radix(0));
    assert(low[0] as nat * 1 == low[0] as nat);
    lemma_mul_is_commutative(limbs::value_of(high, n) as int, limbs::radix(1) as int);
}

/// The value of an integer is that of all its words, and lies below 2^(64 N).
pub proof fn lemma_value_of_all_words<const N: usize>(a: U64Words<N>, b: U64Double<N>)
    ensures
        a.words().len() == N,
        a@ == limbs::value_of(a.words(), a.words().len()),
        a@ < pow2(64 * N as nat),
        b.words().len() == 2 * N,
        b@ == limbs::value_of(b.words(), b.words().len()),
        b@ < pow2(128 * N as nat),
{
    a.lemma_range();
    b.lemma_range();
    assert(64 * (2 * N as nat) == 128 * N as nat);
}

/// A remainder is what is left of a multiple of the divisor, and less than the
/// divisor. Zero divides nothing off.
pub proof fn lemma_remainder_is_left_over(a: nat, m: nat)
    ensures
        m > 0 ==> limbs::remainder(a, m) < m && exists|q: nat|
            a == #[trigger] (q * m) + limbs::remainder(a, m),
        m == 0 ==> limbs::remainder(a, m) == a,
{
    if m > 0 {
        lemma_fundamental_div_mod(a as int, m as int);
        lemma_mod_bound(a as int, m as int);
        let q = a / m;
        lemma_mul_is_commutative(m as int, q as int);
        assert(a == q * m + limbs::remainder(a, m));
    }
}

/// A shift by nothing cuts off what the words do not hold, and each further bit
/// doubles.
pub proof fn lemma_shift_doubles(v: nat, s: usize, words: nat)
    requires
        s < usize::MAX,
    ensures
        limbs::shifted(v, 0, words) == v % pow2(64 * words),
        limbs::shifted(v, (s + 1) as usize, words) == (2 * limbs::shifted(v, s, words)) % pow2(
            64 * words,
        ),
{
    let r = pow2(64 * words);
    lemma_pow2_pos(64 * words);
    lemma2_to64();
    assert(v * 1 == v);
    lemma_pow2_unfold((s + 1) as nat);
    let w = v * pow2(s as nat);
    let t = pow2(s as nat);
    assert(v * (2 * t) == 2 * (v * t)) by (nonlinear_arith);
    lemma_mul_mod_noop_right(2, w as int, r as int);
}

/// A number has the bits that it needs and no more.
pub proof fn lemma_bits_are_least(v: nat, bits: usize)
    requires
        limbs::has_bits(v, bits),
    ensures
        v < pow2(bits as nat),
        forall|fewer: nat| fewer < bits ==> #[trigger] pow2(fewer) <= v,
{
    lemma2_to64();
    assert forall|fewer: nat| fewer < bits implies #[trigger] pow2(fewer) <= v by {
        if fewer < bits - 1 {
            lemma_pow2_strictly_increases(fewer, (bits - 1) as nat);
        }
    }
}

/// The sign of a difference tells the order.
pub proof fn lemma_sign_tells_order(a: nat, b: nat)
    ensures
        limbs::sign_of_difference(a, b) < 0 <==> a < b,
        limbs::sign_of_difference(a, b) > 0 <==> a > b,
        -1 <= limbs::sign_of_difference(a, b) <= 1,
{
}

} // verus!
