//! Unsigned integers of `N` and of `2 N` words of 64 bits.
use crate::limbs;
use vstd::arithmetic::power2::*;
use vstd::prelude::*;

verus! {

/// An integer of `N` words.
#[derive(Debug, Clone, Copy, PartialEq, Eq, PartialOrd, Ord)]
pub struct U64Words<const N: usize>([u64; N]);

/// An integer of `2 N` words, in two halves.
#[derive(Debug, Clone, Copy, PartialEq, Eq)]
pub struct U64Double<const N: usize> {
    low: U64Words<N>,
    high: U64Words<N>,
}

impl<const N: usize> View for U64Words<N> {
    type V = nat;

    open spec fn view(&self) -> nat {
        limbs::value_of(self.words(), limbs::word_count(N))
    }
}

impl<const N: usize> View for U64Double<N> {
    type V = nat;

    open spec fn view(&self) -> nat {
        limbs::value_of(self.words(), limbs::double_word_count(N))
    }
}

/// Returns the low word of `a + b + carry_in` and the carry out of it.
pub fn add64_with_carry(a: u64, b: u64, carry_in: u64) -> (r: (u64, u64))
    ensures
        r.0 + r.1 * pow2(64) == a + b + carry_in,
{
    let sum1: u64 = a.wrapping_add(b);
    let overflow1: u64 = if sum1 < a {
        1
    } else {
        0
    };
    let sum2: u64 = sum1.wrapping_add(carry_in);
    let overflow2: u64 = if sum2 < sum1 {
        1
    } else {
        0
    };
    proof {
        lemma2_to64_rest();
    }
    (sum2, overflow1 + overflow2)
}

/// Returns the low word of `a - b - borrow` and what had to be borrowed for it.
pub fn sub64_with_overflow(a: u64, b: u64, borrow: u64) -> (r: (u64, u64))
    ensures
        r.0 - r.1 * pow2(64) == a - b - borrow,
{
    let diff1: u64 = a.wrapping_sub(b);
    let overflow1: u64 = if a < b {
        1
    } else {
        0
    };
    let diff2: u64 = diff1.wrapping_sub(borrow);
    let overflow2: u64 = if diff1 < borrow {
        1
    } else {
        0
    };
    proof {
        lemma2_to64_rest();
    }
    (diff2, overflow1 + overflow2)
}

impl<const N: usize> U64Words<N> {
    /// The words, the least significant first.
    pub closed spec fn words(&self) -> Seq<u64> {
        self.0@
    }

    /// The value of an integer of `N` words is below 2^(64 N).
    pub proof fn lemma_range(&self)
        ensures
            self.words().len() == N,
            self@ < limbs::radix(N as nat),
    {
        limbs::lemma_value_bound(self.words(), N as nat);
    }

    /// Takes the words, the least significant first.
    pub fn from(val: [u64; N]) -> (r: Self)
        ensures
            r.words() == val@,
    {
        Self(val)
    }

    /// Takes a value that fits in one word.
    pub fn from_u64(val: u64) -> (r: Self)
        requires
            N > 0,
        ensures
            r@ == val,
    {
        let mut buffer = [0u64; N];
        buffer[0] = val;
        proof {
            limbs::lemma_value_truncate(buffer@, 1, N as nat);
            limbs::lemma_radix_step(0);
            reveal_with_fuel(limbs::value_of, 2);
            assert(limbs::value_of(buffer@, 1) == val as nat * limbs::radix(0));
            assert(val as nat * 1 == val);
        }
        Self(buffer)
    }

    /// Returns a copy.
    pub fn copy(&self) -> (r: Self)
        ensures
            r.words() == self.words(),
    {
        let mut buffer = Self::zero();
        let mut i: usize = 0;
        while i < N
            invariant
                i <= N,
                forall|j: int| 0 <= j < i ==> buffer.0@[j] == self.0@[j],
            decreases N - i,
        {
            buffer.0[i] = self.0[i];
            i += 1;
        }
        assert(buffer.0@ =~= self.0@);
        buffer
    }

    /// Returns zero.
    pub fn zero() -> (r: Self)
        ensures
            r@ == 0,
            forall|i: int| 0 <= i < N ==> r.words()[i] == 0,
    {
        let r = Self([0u64; N]);
        proof {
            limbs::lemma_value_zero(r.words(), N as nat);
        }
        r
    }

    /// Returns the greatest value.
    pub fn max() -> (r: Self)
        ensures
            r@ == limbs::radix(N as nat) - 1,
    {
        let r = Self([u64::MAX; N]);
        proof {
            limbs::lemma_value_max(r.words(), N as nat);
        }
        r
    }

    /// Returns the words as a slice.
    pub fn as_slice(&self) -> (r: &[u64])
        ensures
            r@ == self.words(),
    {
        self.0.as_slice()
    }

    /// Returns the words.
    pub fn value(&self) -> (r: [u64; N])
        ensures
            r@ == self.words(),
    {
        self.0
    }

    /// Returns the length of the binary representation.
    pub fn size_in_bits(&self) -> (r: usize)
        requires
            64 * N <= usize::MAX,
        ensures
            limbs::has_bits(self@, r),
            r <= 64 * N,
    {
        let mut i: usize = N;
        while i > 0
            invariant
                i <= N,
                64 * N <= usize::MAX,
                forall|j: int| i <= j < N ==> self.0@[j] == 0,
            decreases i,
        {
            if self.0[i - 1] != 0 {
                proof {
                    limbs::lemma_bit_length(self.0@, i as nat, N as nat);
                }
                return 64 * i - self.0[i - 1].leading_zeros() as usize;
            }
            i -= 1;
        }
        proof {
            limbs::lemma_value_zero(self.0@, N as nat);
        }
        0
    }

    /// Returns `self * 2^shift`, as far as it fits in `N` words.
    pub fn pow2(&self, shift: usize) -> (r: Self)
        requires
            64 * N <= usize::MAX,
        ensures
            r@ == limbs::shifted(self@, shift, limbs::word_count(N)),
    {
        let mut result = Self::zero();
        let shift_word: usize = shift / 64;
        let shift_bit: usize = shift % 64;
        let ghost mut q: nat = 0;
        let ghost sb = shift_bit as u64;
        proof {
            limbs::lemma_radix_step(0);
            lemma_pow2_pos(shift_bit as nat);
            assert(0 * pow2(64 * shift_word as nat + sb as nat) == 0);
        }
        let mut i: usize = 0;
        while i < N
            invariant
                i <= N,
                64 * N <= usize::MAX,
                shift_word == shift / 64,
                shift_bit == shift % 64,
                sb == shift_bit,
                limbs::free_from(result.0@, shift_word + i, sb),
                limbs::value_of(result.0@, N as nat) + q * limbs::radix(N as nat)
                    == limbs::value_of(self.0@, i as nat) * pow2(
                    64 * shift_word as nat + sb as nat,
                ),
            decreases N - i,
        {
            let ghost before = result.0@;
            if i + shift_word < N {
                result.0[shift_word + i] = result.0[shift_word + i] | (self.0[i] << shift_bit);
            }
            if shift_bit != 0 && shift_word + i + 1 < N {
                result.0[shift_word + i + 1] = result.0[shift_word + i + 1] | (self.0[i] >> (64
                    - shift_bit));
            }
            proof {
                assert(result.0@ =~= limbs::shift_word_into(
                    before,
                    self.0@[i as int],
                    shift_word + i,
                    sb,
                ));
                q = limbs::lemma_shift_step(before, self.0@, i as nat, shift_word as nat, sb, q);
            }
            i += 1;
        }
        proof {
            limbs::lemma_value_bound(result.0@, N as nat);
            assert(64 * shift_word as nat + sb as nat == shift as nat);
            limbs::lemma_remainder_is(
                self@ * pow2(shift as nat),
                q,
                result@,
                limbs::radix(N as nat),
            );
        }
        result
    }

    /// Returns -1 where `self < b`, 0 where they are equal and 1 where `self > b`.
    pub fn cmp(&self, b: &Self) -> (r: i32)
        ensures
            r == limbs::sign_of_difference(self@, b@),
    {
        let mut i: usize = N;
        while i > 0
            invariant
                i <= N,
                forall|j: int| i <= j < N ==> self.0@[j] == b.0@[j],
            decreases i,
        {
            i -= 1;
            if self.0[i] < b.0[i] {
                proof {
                    limbs::lemma_value_order_at(self.0@, b.0@, i, N);
                }
                return -1;
            }
            if self.0[i] > b.0[i] {
                proof {
                    limbs::lemma_value_order_at(b.0@, self.0@, i, N);
                }
                return 1;
            }
        }
        assert(self.0@ =~= b.0@);
        0
    }

    /// Returns `self + b + carry_in` in `N` words, and the carry out of them: it
    /// is above zero where the sum overflowed.
    pub fn add_with_carry(&self, b: &Self, carry_in: u64) -> (r: (Self, u64))
        ensures
            r.0@ + r.1 * limbs::radix(N as nat) == self@ + b@ + carry_in,
    {
        let mut result = Self::zero();
        let mut carry: u64 = carry_in;
        proof {
            limbs::lemma_radix_step(0);
        }
        let mut i: usize = 0;
        while i < N
            invariant
                i <= N,
                limbs::value_of(result.0@, i as nat) + carry * limbs::radix(i as nat)
                    == limbs::value_of(self.0@, i as nat) + limbs::value_of(b.0@, i as nat)
                    + carry_in,
            decreases N - i,
        {
            let ghost before = result.0@;
            let ghost carried = carry as int;
            let (sum, carry_out) = add64_with_carry(self.0[i], b.0[i], carry);
            result.0[i] = sum;
            carry = carry_out;
            proof {
                limbs::lemma_value_agrees(before, result.0@, i as nat);
                limbs::lemma_radix_step(i as nat);
                let x = self.0@[i as int] as int;
                let y = b.0@[i as int] as int;
                let r = limbs::radix(i as nat) as int;
                let base = pow2(64) as int;
                assert(sum * r + carry * (r * base) == x * r + y * r + carried * r)
                    by (nonlinear_arith)
                    requires
                        sum + carry * base == x + y + carried,
                ;
            }
            i += 1;
        }
        (result, carry)
    }

    /// Returns `self + b` in `N` words, and the carry out of them: it is above
    /// zero where the sum overflowed.
    pub fn add(&self, b: &Self) -> (r: (Self, u64))
        ensures
            r.0@ + r.1 * limbs::radix(N as nat) == self@ + b@,
    {
        self.add_with_carry(b, 0u64)
    }

    /// Returns `self - b - borrow_in` in `N` words, and what had to be borrowed:
    /// it is above zero where the difference is negative.
    pub fn sub_with_borrow(&self, b: &Self, borrow_in: u64) -> (r: (Self, u64))
        ensures
            r.0@ - r.1 * limbs::radix(N as nat) == self@ - b@ - borrow_in,
    {
        let mut res = Self::zero();
        let mut borrow: u64 = borrow_in;
        proof {
            limbs::lemma_radix_step(0);
        }
        let mut i: usize = 0;
        while i < N
            invariant
                i <= N,
                limbs::value_of(res.0@, i as nat) - borrow * limbs::radix(i as nat)
                    == limbs::value_of(self.0@, i as nat) - limbs::value_of(b.0@, i as nat)
                    - borrow_in,
            decreases N - i,
        {
            let ghost before = res.0@;
            let ghost borrowed = borrow as int;
            let (diff, overflow) = sub64_with_overflow(self.0[i], b.0[i], borrow);
            res.0[i] = diff;
            borrow = overflow;
            proof {
                limbs::lemma_value_agrees(before, res.0@, i as nat);
                limbs::lemma_radix_step(i as nat);
                let x = self.0@[i as int] as int;
                let y = b.0@[i as int] as int;
                let r = limbs::radix(i as nat) as int;
                let base = pow2(64) as int;
                assert(diff * r - borrow * (r * base) == x * r - y * r - borrowed * r)
                    by (nonlinear_arith)
                    requires
                        diff - borrow * base == x - y - borrowed,
                ;
            }
            i += 1;
        }
        (res, borrow)
    }

    /// Returns `self - b` in `N` words, and what had to be borrowed: it is above
    /// zero where the difference is negative.
    pub fn sub(&self, b: &Self) -> (r: (Self, u64))
        ensures
            r.0@ - r.1 * limbs::radix(N as nat) == self@ - b@,
    {
        self.sub_with_borrow(b, 0u64)
    }
}

impl<const N: usize> U64Double<N> {
    /// The words, the least significant first.
    pub closed spec fn words(&self) -> Seq<u64> {
        self.low.words() + self.high.words()
    }

    /// The value of an integer of `2 N` words is below 2^(128 N).
    pub proof fn lemma_range(&self)
        ensures
            self.words().len() == 2 * N,
            self@ < limbs::radix(2 * N as nat),
    {
        limbs::lemma_value_bound(self.words(), 2 * N as nat);
    }

    /// The halves weigh 1 and 2^(64 N).
    proof fn lemma_halves(&self)
        ensures
            self@ == self.low@ + self.high@ * limbs::radix(N as nat),
            self.low@ < limbs::radix(N as nat),
            self.high@ < limbs::radix(N as nat),
    {
        limbs::lemma_value_concat(self.low.words(), self.high.words(), N as nat);
        self.low.lemma_range();
        self.high.lemma_range();
    }

    /// Takes the words, the least significant first.
    pub fn from(val: &[u64]) -> (r: Self)
        requires
            val@.len() == 2 * N,
        ensures
            r.words() == val@,
    {
        let mut low = [0u64; N];
        let mut high = [0u64; N];
        let mut i: usize = 0;
        while i < N
            invariant
                i <= N,
                val@.len() == 2 * N,
                forall|j: int| 0 <= j < i ==> low@[j] == val@[j] && high@[j] == val@[N + j],
            decreases N - i,
        {
            low[i] = val[i];
            high[i] = val[N + i];
            i += 1;
        }
        let r = Self { low: U64Words::<N>::from(low), high: U64Words::<N>::from(high) };
        assert(r.words() =~= val@);
        r
    }

    /// Takes a value that fits in the lower half.
    pub fn from_u64words(low: &U64Words<N>) -> (r: Self)
        ensures
            r@ == low@,
    {
        let high = U64Words::<N>::zero();
        let mut buffer_low = U64Words::<N>::zero();
        let mut i: usize = 0;
        while i < N
            invariant
                i <= N,
                forall|j: int| 0 <= j < i ==> buffer_low.0@[j] == low.0@[j],
            decreases N - i,
        {
            buffer_low.0[i] = low.0[i];
            i += 1;
        }
        assert(buffer_low.0@ =~= low.0@);
        let r = Self { low: buffer_low, high };
        proof {
            r.lemma_halves();
            assert(0 * limbs::radix(N as nat) == 0);
        }
        r
    }

    /// Returns a copy.
    pub fn copy(&self) -> (r: Self)
        ensures
            r.words() == self.words(),
    {
        let mut buffer_low = U64Words::<N>::zero();
        let mut buffer_high = U64Words::<N>::zero();
        let mut i: usize = 0;
        while i < N
            invariant
                i <= N,
                forall|j: int|
                    0 <= j < i ==> buffer_low.0@[j] == self.low.0@[j] && buffer_high.0@[j]
                        == self.high.0@[j],
            decreases N - i,
        {
            buffer_low.0[i] = self.low.0[i];
            buffer_high.0[i] = self.high.0[i];
            i += 1;
        }
        assert(buffer_low.0@ =~= self.low.0@);
        assert(buffer_high.0@ =~= self.high.0@);
        Self { low: buffer_low, high: buffer_high }
    }

    /// Returns zero.
    pub fn zero() -> (r: Self)
        ensures
            r@ == 0,
            forall|i: int| 0 <= i < 2 * N ==> r.words()[i] == 0,
    {
        let r = Self { low: U64Words::<N>::zero(), high: U64Words::<N>::zero() };
        proof {
            limbs::lemma_value_zero(r.words(), 2 * N as nat);
        }
        r
    }

    /// Returns the greatest value.
    pub fn max() -> (r: Self)
        ensures
            r@ == limbs::radix(2 * N as nat) - 1,
    {
        let r = Self { low: U64Words::<N>::max(), high: U64Words::<N>::max() };
        proof {
            r.lemma_halves();
            limbs::lemma_radix_adds(N as nat, N as nat);
            let b = limbs::radix(N as nat) as int;
            assert((b - 1) + (b - 1) * b == b * b - 1) by (nonlinear_arith);
        }
        r
    }

    /// Returns the length of the binary representation.
    pub fn size_in_bits(&self) -> (r: usize)
        requires
            128 * N <= usize::MAX,
        ensures
            limbs::has_bits(self@, r),
            r <= 128 * N,
    {
        let mut i: usize = N;
        while i > 0
            invariant
                i <= N,
                128 * N <= usize::MAX,
                forall|j: int| i <= j < N ==> self.high.0@[j] == 0,
            decreases i,
        {
            if self.high.0[i - 1] != 0 {
                proof {
                    let w = self.words();
                    assert(w[N + i - 1] == self.high.0@[i - 1]);
                    assert forall|j: int| N + i <= j < 2 * N implies w[j] == 0 by {
                        assert(w[j] == self.high.0@[j - N]);
                    }
                    limbs::lemma_bit_length(w, (N + i) as nat, 2 * N as nat);
                }
                return 64 * (N + i) - self.high.0[i - 1].leading_zeros() as usize;
            }
            i -= 1;
        }
        i = N;
        while i > 0
            invariant
                i <= N,
                128 * N <= usize::MAX,
                forall|j: int| 0 <= j < N ==> self.high.0@[j] == 0,
                forall|j: int| i <= j < N ==> self.low.0@[j] == 0,
            decreases i,
        {
            if self.low.0[i - 1] != 0 {
                proof {
                    let w = self.words();
                    assert(w[i - 1] == self.low.0@[i - 1]);
                    assert forall|j: int| i <= j < 2 * N implies w[j] == 0 by {
                        if j < N {
                            assert(w[j] == self.low.0@[j]);
                        } else {
                            assert(w[j] == self.high.0@[j - N]);
                        }
                    }
                    limbs::lemma_bit_length(w, i as nat, 2 * N as nat);
                }
                return 64 * i - self.low.0[i - 1].leading_zeros() as usize;
            }
            i -= 1;
        }
        proof {
            limbs::lemma_value_zero(self.words(), 2 * N as nat);
        }
        0
    }

    /// Returns the word at `index`.
    pub fn get(&self, index: usize) -> (r: u64)
        requires
            index < 2 * N <= usize::MAX,
        ensures
            r == self.words()[index as int],
    {
        if index < N {
            return self.low.0[index];
        }
        self.high.0[index - N]
    }

    /// Replaces the word at `index`.
    pub fn modify(&mut self, value: u64, index: usize)
        requires
            index < 2 * N <= usize::MAX,
        ensures
            final(self).words() == old(self).words().update(index as int, value),
    {
        let ghost before = self.words();
        if index < N {
            self.low.0[index] = value;
        } else {
            self.high.0[index - N] = value;
        }
        assert(self.words() =~= before.update(index as int, value));
    }

    /// Returns `self * 2^shift`, as far as it fits in `2 N` words.
    pub fn pow2(&self, shift: usize) -> (r: Self)
        requires
            128 * N <= usize::MAX,
        ensures
            r@ == limbs::shifted(self@, shift, limbs::double_word_count(N)),
    {
        let mut result = Self::zero();
        let shift_word: usize = shift / 64;
        let shift_bit: usize = shift % 64;
        let ghost mut q: nat = 0;
        let ghost sb = shift_bit as u64;
        proof {
            result.lemma_range();
            self.lemma_range();
            limbs::lemma_radix_step(0);
            lemma_pow2_pos(shift_bit as nat);
            assert(0 * pow2(64 * shift_word as nat + sb as nat) == 0);
        }
        let mut i: usize = 0;
        while i < 2 * N
            invariant
                i <= 2 * N,
                128 * N <= usize::MAX,
                shift_word == shift / 64,
                shift_bit == shift % 64,
                sb == shift_bit,
                result.words().len() == 2 * N,
                self.words().len() == 2 * N,
                limbs::free_from(result.words(), shift_word + i, sb),
                result@ + q * limbs::radix(2 * N as nat) == limbs::value_of(
                    self.words(),
                    i as nat,
                ) * pow2(64 * shift_word as nat + sb as nat),
            decreases 2 * N - i,
        {
            let ghost before = result.words();
            if i + shift_word < 2 * N {
                let value: u64 = result.get(shift_word + i) | (self.get(i) << shift_bit);
                result.modify(value, shift_word + i);
            }
            if shift_bit != 0 && shift_word + i + 1 < 2 * N {
                let value: u64 = result.get(shift_word + i + 1) | (self.get(i) >> (64 - shift_bit));
                result.modify(value, shift_word + i + 1);
            }
            proof {
                assert(result.words() =~= limbs::shift_word_into(
                    before,
                    self.words()[i as int],
                    shift_word + i,
                    sb,
                ));
                q = limbs::lemma_shift_step(
                    before,
                    self.words(),
                    i as nat,
                    shift_word as nat,
                    sb,
                    q,
                );
            }
            i += 1;
        }
        proof {
            result.lemma_range();
            assert(64 * shift_word as nat + sb as nat == shift as nat);
            limbs::lemma_remainder_is(
                self@ * pow2(shift as nat),
                q,
                result@,
                limbs::radix(2 * N as nat),
            );
        }
        result
    }

    /// Returns -1 where `self < b`, 0 where they are equal and 1 where `self > b`.
    pub fn cmp(&self, b: &Self) -> (r: i32)
        ensures
            r == limbs::sign_of_difference(self@, b@),
    {
        let cmp_high: i32 = self.high.cmp(&b.high);
        proof {
            self.lemma_halves();
            b.lemma_halves();
            limbs::lemma_halves_order(
                self.low@,
                self.high@,
                b.low@,
                b.high@,
                limbs::radix(limbs::word_count(N)),
            );
        }
        if cmp_high == 0 {
            return self.low.cmp(&b.low);
        }
        cmp_high
    }

    /// Returns `self + b` in `2 N` words, and the carry out of them: it is above
    /// zero where the sum overflowed.
    pub fn add(&self, b: &Self) -> (r: (Self, u64))
        ensures
            r.0@ + r.1 * limbs::radix(2 * N as nat) == self@ + b@,
    {
        let (sum_low, carry_low) = self.low.add(&b.low);
        let (sum_high, carry) = self.high.add_with_carry(&b.high, carry_low);
        let sum = Self { low: sum_low, high: sum_high };
        proof {
            self.lemma_halves();
            b.lemma_halves();
            sum.lemma_halves();
            limbs::lemma_radix_adds(N as nat, N as nat);
            let r = limbs::radix(N as nat) as int;
            let (x, y, z) = (self.high@ as int, b.high@ as int, sum_high@ as int);
            let (c, d) = (carry_low as int, carry as int);
            assert(z * r + d * (r * r) == x * r + y * r + c * r) by (nonlinear_arith)
                requires
                    z + d * r == x + y + c,
            ;
        }
        (sum, carry)
    }

    /// Returns `self - b` in `2 N` words, and what had to be borrowed: it is above
    /// zero where the difference is negative.
    pub fn sub(&self, b: &Self) -> (r: (Self, u64))
        ensures
            r.0@ - r.1 * limbs::radix(2 * N as nat) == self@ - b@,
    {
        let (diff_low, borrow_low) = self.low.sub(&b.low);
        let (diff_high, borrow) = self.high.sub_with_borrow(&b.high, borrow_low);
        let diff = Self { low: diff_low, high: diff_high };
        proof {
            self.lemma_halves();
            b.lemma_halves();
            diff.lemma_halves();
            limbs::lemma_radix_adds(N as nat, N as nat);
            let r = limbs::radix(N as nat) as int;
            let (x, y, z) = (self.high@ as int, b.high@ as int, diff_high@ as int);
            let (c, d) = (borrow_low as int, borrow as int);
            assert(z * r - d * (r * r) == x * r - y * r - c * r) by (nonlinear_arith)
                requires
                    z - d * r == x - y - c,
            ;
        }
        (diff, borrow)
    }

    /// Returns the remainder of `self` by `d`. It serves to reduce the product of
    /// two numbers.
    pub fn modulo_half(&self, d: &U64Words<N>) -> (r: U64Words<N>)
        requires
            128 * N <= usize::MAX,
            d@ != 0 || self@ == 0,
        ensures
            r@ == limbs::remainder(self@, d@),
    {
        let mut result = self.copy();
        let mut size_result: usize = result.size_in_bits();
        let size_modulus: usize = d.size_in_bits();
        let modulus_double = Self::from_u64words(d);
        let size_words: usize = 64 * N;
        while size_result > size_words
            invariant
                128 * N <= usize::MAX,
                size_words == 64 * N,
                modulus_double@ == d@,
                limbs::has_bits(d@, size_modulus),
                size_modulus <= 64 * N,
                limbs::has_bits(result@, size_result),
                d@ != 0 || self@ == 0,
                limbs::remainder(result@, d@) == limbs::remainder(self@, d@),
            decreases result@,
        {
            let diff_size: usize = size_result - size_modulus;
            proof {
                result.lemma_range();
                limbs::lemma_reduce_step(
                    result@,
                    size_result,
                    d@,
                    size_modulus,
                    limbs::double_word_count(N),
                );
            }
            let mut shifted_modulus = modulus_double.pow2(diff_size);
            if shifted_modulus.cmp(&result) == 1 {
                if diff_size > 1 {
                    shifted_modulus = modulus_double.pow2(diff_size - 1);
                } else {
                    shifted_modulus = modulus_double.copy();
                }
            }
            let (diff, _borrow) = result.sub(&shifted_modulus);
            proof {
                diff.lemma_range();
                result.lemma_range();
                limbs::lemma_no_borrow(
                    result@,
                    shifted_modulus@,
                    diff@,
                    _borrow,
                    limbs::radix(limbs::double_word_count(N)),
                );
            }
            result = diff;
            size_result = result.size_in_bits();
        }
        proof {
            result.lemma_halves();
            limbs::lemma_fits_below(result@, size_result, N, result.low@, result.high@);
        }
        result.low.modulo(d)
    }
}

impl<const N: usize> U64Words<N> {
    /// Returns `self * b`.
    pub fn mul(&self, b: &Self) -> (r: U64Double<N>)
        requires
            2 * N <= usize::MAX,
        ensures
            r@ == self@ * b@,
    {
        let mut result = U64Double::<N>::zero();
        let mut i: usize = 0;
        assert(0 * b@ == 0);
        while i < N
            invariant
                i <= N,
                2 * N <= usize::MAX,
                result@ == limbs::value_of(self.0@, i as nat) * b@,
            decreases N - i,
        {
            let mut j: usize = 0;
            proof {
                let w = self.0@[i as int] as int;
                let r = limbs::radix(i as nat) as int;
                assert(w * 0 * r == 0) by (nonlinear_arith);
            }
            while j < N
                invariant
                    i < N,
                    j <= N,
                    2 * N <= usize::MAX,
                    result@ == limbs::value_of(self.0@, i as nat) * b@ + self.0@[i as int]
                        * limbs::value_of(b.0@, j as nat) * limbs::radix(i as nat),
                decreases N - j,
            {
                let ghost start = result@;
                let ghost target = result@ + (self.0@[i as int] * b.0@[j as int]) * limbs::radix(
                    (i + j) as nat,
                );
                proof {
                    limbs::lemma_product_step(self.0@, b.0@, i as nat, j as nat, N as nat);
                    limbs::lemma_word_product(self.0@[i as int], b.0@[j as int]);
                    result.lemma_range();
                }
                let rij: u128 = (self.0[i] as u128) * (b.0[j] as u128);
                let lo: u64 = (rij & 0xFFFFFFFFFFFFFFFF) as u64;
                let hi: u64 = (rij >> 64) as u64;
                let ghost before = result.words();
                let (sum, mut carry) = add64_with_carry(result.get(i + j), lo, 0);
                result.modify(sum, i + j);
                let mut k: usize = i + j + 1;
                let mut value: u64 = hi;
                proof {
                    limbs::lemma_split_product(rij, lo, hi);
                    limbs::lemma_value_update(before, i + j, sum, 2 * N as nat);
                    limbs::lemma_radix_step((i + j) as nat);
                    let r = limbs::radix((i + j) as nat) as int;
                    let base = pow2(64) as int;
                    let x = before[i + j] as int;
                    assert(sum * r + (hi + carry) * (r * base) == x * r + rij * r)
                        by (nonlinear_arith)
                        requires
                            sum + carry * base == x + lo,
                            rij == lo + hi * base,
                    ;
                }
                while value != 0 || carry != 0
                    invariant
                        2 * N <= usize::MAX,
                        k <= 2 * N,
                        result.words().len() == 2 * N,
                        result@ + (value + carry) * limbs::radix(k as nat) == target,
                        target < limbs::radix(2 * N as nat),
                    decreases 2 * N - k,
                {
                    proof {
                        limbs::lemma_top_word(
                            result@,
                            (value + carry) as nat,
                            k as nat,
                            target as nat,
                            2 * N as nat,
                        );
                    }
                    let ghost before = result.words();
                    let ghost added = value + carry;
                    let (s, c) = add64_with_carry(result.get(k), value, carry);
                    result.modify(s, k);
                    carry = c;
                    value = 0;
                    proof {
                        limbs::lemma_value_update(before, k as int, s, 2 * N as nat);
                        limbs::lemma_radix_step(k as nat);
                        let r = limbs::radix(k as nat) as int;
                        let base = pow2(64) as int;
                        let x = before[k as int] as int;
                        assert(s * r + c * (r * base) == x * r + added * r) by (nonlinear_arith)
                            requires
                                s + c * base == x + added,
                        ;
                    }
                    k += 1;
                }
                j += 1;
            }
            proof {
                let a = limbs::value_of(self.0@, i as nat) as int;
                let w = self.0@[i as int] as int;
                let r = limbs::radix(i as nat) as int;
                let y = b@ as int;
                assert(a * y + w * y * r == (a + w * r) * y) by (nonlinear_arith);
            }
            i += 1;
        }
        result
    }

    /// Returns the remainder of `self` by `modulus`.
    pub fn modulo(&self, modulus: &Self) -> (r: Self)
        requires
            64 * N <= usize::MAX,
            modulus@ != 0 || self@ == 0,
        ensures
            r@ == limbs::remainder(self@, modulus@),
    {
        let mut result = self.copy();
        if self.cmp(modulus) == -1 {
            proof {
                limbs::lemma_below_is_remainder(self@, modulus@);
            }
            return result;
        }
        let mut size_result: usize = result.size_in_bits();
        let size_modulus: usize = modulus.size_in_bits();
        while size_result >= size_modulus
            invariant
                64 * N <= usize::MAX,
                limbs::has_bits(modulus@, size_modulus),
                limbs::has_bits(result@, size_result),
                modulus@ != 0 || self@ == 0,
                limbs::remainder(result@, modulus@) == limbs::remainder(self@, modulus@),
            decreases result@,
        {
            let diff_size: usize = size_result - size_modulus;
            let mut shifted_modulus;
            if diff_size != 0 {
                proof {
                    result.lemma_range();
                    limbs::lemma_reduce_step(
                        result@,
                        size_result,
                        modulus@,
                        size_modulus,
                        limbs::word_count(N),
                    );
                }
                shifted_modulus = modulus.pow2(diff_size);
                if shifted_modulus.cmp(&result) == 1 {
                    if diff_size > 1 {
                        shifted_modulus = modulus.pow2(diff_size - 1);
                    } else {
                        shifted_modulus = modulus.copy();
                    }
                }
            } else if modulus.cmp(&result) == 1 {
                proof {
                    limbs::lemma_below_is_remainder(result@, modulus@);
                }
                return result;
            } else {
                let (difference, _borrow) = result.sub(modulus);
                proof {
                    difference.lemma_range();
                    result.lemma_range();
                    limbs::lemma_no_borrow(
                        result@,
                        modulus@,
                        difference@,
                        _borrow,
                        limbs::radix(limbs::word_count(N)),
                    );
                    if modulus@ != 0 {
                        limbs::lemma_reduce_last(result@, modulus@, size_result);
                    }
                }
                return difference;
            }
            let (difference, _borrow) = result.sub(&shifted_modulus);
            proof {
                difference.lemma_range();
                result.lemma_range();
                limbs::lemma_no_borrow(
                    result@,
                    shifted_modulus@,
                    difference@,
                    _borrow,
                    limbs::radix(limbs::word_count(N)),
                );
            }
            result = difference;
            size_result = result.size_in_bits();
        }
        proof {
            limbs::lemma_reduce_done(result@, size_result, modulus@, size_modulus);
        }
        result
    }
}

} // verus!
