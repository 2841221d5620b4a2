//! The number that a sequence of 64-bit words stands for, and what happens to
//! it when words are read, replaced, shifted or compared.
use vstd::arithmetic::div_mod::*;
use vstd::arithmetic::power2::*;
use vstd::bits::*;
use vstd::prelude::*;
use vstd::std_specs::bits::*;

verus! {

/// The weight of the word at index `i`: 2^(64 i).
pub open spec fn radix(i: nat) -> nat {
    pow2(64 * i)
}

/// The value of the first `n` words of `s`, the least significant word first.
pub open spec fn value_of(s: Seq<u64>, n: nat) -> nat
    decreases n,
{
    if n == 0 {
        0
    } else {
        value_of(s, (n - 1) as nat) + s[n - 1] as nat * radix((n - 1) as nat)
    }
}

/// `bits` is the length of the binary representation of `v`.
pub open spec fn is_bit_length(v: nat, bits: nat) -> bool {
    if v == 0 {
        bits == 0
    } else {
        bits > 0 && pow2((bits - 1) as nat) <= v < pow2(bits)
    }
}

/// The remainder of `a` by `m`; `a` itself where `m` is zero.
pub open spec fn remainder(a: nat, m: nat) -> nat {
    if m == 0 {
        a
    } else {
        a % m
    }
}

/// The number of words of an integer of `n` words.
pub open spec fn word_count(n: usize) -> nat {
    n as nat
}

/// The number of words of an integer of `2 n` words.
pub open spec fn double_word_count(n: usize) -> nat {
    2 * n as nat
}

/// `v` times 2^`shift`, as far as it fits in `words` words.
pub open spec fn shifted(v: nat, shift: usize, words: nat) -> nat {
    (v * pow2(shift as nat)) % radix(words)
}

/// `bits` is the length of the binary representation of `v`.
pub open spec fn has_bits(v: nat, bits: usize) -> bool {
    is_bit_length(v, bits as nat)
}

/// The sign of the comparison of `a` with `b`: -1, 0 or 1.
pub open spec fn sign_of_difference(a: nat, b: nat) -> int {
    if a < b {
        -1
    } else if a == b {
        0
    } else {
        1
    }
}

pub proof fn lemma_radix_step(i: nat)
    ensures
        radix(i + 1) == radix(i) * pow2(64),
        radix(i) > 0,
        radix(0) == 1,
        pow2(64) == 0x1_0000_0000_0000_0000,
{
    lemma_pow2_adds(64 * i, 64);
    lemma_pow2_pos(64 * i);
    lemma2_to64();
    lemma2_to64_rest();
}

pub proof fn lemma_radix_adds(i: nat, j: nat)
    ensures
        radix(i + j) == radix(i) * radix(j),
        radix(i) > 0,
{
    lemma_pow2_adds(64 * i, 64 * j);
    lemma_pow2_pos(64 * i);
}

pub proof fn lemma_radix_increases(i: nat, j: nat)
    requires
        i <= j,
    ensures
        0 < radix(i) <= radix(j),
{
    lemma_radix_adds(i, (j - i) as nat);
    lemma_radix_adds((j - i) as nat, i);
    let a = radix(i) as int;
    let b = radix((j - i) as nat) as int;
    assert(a <= a * b) by (nonlinear_arith)
        requires
            a > 0,
            b > 0,
    ;
}

pub proof fn lemma_value_bound(s: Seq<u64>, n: nat)
    ensures
        value_of(s, n) < radix(n),
    decreases n,
{
    lemma_radix_step(0);
    if n > 0 {
        let m = (n - 1) as nat;
        lemma_value_bound(s, m);
        lemma_radix_step(m);
        let r = radix(m) as int;
        let w = s[m as int] as int;
        assert(w * r <= 0xffff_ffff_ffff_ffff * r) by (nonlinear_arith)
            requires
                0 <= w <= 0xffff_ffff_ffff_ffff,
                r > 0,
        ;
    }
}

pub proof fn lemma_value_agrees(s: Seq<u64>, t: Seq<u64>, n: nat)
    requires
        forall|i: int| 0 <= i < n ==> s[i] == t[i],
    ensures
        value_of(s, n) == value_of(t, n),
    decreases n,
{
    if n > 0 {
        lemma_value_agrees(s, t, (n - 1) as nat);
    }
}

pub proof fn lemma_value_zero(s: Seq<u64>, n: nat)
    requires
        forall|i: int| 0 <= i < n ==> s[i] == 0,
    ensures
        value_of(s, n) == 0,
    decreases n,
{
    if n > 0 {
        lemma_value_zero(s, (n - 1) as nat);
    }
}

/// Words from `m` on that are all zero add nothing.
pub proof fn lemma_value_truncate(s: Seq<u64>, m: nat, n: nat)
    requires
        m <= n,
        forall|i: int| m <= i < n ==> s[i] == 0,
    ensures
        value_of(s, n) == value_of(s, m),
    decreases n,
{
    if m < n {
        lemma_value_truncate(s, m, (n - 1) as nat);
    }
}

pub proof fn lemma_value_max(s: Seq<u64>, n: nat)
    requires
        forall|i: int| 0 <= i < n ==> s[i] == u64::MAX,
    ensures
        value_of(s, n) == radix(n) - 1,
    decreases n,
{
    lemma_radix_step(0);
    if n > 0 {
        let m = (n - 1) as nat;
        lemma_value_max(s, m);
        lemma_radix_step(m);
    }
}

pub proof fn lemma_value_update(s: Seq<u64>, i: int, w: u64, n: nat)
    requires
        0 <= i < s.len(),
        i < n <= s.len(),
    ensures
        value_of(s.update(i, w), n) == value_of(s, n) - s[i] * radix(i as nat) + w * radix(
            i as nat,
        ),
    decreases n,
{
    let t = s.update(i, w);
    if i == n - 1 {
        lemma_value_agrees(s, t, (n - 1) as nat);
    } else {
        lemma_value_update(s, i, w, (n - 1) as nat);
    }
}

/// The words of `s` followed by those of `t`.
pub proof fn lemma_value_concat(s: Seq<u64>, t: Seq<u64>, n: nat)
    requires
        n <= t.len(),
    ensures
        value_of(s + t, s.len() + n) == value_of(s, s.len()) + value_of(t, n) * radix(s.len()),
    decreases n,
{
    if n == 0 {
        lemma_value_agrees(s + t, s, s.len());
        assert(value_of(t, n) * radix(s.len()) == 0) by (nonlinear_arith)
            requires
                value_of(t, n) == 0,
        ;
    } else {
        let m = (n - 1) as nat;
        lemma_value_concat(s, t, m);
        lemma_radix_adds(s.len(), m);
        let w = t[m as int] as int;
        let a = value_of(t, m) as int;
        let r = radix(s.len()) as int;
        let q = radix(m) as int;
        assert((s + t)[s.len() + m as int] == t[m as int]);
        assert((a + w * q) * r == a * r + w * (r * q)) by (nonlinear_arith);
    }
}

/// A difference in the word at `i`, with equal words above it, decides.
pub proof fn lemma_value_order(s: Seq<u64>, t: Seq<u64>, i: nat, n: nat)
    requires
        i < n,
        s[i as int] < t[i as int],
        forall|j: int| i < j < n ==> s[j] == t[j],
    ensures
        value_of(s, n) < value_of(t, n),
    decreases n,
{
    if i + 1 == n {
        lemma_value_bound(s, i);
        let r = radix(i) as int;
        let a = s[i as int] as int;
        let b = t[i as int] as int;
        assert(a * r + r <= b * r) by (nonlinear_arith)
            requires
                a + 1 <= b,
                r > 0,
        ;
        lemma_radix_step(i);
    } else {
        lemma_value_order(s, t, i, (n - 1) as nat);
    }
}

pub proof fn lemma_leading_zeros(w: u64)
    requires
        w != 0,
    ensures
        0 <= u64_leading_zeros(w) < 64,
        pow2((63 - u64_leading_zeros(w)) as nat) <= w < pow2((64 - u64_leading_zeros(w)) as nat),
    decreases w,
{
    reveal(u64_leading_zeros);
    lemma2_to64();
    if w == 1 {
        assert(u64_leading_zeros(0) == 64);
    } else {
        let v = w / 2;
        lemma_leading_zeros(v);
        let z = u64_leading_zeros(v);
        lemma2_to64_rest();
        if z == 0 {
            assert(pow2(63) <= v);
        }
        lemma_pow2_unfold((64 - z) as nat);
        lemma_pow2_unfold((65 - z) as nat);
    }
}

/// The bit length of a number whose highest word that is not zero is at `i - 1`.
pub proof fn lemma_bit_length(s: Seq<u64>, i: nat, n: nat)
    requires
        0 < i <= n,
        s[i - 1] != 0,
        forall|j: int| i <= j < n ==> s[j] == 0,
    ensures
        is_bit_length(value_of(s, n), (64 * i - u64_leading_zeros(s[i - 1])) as nat),
        0 <= u64_leading_zeros(s[i - 1]) < 64,
{
    lemma_value_truncate(s, i, n);
    let m = (i - 1) as nat;
    let w = s[i - 1];
    let z = u64_leading_zeros(w);
    lemma_leading_zeros(w);
    lemma_value_bound(s, m);
    lemma_radix_step(m);
    lemma_pow2_adds((63 - z) as nat, 64 * m);
    lemma_pow2_adds((64 - z) as nat, 64 * m);
    lemma_pow2_pos((63 - z) as nat);
    let r = radix(m) as int;
    let lo = pow2((63 - z) as nat) as int;
    let hi = pow2((64 - z) as nat) as int;
    assert(lo * r <= w * r && w * r + r <= hi * r && lo * r > 0) by (nonlinear_arith)
        requires
            0 < lo <= w,
            w + 1 <= hi,
            r > 0,
    ;
    assert((64 * i - z - 1) as nat == (63 - z) as nat + 64 * m);
    assert((64 * i - z) as nat == (64 - z) as nat + 64 * m);
}

/// A number has one bit length.
pub proof fn lemma_bit_length_orders(v: nat, a: nat, w: nat, b: nat)
    requires
        is_bit_length(v, a),
        is_bit_length(w, b),
    ensures
        a < b ==> v < w,
        v <= w ==> a <= b,
{
    lemma_pow2_pos(a);
    if a < b && v != 0 {
        if a < b - 1 {
            lemma_pow2_strictly_increases(a, (b - 1) as nat);
        }
    }
    if b < a {
        if w != 0 && b < a - 1 {
            lemma_pow2_strictly_increases(b, (a - 1) as nat);
        }
        if w == 0 {
            lemma_pow2_pos((a - 1) as nat);
        }
    }
}

pub proof fn lemma_bit_length_bounded(v: nat, a: nat, n: nat)
    requires
        is_bit_length(v, a),
    ensures
        v < radix(n) ==> a <= 64 * n,
        a <= 64 * n ==> v < radix(n),
{
    lemma_radix_step(n);
    if v != 0 {
        if a > 64 * n && a - 1 > 64 * n {
            lemma_pow2_strictly_increases(64 * n, (a - 1) as nat);
        }
        if a < 64 * n {
            lemma_pow2_strictly_increases(a, 64 * n);
        }
    }
}

/// A quotient and a remainder below the divisor are the only ones.
pub proof fn lemma_remainder_is(v: nat, q: nat, r: nat, m: nat)
    requires
        v == r + q * m,
        r < m,
    ensures
        v % m == r,
        v / m == q,
{
    assert(v == q * m + r);
    lemma_fundamental_div_mod_converse(v as int, m as int, q as int, r as int);
}

/// What shifting the word `w` by `sb` bits into the words `res` at `pos`, and
/// what overflows into the word after it, makes of them.
pub open spec fn shift_word_into(res: Seq<u64>, w: u64, pos: int, sb: u64) -> Seq<u64> {
    let low = if pos < res.len() {
        res.update(pos, res[pos] | (w << sb))
    } else {
        res
    };
    if sb != 0 && pos + 1 < res.len() {
        low.update(pos + 1, low[pos + 1] | (w >> ((64 - sb) as u64)))
    } else {
        low
    }
}

/// The words at and above `pos` are still free for a shift by `sb` bits.
pub open spec fn free_from(res: Seq<u64>, pos: int, sb: u64) -> bool {
    &&& pos < res.len() ==> res[pos] < pow2(sb as nat)
    &&& forall|j: int| pos < j < res.len() ==> res[j] == 0
}

proof fn lemma_split_shifted(w: u64, sb: u64, c: u64)
    requires
        sb < 64,
        c < pow2(sb as nat),
    ensures
        sb == 0 ==> (w << sb) == w && c == 0,
        sb != 0 ==> w * pow2(sb as nat) == (w << sb) + (w >> ((64 - sb) as u64)) * pow2(64),
        (c | (w << sb)) == c + (w << sb),
        sb != 0 ==> (w >> ((64 - sb) as u64)) < pow2(sb as nat),
        (0u64 | (w >> ((64 - sb) as u64))) == w >> ((64 - sb) as u64),
{
    lemma2_to64();
    lemma2_to64_rest();
    let hi = w >> ((64 - sb) as u64);
    assert((0u64 | hi) == hi) by (bit_vector);
    if sb == 0 {
        assert(w << 0u64 == w) by (bit_vector);
        assert(0u64 | w == w) by (bit_vector);
    } else {
        let k = (64 - sb) as u64;
        lemma_u64_shl_is_mul(1, sb);
        lemma_u64_pow2_no_overflow(sb as nat);
        let unit = 1u64 << sb;
        assert(unit == pow2(sb as nat));
        assert((c | (w << sb)) == c + (w << sb)) by (bit_vector)
            requires
                c < 1u64 << sb,
                sb < 64,
        ;
        assert((w >> k) < (1u64 << sb)) by (bit_vector)
            requires
                0 < sb < 64,
                k == 64 - sb,
        ;
        let lo = w << sb;
        let ww = w as u128;
        let uu = unit as u128;
        assert(ww * uu == lo as u128 + (hi as u128) * 0x1_0000_0000_0000_0000u128)
            by (bit_vector)
            requires
                0 < sb < 64,
                k == 64 - sb,
                lo == w << sb,
                hi == w >> k,
                unit == 1u64 << sb,
                ww == w as u128,
                uu == unit as u128,
        ;
    }
}

/// One step of a shift. `q` counts what has been shifted out at the top.
pub proof fn lemma_shift_step(res: Seq<u64>, src: Seq<u64>, i: nat, sw: nat, sb: u64, q: nat) -> (q2:
    nat)
    requires
        sb < 64,
        i < src.len(),
        free_from(res, (sw + i) as int, sb),
        value_of(res, res.len()) + q * radix(res.len()) == value_of(src, i) * pow2(
            64 * sw + sb as nat,
        ),
    ensures
        shift_word_into(res, src[i as int], (sw + i) as int, sb).len() == res.len(),
        free_from(
            shift_word_into(res, src[i as int], (sw + i) as int, sb),
            (sw + i + 1) as int,
            sb,
        ),
        value_of(shift_word_into(res, src[i as int], (sw + i) as int, sb), res.len()) + q2
            * radix(res.len()) == value_of(src, i + 1) * pow2(64 * sw + sb as nat),
{
    let n = res.len();
    let w = src[i as int];
    let pos = (sw + i) as int;
    let out = shift_word_into(res, w, pos, sb);
    let c = if pos < n {
        res[pos]
    } else {
        0u64
    };
    lemma_pow2_pos(sb as nat);
    lemma2_to64();
    lemma_split_shifted(w, sb, c);
    let lo = (w << sb) as int;
    let hi = if sb == 0 {
        0
    } else {
        (w >> ((64 - sb) as u64)) as int
    };
    let s = pow2(sb as nat) as int;
    lemma2_to64_rest();
    if sb == 0 {
        assert(s == 1);
        assert(w * s == w) by (nonlinear_arith)
            requires
                s == 1,
        ;
    }
    assert(w * s == lo + hi * pow2(64));
    // value_of(src, i + 1) * 2^shift == value_of(src, i) * 2^shift + w * s * radix(pos)
    lemma_pow2_adds(64 * sw, sb as nat);
    lemma_radix_adds(sw, i);
    lemma_radix_step(pos as nat);
    let rp = radix(pos as nat) as int;
    let shift = pow2(64 * sw + sb as nat) as int;
    let a = value_of(src, i) as int;
    let ri = radix(i) as int;
    let rs = radix(sw) as int;
    assert((a + w * ri) * shift == a * shift + (w * s) * rp) by (nonlinear_arith)
        requires
            shift == rs * s,
            rp == rs * ri,
    ;
    let b64 = pow2(64) as int;
    assert((lo + hi * b64) * rp == lo * rp + hi * (rp * b64)) by (nonlinear_arith);
    let rn = radix(n) as int;
    let mid = if pos < n {
        res.update(pos, res[pos] | (w << sb))
    } else {
        res
    };
    if pos < n {
        lemma_value_update(res, pos, res[pos] | (w << sb), n);
        assert((c + lo) * rp == c * rp + lo * rp) by (nonlinear_arith);
    }
    if sb != 0 && pos + 1 < n {
        lemma_value_update(mid, pos + 1, mid[pos + 1] | (w >> ((64 - sb) as u64)), n);
        assert(mid[pos + 1] == 0);
    }
    if pos + 1 < n {
        if sb == 0 {
            assert(out[pos + 1] == 0);
        }
        q
    } else if pos + 1 == n {
        assert((q + hi) * rn == q * rn + hi * rn) by (nonlinear_arith);
        (q + hi) as nat
    } else {
        // Both halves lie above the last word.
        let e = (pos - n) as nat;
        lemma_radix_adds(e, n);
        let re = radix(e) as int;
        let t = lo + hi * b64;
        assert((q + t * re) * rn == q * rn + t * (re * rn)) by (nonlinear_arith);
        assert(0 <= t * re) by (nonlinear_arith)
            requires
                0 <= t,
                0 <= re,
        ;
        (q + t * re) as nat
    }
}

pub proof fn lemma_value_order_at(s: Seq<u64>, t: Seq<u64>, i: usize, n: usize)
    requires
        i < n,
        s[i as int] < t[i as int],
        forall|j: int| i < j < n ==> s[j] == t[j],
    ensures
        value_of(s, word_count(n)) < value_of(t, word_count(n)),
{
    lemma_value_order(s, t, i as nat, n as nat);
}

/// What a step of a reduction may take off `r`: the modulus shifted to the
/// length of `r`, or by one bit less where that is too much.
pub proof fn lemma_reduce_step(r: nat, sr: usize, m: nat, sm: usize, words: nat)
    requires
        has_bits(r, sr),
        has_bits(m, sm),
        0 < sm < sr,
        r < radix(words),
    ensures
        m > 0,
        shifted(m, (sr - sm) as usize, words) > 0,
        (r - shifted(m, (sr - sm) as usize, words)) % (m as int) == r % m,
        0 < shifted(m, (sr - sm - 1) as usize, words) <= r,
        (r - shifted(m, (sr - sm - 1) as usize, words)) % (m as int) == r % m,
        m <= r,
        (r - m) % (m as int) == r % m,
{
    let d = (sr - sm) as nat;
    let e = (d - 1) as nat;
    lemma_bit_length_bounded(r, sr as nat, words);
    lemma_bit_length_orders(m, sm as nat, r, sr as nat);
    lemma_pow2_adds(sm as nat, d);
    lemma_pow2_adds(sm as nat, e);
    lemma_pow2_pos(d);
    lemma_pow2_pos(e);
    let pd = pow2(d) as int;
    let pe = pow2(e) as int;
    let bound = pow2(sm as nat) as int;
    assert(0 < m * pd < bound * pd && 0 < m * pe < bound * pe) by (nonlinear_arith)
        requires
            0 < m < bound,
            pd > 0,
            pe > 0,
    ;
    if sr < 64 * words {
        lemma_pow2_strictly_increases(sr as nat, 64 * words);
    }
    lemma_pow2_strictly_increases(e + sm as nat, sr as nat);
    lemma_small_mod((m * pow2(d)) as nat, radix(words));
    lemma_small_mod((m * pow2(e)) as nat, radix(words));
    lemma_mod_multiples_vanish(-pd, r as int, m as int);
    lemma_mod_multiples_vanish(-pe, r as int, m as int);
    lemma_mod_multiples_vanish(-1, r as int, m as int);
    assert(m * (-pd) + r == r - m * pd) by (nonlinear_arith);
    assert(m * (-pe) + r == r - m * pe) by (nonlinear_arith);
    assert(m * (-1) + r == r - m) by (nonlinear_arith);
}

/// Two numbers of one length differ by less than either.
pub proof fn lemma_reduce_last(r: nat, m: nat, bits: usize)
    requires
        has_bits(r, bits),
        has_bits(m, bits),
        m <= r,
        m > 0,
    ensures
        r % m == r - m,
{
    lemma_pow2_unfold(bits as nat);
    lemma_remainder_is(r, 1, (r - m) as nat, m);
}

/// A number that is shorter than the modulus is its own remainder.
pub proof fn lemma_reduce_done(r: nat, sr: usize, m: nat, sm: usize)
    requires
        has_bits(r, sr),
        has_bits(m, sm),
        sr < sm,
    ensures
        r < m,
        r % m == r,
{
    lemma_bit_length_orders(r, sr as nat, m, sm as nat);
    lemma_small_mod(r, m);
}

pub proof fn lemma_below_is_remainder(r: nat, m: nat)
    requires
        r < m,
    ensures
        remainder(r, m) == r,
{
    lemma_small_mod(r, m);
}

/// The halves of two numbers decide their order, the upper halves first.
pub proof fn lemma_halves_order(al: nat, ah: nat, bl: nat, bh: nat, r: nat)
    requires
        al < r,
        bl < r,
    ensures
        ah < bh ==> al + ah * r < bl + bh * r,
        ah > bh ==> al + ah * r > bl + bh * r,
{
    if ah < bh {
        assert(ah * r + r <= bh * r) by (nonlinear_arith)
            requires
                ah + 1 <= bh,
        ;
    }
    if ah > bh {
        assert(bh * r + r <= ah * r) by (nonlinear_arith)
            requires
                bh + 1 <= ah,
        ;
    }
}

/// A number of no more than `64 n` bits has nothing in its upper half.
pub proof fn lemma_fits_below(v: nat, bits: usize, n: usize, low: nat, high: nat)
    requires
        has_bits(v, bits),
        bits <= 64 * n,
        v == low + high * radix(n as nat),
    ensures
        v == low,
{
    lemma_bit_length_bounded(v, bits as nat, n as nat);
    let r = radix(n as nat) as int;
    if high > 0 {
        assert(high * r >= r) by (nonlinear_arith)
            requires
                high >= 1,
                r > 0,
        ;
    }
    assert(high == 0);
    assert(0 * radix(n as nat) == 0);
}

pub proof fn lemma_word_product(a: u64, b: u64)
    ensures
        a * b <= u128::MAX,
{
    assert(a * b <= 0xffff_ffff_ffff_ffff * 0xffff_ffff_ffff_ffff) by (nonlinear_arith)
        requires
            0 <= a <= 0xffff_ffff_ffff_ffff,
            0 <= b <= 0xffff_ffff_ffff_ffff,
    ;
}

pub proof fn lemma_split_product(v: u128, lo: u64, hi: u64)
    requires
        lo == (v & 0xFFFFFFFFFFFFFFFF) as u64,
        hi == (v >> 64) as u64,
    ensures
        v == lo + hi * pow2(64),
{
    lemma2_to64_rest();
    assert(v == lo as u128 + (hi as u128) * 0x1_0000_0000_0000_0000u128) by (bit_vector)
        requires
            lo == (v & 0xFFFFFFFFFFFFFFFF) as u64,
            hi == (v >> 64) as u64,
    ;
}

/// The partial product that one step of a multiplication reaches.
pub proof fn lemma_product_step(a: Seq<u64>, b: Seq<u64>, i: nat, j: nat, n: nat)
    requires
        i < n,
        j < n,
    ensures
        value_of(a, i) * value_of(b, n) + a[i as int] * value_of(b, j) * radix(i) + (a[i as int]
            * b[j as int]) * radix(i + j) == value_of(a, i) * value_of(b, n) + a[i as int]
            * value_of(b, j + 1) * radix(i),
        value_of(a, i) * value_of(b, n) + a[i as int] * value_of(b, j + 1) * radix(i) < radix(
            2 * n,
        ),
{
    let w = a[i as int] as int;
    let x = b[j as int] as int;
    let bj = value_of(b, j) as int;
    let ri = radix(i) as int;
    let rj = radix(j) as int;
    lemma_radix_adds(i, j);
    assert(w * bj * ri + (w * x) * (ri * rj) == w * (bj + x * rj) * ri) by (nonlinear_arith);
    lemma_value_monotone(b, j + 1, n);
    lemma_value_monotone(a, i + 1, n);
    lemma_value_bound(a, n);
    lemma_value_bound(b, n);
    lemma_radix_adds(n, n);
    lemma_radix_step(i);
    let bk = value_of(b, j + 1) as int;
    let bn = value_of(b, n) as int;
    let ai = value_of(a, i) as int;
    let an = value_of(a, n) as int;
    let r = radix(n) as int;
    assert(w * bk * ri <= w * ri * bn) by (nonlinear_arith)
        requires
            0 <= bk <= bn,
            0 <= w,
            0 <= ri,
    ;
    assert(ai * bn + w * ri * bn <= an * bn) by (nonlinear_arith)
        requires
            ai + w * ri <= an,
            0 <= bn,
    ;
    assert(an * bn < r * r) by (nonlinear_arith)
        requires
            0 <= an < r,
            0 <= bn < r,
    ;
}

pub proof fn lemma_value_monotone(s: Seq<u64>, m: nat, n: nat)
    requires
        m <= n,
    ensures
        value_of(s, m) <= value_of(s, n),
    decreases n,
{
    if m < n {
        lemma_value_monotone(s, m, (n - 1) as nat);
    }
}

/// What is still to be added at word `k` keeps `k` below the number of words.
pub proof fn lemma_top_word(v: nat, added: nat, k: nat, target: nat, n: nat)
    requires
        added > 0,
        v + added * radix(k) == target,
        target < radix(n),
    ensures
        k < n,
{
    if n <= k {
        lemma_radix_increases(n, k);
        let r = radix(k) as int;
        assert(added * r >= r) by (nonlinear_arith)
            requires
                added >= 1,
                r >= 0,
        ;
    }
}

/// A difference that is not negative borrows nothing.
pub proof fn lemma_no_borrow(x: nat, y: nat, d: nat, borrow: u64, r: nat)
    requires
        d - borrow * r == x - y,
        y <= x < r,
        d < r,
    ensures
        d == x - y,
{
    if borrow > 0 {
        assert(borrow * r >= r) by (nonlinear_arith)
            requires
                borrow >= 1,
        ;
    }
}

} // verus!
