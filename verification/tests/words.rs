//! What the operations on integers of words have to do with each other.
use protogalaxy::u256::{U256, U512};
use protogalaxy::u384::{U384, U768};
use protogalaxy::words::{add64_with_carry, sub64_with_overflow};

const A: [u64; 4] = [0xFFFF_FFFF_FFFF_FFFF, 7, 0x8000_0000_0000_0000, 0xFFFF_FFFF_FFFF_FFFE];
const B: [u64; 4] = [2, 0xFFFF_FFFF_FFFF_FFFF, 0x8000_0000_0000_0001, 9];

#[test]
fn words_carry_and_borrow() {
    assert_eq!(add64_with_carry(u64::MAX, u64::MAX, u64::MAX), (u64::MAX - 2, 2));
    assert_eq!(add64_with_carry(1, 2, 3), (6, 0));
    assert_eq!(sub64_with_overflow(0, u64::MAX, u64::MAX), (2, 2));
    assert_eq!(sub64_with_overflow(9, 2, 3), (4, 0));
}

#[test]
fn subtraction_undoes_addition() {
    let (a, b) = (U256::from(A), U256::from(B));
    let (sum, carry) = a.add(&b);
    assert_eq!(carry, 1);
    let (difference, borrow) = sum.sub(&b);
    assert_eq!(difference, a);
    assert_eq!(borrow, carry);
    let (_, borrow) = a.sub(&b);
    assert_eq!(borrow, 0);
    let (_, borrow) = b.sub(&a);
    assert_eq!(borrow, 1);
}

#[test]
fn comparison_turns_round() {
    let (a, b) = (U256::from(A), U256::from(B));
    assert_eq!(U256::cmp(&a, &b), 1);
    assert_eq!(U256::cmp(&b, &a), -1);
    let (c, d) = (a.mul(&b), b.mul(&b));
    assert_eq!(U512::cmp(&c, &d), 1);
    assert_eq!(U512::cmp(&d, &c), -1);
    assert_eq!(U512::cmp(&d, &d.copy()), 0);
}

#[test]
fn products_are_reduced_in_their_factors() {
    let (a, b) = (U256::from(A), U256::from(B));
    let m = U256::from([0xFFFF_FFFF_FFFF_FF43, 0, 5, 0]);
    let whole = a.mul(&b).modulo_half(&m);
    let parts = a.modulo(&m).mul(&b.modulo(&m)).modulo_half(&m);
    assert_eq!(whole, parts);
    assert_eq!(U256::cmp(&whole, &m), -1);
    assert_eq!(whole.modulo(&m), whole);
}

#[test]
fn shifts_add() {
    let a = U256::from(A);
    assert_eq!(a.pow2(13).pow2(70), a.pow2(83));
    assert_eq!(a.pow2(256), U256::zero());
    let d = U768::from_u64words(&U384::from_u64(3));
    assert_eq!(d.pow2(400).pow2(100), d.pow2(500));
    assert_eq!(d.pow2(500).size_in_bits(), 502);
}

#[test]
fn halves_make_the_whole() {
    let (a, b) = (U256::from(A), U256::from(B));
    let words = [A, B].concat();
    let mut d = U512::from(&words);
    assert_eq!(d.get(0), A[0]);
    assert_eq!(d.get(7), B[3]);
    d.modify(77, 4);
    assert_eq!(d.get(4), 77);
    d.modify(B[0], 4);
    assert_eq!(d, U512::from(&words));
    let low = U512::from_u64words(&a);
    let (sum, carry) = U512::from_u64words(&b).pow2(256).add(&low);
    assert_eq!(carry, 0);
    assert_eq!(sum, d);
    let (back, borrow) = sum.sub(&low);
    assert_eq!(borrow, 0);
    assert_eq!(back, U512::from_u64words(&b).pow2(256));
}

#[test]
fn greatest_and_least() {
    assert_eq!(U256::max().value(), [u64::MAX; 4]);
    assert_eq!(U256::max().size_in_bits(), 256);
    assert_eq!(U512::max().size_in_bits(), 512);
    assert_eq!(U256::zero().size_in_bits(), 0);
    assert_eq!(U512::zero().size_in_bits(), 0);
    assert_eq!(U256::zero().as_slice(), &[0, 0, 0, 0]);
    let (sum, carry) = U512::max().add(&U512::from_u64words(&U256::from_u64(1)));
    assert_eq!((sum, carry), (U512::zero(), 1));
    let (sum, carry) = U256::max().add_with_carry(&U256::max(), 3);
    assert_eq!((sum, carry), (U256::from_u64(1), 2));
    let (difference, borrow) = U256::zero().sub_with_borrow(&U256::max(), 5);
    assert_eq!(borrow, 2);
    assert_eq!(difference, U256::max().sub(&U256::from_u64(3)).0);
}

#[test]
fn remainders_and_shifts_agree() {
    let (a, b) = (U256::from(A), U256::from(B));
    let d = U256::from([12345, 0, 678, 0]);
    assert_eq!(U512::from_u64words(&a).modulo_half(&d), a.modulo(&d));
    let reduced = a.modulo(&d).mul(&b.modulo(&d)).modulo_half(&d);
    assert_eq!(a.mul(&b).modulo_half(&d), reduced);
    assert_eq!(a.pow2(70).pow2(60), a.pow2(130));
    assert_eq!(a.pow2(0), a);
}
