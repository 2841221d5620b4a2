//! The field of order 2^64 - 2^32 + 1. Its elements are machine words, so that it is
//! cheap enough for circuits of many rows.
use crate::field::PrimeField;
use crate::residues;
use vstd::arithmetic::div_mod::*;
use vstd::arithmetic::power::*;
use vstd::arithmetic::power2::*;
use vstd::prelude::*;

verus! {

/// The order of the field.
pub const ORDER: u64 = 0xFFFF_FFFF_0000_0001;

/// An element of the field, below the modulus.
#[derive(Debug, Clone, Copy, PartialEq, Eq)]
pub struct Goldilocks(u64);

/// The order of the field, as an integer.
pub open spec fn order() -> int {
    ORDER as int
}

impl Goldilocks {
    #[verifier::type_invariant]
    spec fn below_order(&self) -> bool {
        self.0 < ORDER
    }

    /// Takes an integer, up to multiples of the modulus.
    pub fn from(val: u64) -> (r: Self)
        ensures
            r.value() == val as int % order(),
            val < ORDER ==> r.value() == val,
    {
        let v: u64 = val % ORDER;
        proof {
            lemma_small_mod(v as nat, order() as nat);
            if val < ORDER {
                lemma_small_mod(val as nat, order() as nat);
            }
        }
        Goldilocks(v)
    }

    /// Returns the residue.
    pub fn residue(&self) -> (r: u64)
        ensures
            r == self.value(),
            r < ORDER,
    {
        proof {
            use_type_invariant(self);
            lemma_small_mod(self.0 as nat, order() as nat);
        }
        self.0
    }
}

/// One step of the powers of the root: if `a` is its power to 2^`e` and
/// a^2 = b + q `order()`, then `b` is its power to 2^(`e` + 1).
proof fn lemma_square_step(e: nat, a: int, b: int, q: int)
    requires
        residues::cong(pow(1753635133440165772, pow2(e)), a, order()),
        a * a == b + q * order(),
    ensures
        residues::cong(pow(1753635133440165772, pow2(e + 1)), b, order()),
{
    let root: int = 1753635133440165772;
    let h = pow2(e);
    lemma_pow2_unfold(e + 1);
    lemma_pow_adds(root, h, h);
    residues::lemma_cong_ops(pow(root, h), a, pow(root, h), a, order());
    residues::lemma_cong_multiple(b, q, order());
}

/// The root is one of order 2^32: its power to 2^31 is minus one.
proof fn lemma_root_order()
    ensures
        residues::cong(pow(1753635133440165772, pow2(31)), -1, order()),
{
    lemma2_to64();
    lemma_pow1(1753635133440165772);
    assert(1753635133440165772int * 1753635133440165772
        == 4614640910117430873 + 166708887468903991 * order());
    lemma_square_step(0, 1753635133440165772, 4614640910117430873, 166708887468903991);
    assert(4614640910117430873int * 4614640910117430873
        == 9123114210336311365 + 1154399424049971884 * order());
    lemma_square_step(1, 4614640910117430873, 9123114210336311365, 1154399424049971884);
    assert(9123114210336311365int * 9123114210336311365
        == 16116352524544190054 + 4511973093009996851 * order());
    lemma_square_step(2, 9123114210336311365, 16116352524544190054, 4511973093009996851);
    assert(16116352524544190054int * 16116352524544190054
        == 6414415596519834757 + 14080361158478670879 * order());
    lemma_square_step(3, 16116352524544190054, 6414415596519834757, 14080361158478670879);
    assert(6414415596519834757int * 6414415596519834757
        == 1213594585890690845 + 2230460144622294524 * order());
    lemma_square_step(4, 6414415596519834757, 1213594585890690845, 2230460144622294524);
    assert(1213594585890690845int * 1213594585890690845
        == 17096174751763063430 + 79841288704448195 * order());
    lemma_square_step(5, 1213594585890690845, 17096174751763063430, 79841288704448195);
    assert(17096174751763063430int * 17096174751763063430
        == 5456943929260765144 + 15844486704156700236 * order());
    lemma_square_step(6, 17096174751763063430, 5456943929260765144, 15844486704156700236);
    assert(5456943929260765144int * 5456943929260765144
        == 9713644485405565297 + 1614281465338340559 * order());
    lemma_square_step(7, 5456943929260765144, 9713644485405565297, 1614281465338340559);
    assert(9713644485405565297int * 9713644485405565297
        == 16905767614792059275 + 5114988793349933654 * order());
    lemma_square_step(8, 9713644485405565297, 16905767614792059275, 5114988793349933654);
    assert(16905767614792059275int * 16905767614792059275
        == 5416168637041100469 + 15493518941330557636 * order());
    lemma_square_step(9, 16905767614792059275, 5416168637041100469, 15493518941330557636);
    assert(5416168637041100469int * 5416168637041100469
        == 17654865857378133588 + 1590247178281506213 * order());
    lemma_square_step(10, 5416168637041100469, 17654865857378133588, 1590247178281506213);
    assert(17654865857378133588int * 17654865857378133588
        == 3511170319078647661 + 16896981237942002723 * order());
    lemma_square_step(11, 17654865857378133588, 3511170319078647661, 16896981237942002723);
    assert(3511170319078647661int * 3511170319078647661
        == 18146160046829613826 + 668319404399374695 * order());
    lemma_square_step(12, 3511170319078647661, 18146160046829613826, 668319404399374695);
    assert(18146160046829613826int * 18146160046829613826
        == 9306717745644682924 + 17850473948468743512 * order());
    lemma_square_step(13, 18146160046829613826, 9306717745644682924, 17850473948468743512);
    assert(9306717745644682924int * 9306717745644682924
        == 12380578893860276750 + 4695408299218975106 * order());
    lemma_square_step(14, 9306717745644682924, 12380578893860276750, 4695408299218975106);
    assert(12380578893860276750int * 12380578893860276750
        == 6115771955107415310 + 8309256808156222390 * order());
    lemma_square_step(15, 12380578893860276750, 6115771955107415310, 8309256808156222390);
    assert(6115771955107415310int * 6115771955107415310
        == 17776499369601055404 + 2027602620068516376 * order());
    lemma_square_step(16, 6115771955107415310, 17776499369601055404, 2027602620068516376);
    assert(17776499369601055404int * 17776499369601055404
        == 16207902636198568418 + 17130607366173278638 * order());
    lemma_square_step(17, 17776499369601055404, 16207902636198568418, 17130607366173278638);
    assert(16207902636198568418int * 16207902636198568418
        == 1532612707718625687 + 14240784545824149997 * order());
    lemma_square_step(18, 16207902636198568418, 1532612707718625687, 14240784545824149997);
    assert(1532612707718625687int * 1532612707718625687
        == 17492915097719143606 + 127334216977357403 * order());
    lemma_square_step(19, 1532612707718625687, 17492915097719143606, 127334216977357403);
    assert(17492915097719143606int * 17492915097719143606
        == 455906449640507599 + 16588405924890216597 * order());
    lemma_square_step(20, 17492915097719143606, 455906449640507599, 16588405924890216597);
    assert(455906449640507599int * 455906449640507599
        == 11353340290879379826 + 11267608529812975 * order());
    lemma_square_step(21, 455906449640507599, 11353340290879379826, 11267608529812975);
    assert(11353340290879379826int * 11353340290879379826
        == 1803076106186727246 + 6987592784692205430 * order());
    lemma_square_step(22, 11353340290879379826, 1803076106186727246, 6987592784692205430);
    assert(1803076106186727246int * 1803076106186727246
        == 13797081185216407910 + 176241586724885086 * order());
    lemma_square_step(23, 1803076106186727246, 13797081185216407910, 176241586724885086);
    assert(13797081185216407910int * 13797081185216407910
        == 17870292113338400769 + 10319406422896923811 * order());
    lemma_square_step(24, 13797081185216407910, 17870292113338400769, 10319406422896923811);
    assert(17870292113338400769int * 17870292113338400769
        == 549755813888 + 17311854006015885313 * order());
    lemma_square_step(25, 17870292113338400769, 549755813888, 17311854006015885313);
    assert(549755813888int * 549755813888 == 70368744161280 + 16384 * order());
    lemma_square_step(26, 549755813888, 70368744161280, 16384);
    assert(70368744161280int * 70368744161280 == 17293822564807737345 + 268435455 * order());
    lemma_square_step(27, 70368744161280, 17293822564807737345, 268435455);
    assert(17293822564807737345int * 17293822564807737345
        == 18446744069397807105 + 16212958654255595520 * order());
    lemma_square_step(28, 17293822564807737345, 18446744069397807105, 16212958654255595520);
    assert(18446744069397807105int * 18446744069397807105
        == 281474976710656 + 18446744069381029889 * order());
    lemma_square_step(29, 18446744069397807105, 281474976710656, 18446744069381029889);
    assert(281474976710656int * 281474976710656 == 18446744069414584320 + 4294967296 * order());
    lemma_square_step(30, 281474976710656, 18446744069414584320, 4294967296);
    residues::lemma_cong_multiple(-1, 1, order());
}

impl PrimeField for Goldilocks {
    open spec fn modulus() -> int {
        order()
    }

    closed spec fn value(&self) -> int {
        self.0 as int % order()
    }

    open spec fn two_adicity() -> nat {
        32
    }

    open spec fn root() -> int {
        1753635133440165772
    }

    open spec fn cube_root() -> int {
        4294967295
    }

    open spec fn half() -> int {
        9223372034707292161
    }

    open spec fn third() -> int {
        12297829379609722881
    }

    proof fn lemma_field() {
        lemma_root_order();
        let z = Self::cube_root();
        assert(z * z + z + 1 == 1 * order());
        residues::lemma_cong_multiple(0, 1, order());
        assert(2 * Self::half() == 1 + 1 * order());
        residues::lemma_cong_multiple(1, 1, order());
        assert(3 * Self::third() == 1 + 2 * order());
        residues::lemma_cong_multiple(1, 2, order());
    }

    proof fn lemma_value(&self) {
        lemma_mod_bound(self.0 as int, order());
    }

    fn zero() -> (r: Self) {
        Goldilocks::from(0)
    }

    fn one() -> (r: Self) {
        Goldilocks::from(1)
    }

    fn add(&self, other: &Self) -> (r: Self) {
        let a: u64 = self.residue();
        let b: u64 = other.residue();
        let complement: u64 = ORDER - b;
        if a >= complement {
            let r: u64 = a - complement;
            proof {
                lemma_mod_add_multiples_vanish(r as int, order());
                lemma_small_mod(r as nat, order() as nat);
            }
            Goldilocks(r)
        } else {
            let r: u64 = a + b;
            proof {
                lemma_small_mod(r as nat, order() as nat);
            }
            Goldilocks(r)
        }
    }

    fn sub(&self, other: &Self) -> (r: Self) {
        let a: u64 = self.residue();
        let b: u64 = other.residue();
        if a >= b {
            let r: u64 = a - b;
            proof {
                lemma_small_mod(r as nat, order() as nat);
            }
            Goldilocks(r)
        } else {
            let r: u64 = a + (ORDER - b);
            proof {
                lemma_mod_add_multiples_vanish(a - b, order());
                lemma_small_mod(r as nat, order() as nat);
            }
            Goldilocks(r)
        }
    }

    fn mul(&self, other: &Self) -> (r: Self) {
        let a: u64 = self.residue();
        let b: u64 = other.residue();
        assert(a * b <= u64::MAX * u64::MAX) by (nonlinear_arith)
            requires
                0 <= a <= u64::MAX,
                0 <= b <= u64::MAX,
        ;
        let product: u128 = (a as u128) * (b as u128);
        let r: u64 = (product % (ORDER as u128)) as u64;
        proof {
            lemma_small_mod(r as nat, order() as nat);
        }
        Goldilocks(r)
    }

    fn is(&self, other: &Self) -> (r: bool) {
        self.residue() == other.residue()
    }

    fn s() -> (r: u32) {
        32
    }

    fn root_of_unity() -> (r: Self) {
        Goldilocks::from(1753635133440165772)
    }

    fn zeta() -> (r: Self) {
        Goldilocks::from(4294967295)
    }

    fn two_inv() -> (r: Self) {
        Goldilocks::from(9223372034707292161)
    }

    fn three_inv() -> (r: Self) {
        Goldilocks::from(12297829379609722881)
    }
}

} // verus!
