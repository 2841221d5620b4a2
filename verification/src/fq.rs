//! The scalar field of the curve BLS12-381.
use crate::field::PrimeField;
use crate::limbs;
use crate::residues;
use crate::u256::U256;
use vstd::arithmetic::div_mod::*;
use vstd::arithmetic::power::*;
use vstd::arithmetic::power2::*;
use vstd::prelude::*;

verus! {

/// An element of the field, below the modulus.
#[derive(Debug, Clone, Copy)]
pub struct Fq(U256);

/// The order of the field.
pub open spec fn order() -> int {
    52435875175126190479447740508185965837690552500527637822603658699938581184513int
}

impl Fq {
    #[verifier::type_invariant]
    spec fn reduced(&self) -> bool {
        self.0@ < order()
    }

    /// Takes an integer, up to multiples of the modulus.
    pub fn from(val: u64) -> (r: Self)
        ensures
            r.value() == val,
    {
        let words = U256::from_u64(val);
        proof {
            lemma_small_mod(val as nat, order() as nat);
        }
        Fq(words)
    }

    /// Takes an integer of four words, the least significant first, up to
    /// multiples of the modulus.
    pub fn from_words(val: &U256) -> (r: Self)
        ensures
            r.value() == val@ as int % order(),
    {
        let modulus = modulus();
        let words = val.modulo(&modulus);
        proof {
            lemma_mod_bound(val@ as int, order());
            lemma_small_mod(words@, order() as nat);
        }
        Fq(words)
    }

    /// Returns the words of the residue, the least significant first.
    pub fn to_words(&self) -> (r: U256)
        ensures
            r@ == self.value(),
    {
        proof {
            use_type_invariant(self);
            lemma_small_mod(self.0@, order() as nat);
        }
        self.0
    }
}

/// The value of four words.
proof fn lemma_four_words(s: Seq<u64>)
    requires
        s.len() == 4,
    ensures
        limbs::value_of(s, limbs::word_count(4)) == s[0] + s[1] * 0x10000000000000000int + s[2]
            * 0x100000000000000000000000000000000int + s[3]
            * 0x1000000000000000000000000000000000000000000000000int,
{
    lemma2_to64();
    lemma2_to64_rest();
    limbs::lemma_radix_step(0);
    limbs::lemma_radix_step(1);
    limbs::lemma_radix_step(2);
    assert(limbs::radix(1) == 0x10000000000000000int);
    assert(limbs::radix(2) == 0x100000000000000000000000000000000int);
    assert(limbs::radix(3) == 0x1000000000000000000000000000000000000000000000000int);
    assert(limbs::value_of(s, 0) == 0);
    assert(limbs::value_of(s, 1) == s[0] as nat * 1);
    assert(limbs::value_of(s, 2) == limbs::value_of(s, 1) + s[1] as nat * limbs::radix(1));
    assert(limbs::value_of(s, 3) == limbs::value_of(s, 2) + s[2] as nat * limbs::radix(2));
    assert(limbs::value_of(s, 4) == limbs::value_of(s, 3) + s[3] as nat * limbs::radix(3));
}

/// Returns the modulus.
fn modulus() -> (r: U256)
    ensures
        r@ == order(),
{
    let r = U256::from(
        [0xffffffff00000001, 0x53bda402fffe5bfe, 0x3339d80809a1d805, 0x73eda753299d7d48],
    );
    proof {
        lemma_four_words(r.words());
        assert(52435875175126190479447740508185965837690552500527637822603658699938581184513int
            == 0xffffffff00000001 + 0x53bda402fffe5bfe * 0x10000000000000000int + 0x3339d80809a1d805
            * 0x100000000000000000000000000000000int + 0x73eda753299d7d48
            * 0x1000000000000000000000000000000000000000000000000int);
    }
    r
}

/// Returns a root of unity of order 2^32.
fn root() -> (r: U256)
    ensures
        r@ == 10238227357739495823651030575849232062558860180284477541189508159991286009131int,
{
    let r = U256::from(
        [0x3829971f439f0d2b, 0xb63683508c2280b9, 0xd09b681922c813b4, 0x16a2a19edfe81f20],
    );
    proof {
        lemma_four_words(r.words());
        assert(10238227357739495823651030575849232062558860180284477541189508159991286009131int
            == 0x3829971f439f0d2b + 0xb63683508c2280b9 * 0x10000000000000000int + 0xd09b681922c813b4
            * 0x100000000000000000000000000000000int + 0x16a2a19edfe81f20
            * 0x1000000000000000000000000000000000000000000000000int);
    }
    r
}

/// Returns a root of unity of order 3.
fn cube_root() -> (r: U256)
    ensures
        r@ == 228988810152649578064853576960394133503int,
{
    let r = U256::from(
        [0x00000000ffffffff, 0xac45a4010001a402, 0x0000000000000000, 0x0000000000000000],
    );
    proof {
        lemma_four_words(r.words());
        assert(228988810152649578064853576960394133503int
            == 0x00000000ffffffff + 0xac45a4010001a402 * 0x10000000000000000int + 0x0000000000000000
            * 0x100000000000000000000000000000000int + 0x0000000000000000
            * 0x1000000000000000000000000000000000000000000000000int);
    }
    r
}

/// Returns the inverse of 2.
fn half() -> (r: U256)
    ensures
        r@ == 26217937587563095239723870254092982918845276250263818911301829349969290592257int,
{
    let r = U256::from(
        [0x7fffffff80000001, 0xa9ded2017fff2dff, 0x199cec0404d0ec02, 0x39f6d3a994cebea4],
    );
    proof {
        lemma_four_words(r.words());
        assert(26217937587563095239723870254092982918845276250263818911301829349969290592257int
            == 0x7fffffff80000001 + 0xa9ded2017fff2dff * 0x10000000000000000int + 0x199cec0404d0ec02
            * 0x100000000000000000000000000000000int + 0x39f6d3a994cebea4
            * 0x1000000000000000000000000000000000000000000000000int);
    }
    r
}

/// Returns the inverse of 3.
fn third() -> (r: U256)
    ensures
        r@ == 34957250116750793652965160338790643891793701667018425215069105799959054123009int,
{
    let r = U256::from(
        [0xaaaaaaaa00000001, 0xe27e6d5755543d54, 0xccd13ab0066be558, 0x4d491a377113a8da],
    );
    proof {
        lemma_four_words(r.words());
        assert(34957250116750793652965160338790643891793701667018425215069105799959054123009int
            == 0xaaaaaaaa00000001 + 0xe27e6d5755543d54 * 0x10000000000000000int + 0xccd13ab0066be558
            * 0x100000000000000000000000000000000int + 0x4d491a377113a8da
            * 0x1000000000000000000000000000000000000000000000000int);
    }
    r
}

/// Tells whether `a` is at least `b`.
fn at_least(a: &U256, b: &U256) -> (r: bool)
    ensures
        r == (a@ >= b@),
{
    a.cmp(b) != -1
}

/// One step of the powers of the root: if `a` is its power to 2^`e` and
/// a^2 = b + q `order()`, then `b` is its power to 2^(`e` + 1).
proof fn lemma_square_step(root: int, e: nat, a: int, b: int, q: int)
    requires
        residues::cong(pow(root, pow2(e)), a, order()),
        a * a == b + q * order(),
    ensures
        residues::cong(pow(root, pow2(e + 1)), b, order()),
{
    let h = pow2(e);
    lemma_pow2_unfold(e + 1);
    lemma_pow_adds(root, h, h);
    residues::lemma_cong_ops(pow(root, h), a, pow(root, h), a, order());
    residues::lemma_cong_multiple(b, q, order());
}

/// The root is one of order 2^32: its power to 2^31 is minus one.
proof fn lemma_root_order()
    ensures
        residues::cong(
            pow(
                10238227357739495823651030575849232062558860180284477541189508159991286009131int,
                pow2(31),
            ),
            -1,
            order(),
        ),
{
    let root: int = 10238227357739495823651030575849232062558860180284477541189508159991286009131int;
    lemma2_to64();
    lemma_pow1(root);
    assert(10238227357739495823651030575849232062558860180284477541189508159991286009131int
        * 10238227357739495823651030575849232062558860180284477541189508159991286009131int
        == 34070893824967080313820779135880760772780807222436853681508667398599787661631int
        + 1999037854878584061859095318596813587156137983601477440199984501868360866810int
        * order());
    lemma_square_step(
        root,
        0,
        10238227357739495823651030575849232062558860180284477541189508159991286009131int,
        34070893824967080313820779135880760772780807222436853681508667398599787661631int,
        1999037854878584061859095318596813587156137983601477440199984501868360866810int,
    );
    assert(34070893824967080313820779135880760772780807222436853681508667398599787661631int
        * 34070893824967080313820779135880760772780807222436853681508667398599787661631int
        == 20094891866007995289136270587723853997043774683345353712639419774914899074390int
        + 22138007655164235914936248628922642736555220861189560372994334027390334541867int
        * order());
    lemma_square_step(
        root,
        1,
        34070893824967080313820779135880760772780807222436853681508667398599787661631int,
        20094891866007995289136270587723853997043774683345353712639419774914899074390int,
        22138007655164235914936248628922642736555220861189560372994334027390334541867int,
    );
    assert(20094891866007995289136270587723853997043774683345353712639419774914899074390int
        * 20094891866007995289136270587723853997043774683345353712639419774914899074390int
        == 5660829372603820951332104046316074966592589311213397907344198301300676239643int
        + 7700923799935079611851968379423458973867395981278492453720760567212963231689int
        * order());
    lemma_square_step(
        root,
        2,
        20094891866007995289136270587723853997043774683345353712639419774914899074390int,
        5660829372603820951332104046316074966592589311213397907344198301300676239643int,
        7700923799935079611851968379423458973867395981278492453720760567212963231689int,
    );
    assert(5660829372603820951332104046316074966592589311213397907344198301300676239643int
        * 5660829372603820951332104046316074966592589311213397907344198301300676239643int
        == 37480612446576615530266821837655054090426372233228960378061628060638903214217int
        + 611127192570159113481224239827055420264661300226572948296040534025811318864int
        * order());
    lemma_square_step(
        root,
        3,
        5660829372603820951332104046316074966592589311213397907344198301300676239643int,
        37480612446576615530266821837655054090426372233228960378061628060638903214217int,
        611127192570159113481224239827055420264661300226572948296040534025811318864int,
    );
    assert(37480612446576615530266821837655054090426372233228960378061628060638903214217int
        * 37480612446576615530266821837655054090426372233228960378061628060638903214217int
        == 15932505959375582308231798849995567447410469395474322018100309999481287547373int
        + 26790747835879773166057590551035311936174714957676009866271149264086550540132int
        * order());
    lemma_square_step(
        root,
        4,
        37480612446576615530266821837655054090426372233228960378061628060638903214217int,
        15932505959375582308231798849995567447410469395474322018100309999481287547373int,
        26790747835879773166057590551035311936174714957676009866271149264086550540132int,
    );
    assert(15932505959375582308231798849995567447410469395474322018100309999481287547373int
        * 15932505959375582308231798849995567447410469395474322018100309999481287547373int
        == 4541622677469846713471916119560591929733417256448031920623614406126544048514int
        + 4841051003682948443550061625669759918674401131011351450929904825252569338855int
        * order());
    lemma_square_step(
        root,
        5,
        15932505959375582308231798849995567447410469395474322018100309999481287547373int,
        4541622677469846713471916119560591929733417256448031920623614406126544048514int,
        4841051003682948443550061625669759918674401131011351450929904825252569338855int,
    );
    assert(4541622677469846713471916119560591929733417256448031920623614406126544048514int
        * 4541622677469846713471916119560591929733417256448031920623614406126544048514int
        == 734830308204920577628633053915970695663549910788964686411700880930222744862int
        + 393363064421451999399385094226024809705905383518968740798956187622940991718int
        * order());
    lemma_square_step(
        root,
        6,
        4541622677469846713471916119560591929733417256448031920623614406126544048514int,
        734830308204920577628633053915970695663549910788964686411700880930222744862int,
        393363064421451999399385094226024809705905383518968740798956187622940991718int,
    );
    assert(734830308204920577628633053915970695663549910788964686411700880930222744862int
        * 734830308204920577628633053915970695663549910788964686411700880930222744862int
        == 18596002123094854211120822350746157678791770803088570110573239418060655130524int
        + 10297827204239832326563091577768312573785659251723934714267744778636376040int
        * order());
    lemma_square_step(
        root,
        7,
        734830308204920577628633053915970695663549910788964686411700880930222744862int,
        18596002123094854211120822350746157678791770803088570110573239418060655130524int,
        10297827204239832326563091577768312573785659251723934714267744778636376040int,
    );
    assert(18596002123094854211120822350746157678791770803088570110573239418060655130524int
        * 18596002123094854211120822350746157678791770803088570110573239418060655130524int
        == 52167942466760591552294394977846462646742207006759917080697723404762651336366int
        + 6594937031320677429426648028937915953712091880433267689467620196907330947170int
        * order());
    lemma_square_step(
        root,
        8,
        18596002123094854211120822350746157678791770803088570110573239418060655130524int,
        52167942466760591552294394977846462646742207006759917080697723404762651336366int,
        6594937031320677429426648028937915953712091880433267689467620196907330947170int,
    );
    assert(52167942466760591552294394977846462646742207006759917080697723404762651336366int
        * 52167942466760591552294394977846462646742207006759917080697723404762651336366int
        == 4859563557044021881916617240989566298388494151979623102977292742331120628579int
        + 51901378819862401466244632268085255339781881969625407329084111474059852450529int
        * order());
    lemma_square_step(
        root,
        9,
        52167942466760591552294394977846462646742207006759917080697723404762651336366int,
        4859563557044021881916617240989566298388494151979623102977292742331120628579int,
        51901378819862401466244632268085255339781881969625407329084111474059852450529int,
    );
    assert(4859563557044021881916617240989566298388494151979623102977292742331120628579int
        * 4859563557044021881916617240989566298388494151979623102977292742331120628579int
        == 32468834368094611004052562760214251466632493208153926274007662173556188291130int
        + 450366431113801173611814718257983503191319425918503130557571298975614892047int
        * order());
    lemma_square_step(
        root,
        10,
        4859563557044021881916617240989566298388494151979623102977292742331120628579int,
        32468834368094611004052562760214251466632493208153926274007662173556188291130int,
        450366431113801173611814718257983503191319425918503130557571298975614892047int,
    );
    assert(32468834368094611004052562760214251466632493208153926274007662173556188291130int
        * 32468834368094611004052562760214251466632493208153926274007662173556188291130int
        == 1755840822790712607783180844474754741366353396308200820563736496551326485835int
        + 20105036898914021286159760390279337821151393655333343373163375151889794924505int
        * order());
    lemma_square_step(
        root,
        11,
        32468834368094611004052562760214251466632493208153926274007662173556188291130int,
        1755840822790712607783180844474754741366353396308200820563736496551326485835int,
        20105036898914021286159760390279337821151393655333343373163375151889794924505int,
    );
    assert(1755840822790712607783180844474754741366353396308200820563736496551326485835int
        * 1755840822790712607783180844474754741366353396308200820563736496551326485835int
        == 37115000097562964541269718788523040559386243094666416358585267518228781043101int
        + 58795185255930025438735887332421529447431437630296195048966566166580307548int
        * order());
    lemma_square_step(
        root,
        12,
        1755840822790712607783180844474754741366353396308200820563736496551326485835int,
        37115000097562964541269718788523040559386243094666416358585267518228781043101int,
        58795185255930025438735887332421529447431437630296195048966566166580307548int,
    );
    assert(37115000097562964541269718788523040559386243094666416358585267518228781043101int
        * 37115000097562964541269718788523040559386243094666416358585267518228781043101int
        == 20439484849038267462774237595151440867617792718791690563928621375157525968123int
        + 26270625361766621159616984964205542283657867528872536026759214350607932317006int
        * order());
    lemma_square_step(
        root,
        13,
        37115000097562964541269718788523040559386243094666416358585267518228781043101int,
        20439484849038267462774237595151440867617792718791690563928621375157525968123int,
        26270625361766621159616984964205542283657867528872536026759214350607932317006int,
    );
    assert(20439484849038267462774237595151440867617792718791690563928621375157525968123int
        * 20439484849038267462774237595151440867617792718791690563928621375157525968123int
        == 15495926509001846844474268026226183818445427694968626800913907911890390421264int
        + 7967303673272951897130852229983196343839662640180429284010162959920125796105int
        * order());
    lemma_square_step(
        root,
        14,
        20439484849038267462774237595151440867617792718791690563928621375157525968123int,
        15495926509001846844474268026226183818445427694968626800913907911890390421264int,
        7967303673272951897130852229983196343839662640180429284010162959920125796105int,
    );
    assert(15495926509001846844474268026226183818445427694968626800913907911890390421264int
        * 15495926509001846844474268026226183818445427694968626800913907911890390421264int
        == 15076889834420168339092859836519192632846122361203618639585008852351569017005int
        + 4579378861712844296001801815294848970190381958840232212712866255551125530707int
        * order());
    lemma_square_step(
        root,
        15,
        15495926509001846844474268026226183818445427694968626800913907911890390421264int,
        15076889834420168339092859836519192632846122361203618639585008852351569017005int,
        4579378861712844296001801815294848970190381958840232212712866255551125530707int,
    );
    assert(15076889834420168339092859836519192632846122361203618639585008852351569017005int
        * 15076889834420168339092859836519192632846122361203618639585008852351569017005int
        == 22872204467218851938836547481240843888453165451755431061227190987689039608686int
        + 4335058894698712691340064495220856438674661451508848436211466216197618100603int
        * order());
    lemma_square_step(
        root,
        16,
        15076889834420168339092859836519192632846122361203618639585008852351569017005int,
        22872204467218851938836547481240843888453165451755431061227190987689039608686int,
        4335058894698712691340064495220856438674661451508848436211466216197618100603int,
    );
    assert(22872204467218851938836547481240843888453165451755431061227190987689039608686int
        * 22872204467218851938836547481240843888453165451755431061227190987689039608686int
        == 39072540533732477250409069030641316533649120504872707460480262653418090977761int
        + 9976714137850890563205274572188285238279056392279547395875465313585119037795int
        * order());
    lemma_square_step(
        root,
        17,
        22872204467218851938836547481240843888453165451755431061227190987689039608686int,
        39072540533732477250409069030641316533649120504872707460480262653418090977761int,
        9976714137850890563205274572188285238279056392279547395875465313585119037795int,
    );
    assert(39072540533732477250409069030641316533649120504872707460480262653418090977761int
        * 39072540533732477250409069030641316533649120504872707460480262653418090977761int
        == 32731401973776920074999878620293785439674386180695720638377027142500196583783int
        + 29114864940489541460883177064809289574735398339600002721295325613918887784026int
        * order());
    lemma_square_step(
        root,
        18,
        39072540533732477250409069030641316533649120504872707460480262653418090977761int,
        32731401973776920074999878620293785439674386180695720638377027142500196583783int,
        29114864940489541460883177064809289574735398339600002721295325613918887784026int,
    );
    assert(32731401973776920074999878620293785439674386180695720638377027142500196583783int
        * 32731401973776920074999878620293785439674386180695720638377027142500196583783int
        == 39033254847818212395286706435128746857159659164139250548781411570340225835782int
        + 20431520816442430931035927235261387184316552112659923022821925333929494316139int
        * order());
    lemma_square_step(
        root,
        19,
        32731401973776920074999878620293785439674386180695720638377027142500196583783int,
        39033254847818212395286706435128746857159659164139250548781411570340225835782int,
        20431520816442430931035927235261387184316552112659923022821925333929494316139int,
    );
    assert(39033254847818212395286706435128746857159659164139250548781411570340225835782int
        * 39033254847818212395286706435128746857159659164139250548781411570340225835782int
        == 49307615728544765012166121802278658070711169839041683575071795236746050763237int
        + 29056346993850996498408613211046595192243508027277179240039304581442059905599int
        * order());
    lemma_square_step(
        root,
        20,
        39033254847818212395286706435128746857159659164139250548781411570340225835782int,
        49307615728544765012166121802278658070711169839041683575071795236746050763237int,
        29056346993850996498408613211046595192243508027277179240039304581442059905599int,
    );
    assert(49307615728544765012166121802278658070711169839041683575071795236746050763237int
        * 49307615728544765012166121802278658070711169839041683575071795236746050763237int
        == 22781213702924172180523978385542388841346373992886390990881355510284839737428int
        + 46365984370699199490387537932779246691790987783203796165207256631841590439557int
        * order());
    lemma_square_step(
        root,
        21,
        49307615728544765012166121802278658070711169839041683575071795236746050763237int,
        22781213702924172180523978385542388841346373992886390990881355510284839737428int,
        46365984370699199490387537932779246691790987783203796165207256631841590439557int,
    );
    assert(22781213702924172180523978385542388841346373992886390990881355510284839737428int
        * 22781213702924172180523978385542388841346373992886390990881355510284839737428int
        == 4214636447306890335450803789410475782380792963881561516561680164772024173390int
        + 9897492814699666225703588144736490092861041638969691344979563153664421763138int
        * order());
    lemma_square_step(
        root,
        22,
        22781213702924172180523978385542388841346373992886390990881355510284839737428int,
        4214636447306890335450803789410475782380792963881561516561680164772024173390int,
        9897492814699666225703588144736490092861041638969691344979563153664421763138int,
    );
    assert(4214636447306890335450803789410475782380792963881561516561680164772024173390int
        * 4214636447306890335450803789410475782380792963881561516561680164772024173390int
        == 36007022166693598376559747923784822035233416720563672082740011604939309541707int
        + 338759681680566094384661421608725582014079238341167629848615681613431472761int
        * order());
    lemma_square_step(
        root,
        23,
        4214636447306890335450803789410475782380792963881561516561680164772024173390int,
        36007022166693598376559747923784822035233416720563672082740011604939309541707int,
        338759681680566094384661421608725582014079238341167629848615681613431472761int,
    );
    assert(36007022166693598376559747923784822035233416720563672082740011604939309541707int
        * 36007022166693598376559747923784822035233416720563672082740011604939309541707int
        == 47309214877430199588914062438791732591241783999377560080318349803002842391998int
        + 24725546030893419283650058338437031747284857013340151260074394014359783700027int
        * order());
    lemma_square_step(
        root,
        24,
        36007022166693598376559747923784822035233416720563672082740011604939309541707int,
        47309214877430199588914062438791732591241783999377560080318349803002842391998int,
        24725546030893419283650058338437031747284857013340151260074394014359783700027int,
    );
    assert(47309214877430199588914062438791732591241783999377560080318349803002842391998int
        * 47309214877430199588914062438791732591241783999377560080318349803002842391998int
        == 31519469946562159605140591558550197856588417350474800936898404023113662197331int
        + 42683788624559304820678447170489061067855387984546907739320709598449179462321int
        * order());
    lemma_square_step(
        root,
        25,
        47309214877430199588914062438791732591241783999377560080318349803002842391998int,
        31519469946562159605140591558550197856588417350474800936898404023113662197331int,
        42683788624559304820678447170489061067855387984546907739320709598449179462321int,
    );
    assert(31519469946562159605140591558550197856588417350474800936898404023113662197331int
        * 31519469946562159605140591558550197856588417350474800936898404023113662197331int
        == 36581797046584068049060372878520385032448812009597153775348195406694427778894int
        + 18946512905414557504371570029177993596326186137134313470805608426261485096859int
        * order());
    lemma_square_step(
        root,
        26,
        31519469946562159605140591558550197856588417350474800936898404023113662197331int,
        36581797046584068049060372878520385032448812009597153775348195406694427778894int,
        18946512905414557504371570029177993596326186137134313470805608426261485096859int,
    );
    assert(36581797046584068049060372878520385032448812009597153775348195406694427778894int
        * 36581797046584068049060372878520385032448812009597153775348195406694427778894int
        == 14788168760825820622209131888203028446852016562542525606630160374691593895118int
        + 25521227035651289821428581224593977611479455108593087890288738081119609700086int
        * order());
    lemma_square_step(
        root,
        27,
        36581797046584068049060372878520385032448812009597153775348195406694427778894int,
        14788168760825820622209131888203028446852016562542525606630160374691593895118int,
        25521227035651289821428581224593977611479455108593087890288738081119609700086int,
    );
    assert(14788168760825820622209131888203028446852016562542525606630160374691593895118int
        * 14788168760825820622209131888203028446852016562542525606630160374691593895118int
        == 23674694431658770659612952115660802947967373701506253797663184111817857449850int
        + 4170616673570918327606325064043322261829970076819436991364757318224184538698int
        * order());
    lemma_square_step(
        root,
        28,
        14788168760825820622209131888203028446852016562542525606630160374691593895118int,
        23674694431658770659612952115660802947967373701506253797663184111817857449850int,
        4170616673570918327606325064043322261829970076819436991364757318224184538698int,
    );
    assert(23674694431658770659612952115660802947967373701506253797663184111817857449850int
        * 23674694431658770659612952115660802947967373701506253797663184111817857449850int
        == 3465144826073652318776269530687742778270252468765361963008int
        + 10689077936822400752933022887068862718368496949774884062459812111304843150884int
        * order());
    lemma_square_step(
        root,
        29,
        23674694431658770659612952115660802947967373701506253797663184111817857449850int,
        3465144826073652318776269530687742778270252468765361963008int,
        10689077936822400752933022887068862718368496949774884062459812111304843150884int,
    );
    assert(3465144826073652318776269530687742778270252468765361963008int
        * 3465144826073652318776269530687742778270252468765361963008int
        == 52435875175126190479447740508185965837690552500527637822603658699938581184512int
        + 228988810152649578064853576960394133504int
        * order());
    lemma_square_step(
        root,
        30,
        3465144826073652318776269530687742778270252468765361963008int,
        52435875175126190479447740508185965837690552500527637822603658699938581184512int,
        228988810152649578064853576960394133504int,
    );
    residues::lemma_cong_multiple(-1, 1, order());
}

impl PrimeField for Fq {
    open spec fn modulus() -> int {
        order()
    }

    closed spec fn value(&self) -> int {
        self.0@ as int % order()
    }

    open spec fn two_adicity() -> nat {
        32
    }

    open spec fn root() -> int {
        10238227357739495823651030575849232062558860180284477541189508159991286009131int
    }

    open spec fn cube_root() -> int {
        228988810152649578064853576960394133503int
    }

    open spec fn half() -> int {
        26217937587563095239723870254092982918845276250263818911301829349969290592257int
    }

    open spec fn third() -> int {
        34957250116750793652965160338790643891793701667018425215069105799959054123009int
    }

    proof fn lemma_field() {
        lemma_root_order();
        let z = Self::cube_root();
        assert(z * z + z + 1 == 1 * order());
        residues::lemma_cong_multiple(0, 1, order());
        assert(2 * Self::half() == 1 + 1 * order());
        residues::lemma_cong_multiple(1, 1, order());
        assert(3 * Self::third() == 1 + 2 * order());
        residues::lemma_cong_multiple(1, 2, order());
    }

    proof fn lemma_value(&self) {
        lemma_mod_bound(self.0@ as int, order());
    }

    fn zero() -> (r: Self) {
        Fq::from(0)
    }

    fn one() -> (r: Self) {
        Fq::from(1)
    }

    fn add(&self, other: &Self) -> (r: Self) {
        let (a, b) = (self.to_words(), other.to_words());
        proof {
            self.lemma_value();
            other.lemma_value();
        }
        let p = modulus();
        let (sum, carry) = a.add(&b);
        proof {
            lemma_no_carry(sum@, carry, a@ + b@);
        }
        if at_least(&sum, &p) {
            let (r, borrow) = sum.sub(&p);
            proof {
                r.lemma_range();
                lemma_no_borrow(r@, borrow, sum@ - p@);
                lemma_mod_add_multiples_vanish(r@ as int, order());
                lemma_small_mod(r@, order() as nat);
            }
            Fq(r)
        } else {
            proof {
                lemma_small_mod(sum@, order() as nat);
            }
            Fq(sum)
        }
    }

    fn sub(&self, other: &Self) -> (r: Self) {
        let (a, b) = (self.to_words(), other.to_words());
        proof {
            self.lemma_value();
            other.lemma_value();
        }
        let p = modulus();
        if at_least(&a, &b) {
            let (r, borrow) = a.sub(&b);
            proof {
                r.lemma_range();
                lemma_no_borrow(r@, borrow, a@ - b@);
                lemma_small_mod(r@, order() as nat);
            }
            Fq(r)
        } else {
            let (sum, carry) = a.add(&p);
            proof {
                lemma_no_carry(sum@, carry, a@ + p@);
            }
            let (r, borrow) = sum.sub(&b);
            proof {
                r.lemma_range();
                lemma_no_borrow(r@, borrow, sum@ - b@);
                lemma_mod_add_multiples_vanish(a@ - b@, order());
                lemma_small_mod(r@, order() as nat);
            }
            Fq(r)
        }
    }

    fn mul(&self, other: &Self) -> (r: Self) {
        let (a, b) = (self.to_words(), other.to_words());
        let p = modulus();
        let product = a.mul(&b);
        let r = product.modulo_half(&p);
        proof {
            lemma_mod_bound(product@ as int, order());
            lemma_small_mod(r@, order() as nat);
        }
        Fq(r)
    }

    fn is(&self, other: &Self) -> (r: bool) {
        let (a, b) = (self.to_words(), other.to_words());
        at_least(&a, &b) && at_least(&b, &a)
    }

    fn s() -> (r: u32) {
        32
    }

    fn root_of_unity() -> (r: Self) {
        let r = root();
        proof {
            lemma_small_mod(r@, order() as nat);
        }
        Fq(r)
    }

    fn zeta() -> (r: Self) {
        let r = cube_root();
        proof {
            lemma_small_mod(r@, order() as nat);
        }
        Fq(r)
    }

    fn two_inv() -> (r: Self) {
        let r = half();
        proof {
            lemma_small_mod(r@, order() as nat);
        }
        Fq(r)
    }

    fn three_inv() -> (r: Self) {
        let r = third();
        proof {
            lemma_small_mod(r@, order() as nat);
        }
        Fq(r)
    }
}

/// A sum below 2^256 has no carry.
proof fn lemma_no_carry(r: nat, carry: u64, total: nat)
    requires
        r + carry * limbs::radix(4) == total,
        total < 2 * order(),
    ensures
        r == total,
{
    lemma2_to64();
    lemma2_to64_rest();
    limbs::lemma_radix_step(0);
    limbs::lemma_radix_step(1);
    limbs::lemma_radix_step(2);
    limbs::lemma_radix_step(3);
    let base: int = 0x10000000000000000000000000000000000000000000000000000000000000000int;
    assert(limbs::radix(4) == base);
    if carry >= 1 {
        assert(carry * base >= base) by (nonlinear_arith)
            requires
                carry >= 1,
                base > 0,
        ;
    } else {
        assert(0 * base == 0);
    }
}

/// A difference that is not negative borrows nothing.
proof fn lemma_no_borrow(r: nat, borrow: u64, difference: int)
    requires
        r - borrow * limbs::radix(4) == difference,
        r < limbs::radix(4),
        difference >= 0,
    ensures
        r == difference,
{
    let base = limbs::radix(4);
    if borrow >= 1 {
        assert(borrow * base >= base) by (nonlinear_arith)
            requires
                borrow >= 1,
        ;
    } else {
        assert(0 * base == 0);
    }
}

} // verus!
