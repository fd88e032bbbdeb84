//! Positional number systems over byte strings: the mathematical side of the
//! decimal and base-58 renderings.

use vstd::prelude::*;

verus! {

/// Value of a big-endian byte string.
pub open spec fn be_value(s: Seq<u8>) -> nat
    decreases s.len(),
{
    if s.len() == 0 {
        0
    } else {
        be_value(s.drop_last()) * 256 + s.last() as nat
    }
}

/// ASCII decimal digits of `n`, most significant first; empty for zero.
pub open spec fn digits10(n: nat) -> Seq<u8>
    decreases n,
{
    if n == 0 {
        Seq::empty()
    } else {
        digits10(n / 10).push(('0' as u8 + n % 10) as u8)
    }
}

/// Decimal rendering of `n` without leading zeros; zero renders as `"0"`.
pub open spec fn decimal_text(n: nat) -> Seq<u8> {
    if n == 0 {
        seq!['0' as u8]
    } else {
        digits10(n)
    }
}

/// A string of `k` zero bytes.
pub open spec fn zeros(k: nat) -> Seq<u8> {
    Seq::new(k, |i: int| 0u8)
}

/// A string of zero bytes is worth zero.
pub proof fn lemma_be_value_zeros(k: nat)
    ensures
        be_value(zeros(k)) == 0,
    decreases k,
{
    if k > 0 {
        assert(zeros(k).drop_last() =~= zeros((k - 1) as nat));
        lemma_be_value_zeros((k - 1) as nat);
    }
}

/// Leading zero bytes do not change the value.
pub proof fn lemma_be_value_leading_zeros(k: nat, s: Seq<u8>)
    ensures
        be_value(zeros(k) + s) == be_value(s),
    decreases s.len(),
{
    if s.len() == 0 {
        assert(zeros(k) + s =~= zeros(k));
        lemma_be_value_zeros(k);
    } else {
        assert((zeros(k) + s).drop_last() =~= zeros(k) + s.drop_last());
        lemma_be_value_leading_zeros(k, s.drop_last());
    }
}

/// The value is zero exactly when every byte is.
pub proof fn lemma_be_value_zero_iff(s: Seq<u8>)
    ensures
        be_value(s) == 0 <==> (forall|i: int| 0 <= i < s.len() ==> s[i] == 0),
    decreases s.len(),
{
    if s.len() > 0 {
        lemma_be_value_zero_iff(s.drop_last());
        if be_value(s) == 0 {
            assert forall|i: int| 0 <= i < s.len() implies s[i] == 0 by {
                if i < s.len() - 1 {
                    assert(s.drop_last()[i] == s[i]);
                }
            }
        } else {
            if forall|i: int| 0 <= i < s.len() ==> s[i] == 0 {
                assert forall|i: int| 0 <= i < s.drop_last().len() implies s.drop_last()[i]
                    == 0 by {
                    assert(s.drop_last()[i] == s[i]);
                }
            }
        }
    }
}

/// The value of four bytes.
pub proof fn lemma_be_value_of_four(a: u8, b: u8, c: u8, d: u8)
    ensures
        be_value(seq![a, b, c, d]) == a as nat * 0x100_0000 + b as nat * 0x1_0000 + c as nat
            * 0x100 + d as nat,
{
    let s4 = seq![a, b, c, d];
    let s3 = seq![a, b, c];
    let s2 = seq![a, b];
    let s1 = seq![a];
    assert(s4.drop_last() =~= s3);
    assert(s3.drop_last() =~= s2);
    assert(s2.drop_last() =~= s1);
    assert(s1.drop_last() =~= Seq::<u8>::empty());
    assert(be_value(Seq::<u8>::empty()) == 0);
    assert(be_value(s1) == be_value(s1.drop_last()) * 256 + a as nat);
    assert(be_value(s2) == be_value(s1) * 256 + b as nat);
    assert(be_value(s3) == be_value(s2) * 256 + c as nat);
    assert(be_value(s4) == be_value(s3) * 256 + d as nat);
}

/// The value of a prefix extended by the next byte.
pub proof fn lemma_be_value_take(s: Seq<u8>, i: int)
    requires
        0 <= i < s.len(),
    ensures
        be_value(s.take(i + 1)) == be_value(s.take(i)) * 256 + s[i] as nat,
{
    assert(s.take(i + 1).drop_last() =~= s.take(i));
}

/// A longer prefix never has a smaller value.
pub proof fn lemma_be_value_prefix_le(s: Seq<u8>, i: int)
    requires
        0 <= i <= s.len(),
    ensures
        be_value(s.take(i)) <= be_value(s),
    decreases s.len() - i,
{
    if i < s.len() {
        lemma_be_value_take(s, i);
        lemma_be_value_prefix_le(s, i + 1);
    } else {
        assert(s.take(i) =~= s);
    }
}

/// 256 to the power `k`.
pub open spec fn pow256(k: int) -> nat
    decreases k,
{
    if k <= 0 {
        1
    } else {
        256 * pow256(k - 1)
    }
}

/// A byte string is worth less than its first byte plus one, shifted to the
/// first byte's position.
pub proof fn lemma_be_value_first_bound(s: Seq<u8>)
    requires
        s.len() >= 1,
    ensures
        be_value(s) < (s[0] as nat + 1) * pow256(s.len() - 1),
    decreases s.len(),
{
    if s.len() == 1 {
        assert(s.drop_last() =~= Seq::<u8>::empty());
        assert(be_value(s.drop_last()) == 0);
        assert(be_value(s) == s[0] as nat);
        assert(pow256(0) == 1);
        assert((s[0] as nat + 1) * 1 == s[0] as nat + 1);
    } else {
        lemma_be_value_first_bound(s.drop_last());
        let p = pow256(s.len() - 2);
        let f = s[0] as nat + 1;
        assert(s.drop_last()[0] == s[0]);
        assert(pow256(s.len() - 1) == 256 * p);
        assert(be_value(s.drop_last()) < f * p);
        assert(f * (256 * p) == (f * p) * 256) by (nonlinear_arith);
        assert(be_value(s) == be_value(s.drop_last()) * 256 + s.last() as nat);
    }
}

/// 10 to the power `k`.
pub open spec fn pow10(k: int) -> nat
    decreases k,
{
    if k <= 0 {
        1
    } else {
        10 * pow10(k - 1)
    }
}

/// 58 to the power `k`.
pub open spec fn pow58(k: int) -> nat
    decreases k,
{
    if k <= 0 {
        1
    } else {
        58 * pow58(k - 1)
    }
}

/// A string of `len` bytes is worth less than 256 to the power `len`.
pub proof fn lemma_be_value_bound(s: Seq<u8>)
    ensures
        be_value(s) < pow256(s.len() as int),
{
    if s.len() > 0 {
        lemma_be_value_first_bound(s);
        let p = pow256(s.len() - 1);
        assert((s[0] as nat + 1) * p <= 256 * p) by (nonlinear_arith)
            requires
                s[0] as nat + 1 <= 256,
        ;
    }
}

/// A higher power of 256 is not smaller.
pub proof fn lemma_pow256_monotonic(a: int, b: int)
    requires
        0 <= a <= b,
    ensures
        pow256(a) <= pow256(b),
    decreases b - a,
{
    if a < b {
        lemma_pow256_monotonic(a, b - 1);
    }
}

/// A number below 10 to the power `k` has at most `k` decimal digits.
pub proof fn lemma_digits10_len_bound(n: nat, k: int)
    requires
        k >= 0,
        n < pow10(k),
    ensures
        digits10(n).len() <= k,
    decreases n,
{
    if n > 0 {
        lemma_digits10_len_bound(n / 10, k - 1);
    }
}

/// The value of 256 to the powers up to 33.
pub proof fn lemma_pow256_values()
    ensures
        pow256(32) == 0x1_0000_0000_0000_0000_0000_0000_0000_0000_0000_0000_0000_0000_0000_0000_0000_0000,
        pow256(33) == 0x100_0000_0000_0000_0000_0000_0000_0000_0000_0000_0000_0000_0000_0000_0000_0000_0000,
{
    assert(pow256(0) == 1);
    assert(pow256(1) == 256);
    assert(pow256(2) == 65536);
    assert(pow256(3) == 16777216);
    assert(pow256(4) == 4294967296);
    assert(pow256(5) == 1099511627776);
    assert(pow256(6) == 281474976710656);
    assert(pow256(7) == 72057594037927936);
    assert(pow256(8) == 18446744073709551616);
    assert(pow256(9) == 4722366482869645213696);
    assert(pow256(10) == 1208925819614629174706176);
    assert(pow256(11) == 309485009821345068724781056);
    assert(pow256(12) == 79228162514264337593543950336);
    assert(pow256(13) == 20282409603651670423947251286016);
    assert(pow256(14) == 5192296858534827628530496329220096);
    assert(pow256(15) == 1329227995784915872903807060280344576);
    assert(pow256(16) == 340282366920938463463374607431768211456);
    assert(pow256(17) == 87112285931760246646623899502532662132736);
    assert(pow256(18) == 22300745198530623141535718272648361505980416);
    assert(pow256(19) == 5708990770823839524233143877797980545530986496);
    assert(pow256(20) == 1461501637330902918203684832716283019655932542976);
    assert(pow256(21) == 374144419156711147060143317175368453031918731001856);
    assert(pow256(22) == 95780971304118053647396689196894323976171195136475136);
    assert(pow256(23) == 24519928653854221733733552434404946937899825954937634816);
    assert(pow256(24) == 6277101735386680763835789423207666416102355444464034512896);
    assert(pow256(25) == 1606938044258990275541962092341162602522202993782792835301376);
    assert(pow256(26) == 411376139330301510538742295639337626245683966408394965837152256);
    assert(pow256(27) == 105312291668557186697918027683670432318895095400549111254310977536);
    assert(pow256(28) == 26959946667150639794667015087019630673637144422540572481103610249216);
    assert(pow256(29) == 6901746346790563787434755862277025452451108972170386555162524223799296);
    assert(pow256(30) == 1766847064778384329583297500742918515827483896875618958121606201292619776);
    assert(pow256(31) == 452312848583266388373324160190187140051835877600158453279131187530910662656);
    assert(pow256(32) == 115792089237316195423570985008687907853269984665640564039457584007913129639936);
    assert(pow256(33) == 29642774844752946028434172162224104410437116074403984394101141506025761187823616);
}

/// The value of 10 to the powers up to 5.
pub proof fn lemma_pow10_values()
    ensures
        pow10(5) == 100000,
{
    assert(pow10(0) == 1);
    assert(pow10(1) == 10);
    assert(pow10(2) == 100);
    assert(pow10(3) == 1000);
    assert(pow10(4) == 10000);
}

/// The value of 10 to the power 78, which is above every number of 256 bits.
pub proof fn lemma_pow10_78()
    ensures
        pow10(78) == 1000000000000000000000000000000000000000000000000000000000000000000000000000000,
        pow10(78) > 0x1_0000_0000_0000_0000_0000_0000_0000_0000_0000_0000_0000_0000_0000_0000_0000_0000,
{
    assert(pow10(0) == 1);
    assert(pow10(1) == 10);
    assert(pow10(2) == 100);
    assert(pow10(3) == 1000);
    assert(pow10(4) == 10000);
    assert(pow10(5) == 100000);
    assert(pow10(6) == 1000000);
    assert(pow10(7) == 10000000);
    assert(pow10(8) == 100000000);
    assert(pow10(9) == 1000000000);
    assert(pow10(10) == 10000000000);
    assert(pow10(11) == 100000000000);
    assert(pow10(12) == 1000000000000);
    assert(pow10(13) == 10000000000000);
    assert(pow10(14) == 100000000000000);
    assert(pow10(15) == 1000000000000000);
    assert(pow10(16) == 10000000000000000);
    assert(pow10(17) == 100000000000000000);
    assert(pow10(18) == 1000000000000000000);
    assert(pow10(19) == 10000000000000000000);
    assert(pow10(20) == 100000000000000000000);
    assert(pow10(21) == 1000000000000000000000);
    assert(pow10(22) == 10000000000000000000000);
    assert(pow10(23) == 100000000000000000000000);
    assert(pow10(24) == 1000000000000000000000000);
    assert(pow10(25) == 10000000000000000000000000);
    assert(pow10(26) == 100000000000000000000000000);
    assert(pow10(27) == 1000000000000000000000000000);
    assert(pow10(28) == 10000000000000000000000000000);
    assert(pow10(29) == 100000000000000000000000000000);
    assert(pow10(30) == 1000000000000000000000000000000);
    assert(pow10(31) == 10000000000000000000000000000000);
    assert(pow10(32) == 100000000000000000000000000000000);
    assert(pow10(33) == 1000000000000000000000000000000000);
    assert(pow10(34) == 10000000000000000000000000000000000);
    assert(pow10(35) == 100000000000000000000000000000000000);
    assert(pow10(36) == 1000000000000000000000000000000000000);
    assert(pow10(37) == 10000000000000000000000000000000000000);
    assert(pow10(38) == 100000000000000000000000000000000000000);
    assert(pow10(39) == 1000000000000000000000000000000000000000);
    assert(pow10(40) == 10000000000000000000000000000000000000000);
    assert(pow10(41) == 100000000000000000000000000000000000000000);
    assert(pow10(42) == 1000000000000000000000000000000000000000000);
    assert(pow10(43) == 10000000000000000000000000000000000000000000);
    assert(pow10(44) == 100000000000000000000000000000000000000000000);
    assert(pow10(45) == 1000000000000000000000000000000000000000000000);
    assert(pow10(46) == 10000000000000000000000000000000000000000000000);
    assert(pow10(47) == 100000000000000000000000000000000000000000000000);
    assert(pow10(48) == 1000000000000000000000000000000000000000000000000);
    assert(pow10(49) == 10000000000000000000000000000000000000000000000000);
    assert(pow10(50) == 100000000000000000000000000000000000000000000000000);
    assert(pow10(51) == 1000000000000000000000000000000000000000000000000000);
    assert(pow10(52) == 10000000000000000000000000000000000000000000000000000);
    assert(pow10(53) == 100000000000000000000000000000000000000000000000000000);
    assert(pow10(54) == 1000000000000000000000000000000000000000000000000000000);
    assert(pow10(55) == 10000000000000000000000000000000000000000000000000000000);
    assert(pow10(56) == 100000000000000000000000000000000000000000000000000000000);
    assert(pow10(57) == 1000000000000000000000000000000000000000000000000000000000);
    assert(pow10(58) == 10000000000000000000000000000000000000000000000000000000000);
    assert(pow10(59) == 100000000000000000000000000000000000000000000000000000000000);
    assert(pow10(60) == 1000000000000000000000000000000000000000000000000000000000000);
    assert(pow10(61) == 10000000000000000000000000000000000000000000000000000000000000);
    assert(pow10(62) == 100000000000000000000000000000000000000000000000000000000000000);
    assert(pow10(63) == 1000000000000000000000000000000000000000000000000000000000000000);
    assert(pow10(64) == 10000000000000000000000000000000000000000000000000000000000000000);
    assert(pow10(65) == 100000000000000000000000000000000000000000000000000000000000000000);
    assert(pow10(66) == 1000000000000000000000000000000000000000000000000000000000000000000);
    assert(pow10(67) == 10000000000000000000000000000000000000000000000000000000000000000000);
    assert(pow10(68) == 100000000000000000000000000000000000000000000000000000000000000000000);
    assert(pow10(69) == 1000000000000000000000000000000000000000000000000000000000000000000000);
    assert(pow10(70) == 10000000000000000000000000000000000000000000000000000000000000000000000);
    assert(pow10(71) == 100000000000000000000000000000000000000000000000000000000000000000000000);
    assert(pow10(72) == 1000000000000000000000000000000000000000000000000000000000000000000000000);
    assert(pow10(73) == 10000000000000000000000000000000000000000000000000000000000000000000000000);
    assert(pow10(74) == 100000000000000000000000000000000000000000000000000000000000000000000000000);
    assert(pow10(75) == 1000000000000000000000000000000000000000000000000000000000000000000000000000);
    assert(pow10(76) == 10000000000000000000000000000000000000000000000000000000000000000000000000000);
    assert(pow10(77) == 100000000000000000000000000000000000000000000000000000000000000000000000000000);
    assert(pow10(78) == 1000000000000000000000000000000000000000000000000000000000000000000000000000000);
}

/// The value of 58 to the power 46, which is above every number of 33 bytes.
pub proof fn lemma_pow58_46()
    ensures
        pow58(46) == 1311256650531604040683918106085433325685010428206934077445436201506164705899577344,
        pow58(46) > 0x100_0000_0000_0000_0000_0000_0000_0000_0000_0000_0000_0000_0000_0000_0000_0000_0000,
{
    assert(pow58(0) == 1);
    assert(pow58(1) == 58);
    assert(pow58(2) == 3364);
    assert(pow58(3) == 195112);
    assert(pow58(4) == 11316496);
    assert(pow58(5) == 656356768);
    assert(pow58(6) == 38068692544);
    assert(pow58(7) == 2207984167552);
    assert(pow58(8) == 128063081718016);
    assert(pow58(9) == 7427658739644928);
    assert(pow58(10) == 430804206899405824);
    assert(pow58(11) == 24986644000165537792);
    assert(pow58(12) == 1449225352009601191936);
    assert(pow58(13) == 84055070416556869132288);
    assert(pow58(14) == 4875194084160298409672704);
    assert(pow58(15) == 282761256881297307761016832);
    assert(pow58(16) == 16400152899115243850138976256);
    assert(pow58(17) == 951208868148684143308060622848);
    assert(pow58(18) == 55170114352623680311867516125184);
    assert(pow58(19) == 3199866632452173458088315935260672);
    assert(pow58(20) == 185592264682226060569122324245118976);
    assert(pow58(21) == 10764351351569111513009094806216900608);
    assert(pow58(22) == 624332378391008467754527498760580235264);
    assert(pow58(23) == 36211277946678491129762594928113653645312);
    assert(pow58(24) == 2100254120907352485526230505830591911428096);
    assert(pow58(25) == 121814739012626444160521369338174330862829568);
    assert(pow58(26) == 7065254862732333761310239421614111190044114944);
    assert(pow58(27) == 409784782038475358155993886453618449022558666752);
    assert(pow58(28) == 23767517358231570773047645414309870043308402671616);
    assert(pow58(29) == 1378516006777431104836763434029972462511887354953728);
    assert(pow58(30) == 79953928393091004080532279173738402825689466587316224);
    assert(pow58(31) == 4637327846799278236670872192076827363889989062064340992);
    assert(pow58(32) == 268965015114358137726910587140455987105619365599731777536);
    assert(pow58(33) == 15599970876632771988160814054146447252125923204784443097088);
    assert(pow58(34) == 904798310844700775313327215140493940623303545877497699631104);
    assert(pow58(35) == 52478302028992644968172978478148648556151605660894866578604032);
    assert(pow58(36) == 3043741517681573408154032751732621616256793128331902261559033856);
    assert(pow58(37) == 176537008025531257672933899600492053742894001443250331170423963648);
    assert(pow58(38) == 10239146465480812945030166176828539117087852083708519207884589891584);
    assert(pow58(39) == 593870494997887150811749638256055268791095420855094114057306213711872);
    assert(pow58(40) == 34444488709877454747081479018851205589883534409595458615323760395288576);
    assert(pow58(41) == 1997780345172892375330725783093369924213244995756536599688778102926737408);
    assert(pow58(42) == 115871260020027757769182095419415455604368209753879122781949129969750769664);
    assert(pow58(43) == 6720533081161609950612561534326096425053356165724989121353049538245544640512);
    assert(pow58(44) == 389790918707373377135528568990913592653094657612049369038476873218241589149696);
    assert(pow58(45) == 22607873285027655873860657001472988373879490141498863404231658646658012170682368);
    assert(pow58(46) == 1311256650531604040683918106085433325685010428206934077445436201506164705899577344);
}

} // verus!
