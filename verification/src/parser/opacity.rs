//! Reading an opacity as a 32-bit float is read: an optional sign, decimal
//! digits with an optional point, and an optional exponent. A value counts
//! when the float nearest to it lies in `[0, 1]`.

use crate::parser::ast::Opacity;
use vstd::prelude::*;
use vstd::string::StringSliceAdditionalSpecFns;

verus! {

pub open spec fn is_digit(x: u8) -> bool {
    48 <= x <= 57
}

/// The first index at or after `i` (and before `hi`) that is not a digit.
pub open spec fn digits_end(s: Seq<u8>, i: int, hi: int) -> int
    decreases hi - i,
{
    if i >= hi || !is_digit(s[i]) {
        i
    } else {
        digits_end(s, i + 1, hi)
    }
}

/// The number that the decimal digits `s[lo..hi]` write.
pub open spec fn dec_val(s: Seq<u8>, lo: int, hi: int) -> nat
    decreases hi - lo,
{
    if hi <= lo {
        0
    } else {
        dec_val(s, lo, hi - 1) * 10 + (s[hi - 1] - 48) as nat
    }
}

pub open spec fn pow10(n: nat) -> nat
    decreases n,
{
    if n == 0 {
        1
    } else {
        10 * pow10((n - 1) as nat)
    }
}

pub open spec fn pow2(n: nat) -> nat
    decreases n,
{
    if n == 0 {
        1
    } else {
        2 * pow2((n - 1) as nat)
    }
}

/// 1 when `s[i]` is a sign, else 0.
pub open spec fn sign_len(s: Seq<u8>, i: int) -> int {
    if 0 <= i < s.len() && (s[i] == 43 || s[i] == 45) {
        1
    } else {
        0
    }
}

/// Where the parts of a number written in `s` lie: the integer digits
/// `s[a..b]`, the fraction digits `s[c..d]`, the exponent digits `s[e..f]`,
/// and whether the exponent is negative. A number is an optional sign,
/// digits with an optional `.` and at least one digit in all, then
/// optionally `e` or `E`, an optional sign and at least one digit; anything
/// else (including what names infinity or not-a-number, which never lie in
/// `[0, 1]`) writes none.
pub open spec fn num_layout(s: Seq<u8>) -> Option<(int, int, int, int, int, int, bool)> {
    let n = s.len() as int;
    let p = sign_len(s, 0);
    let d1e = digits_end(s, p, n);
    let dot = d1e < n && s[d1e] == 46;
    let f0 = if dot {
        d1e + 1
    } else {
        d1e
    };
    let fe = if dot {
        digits_end(s, f0, n)
    } else {
        d1e
    };
    if d1e == p && fe == f0 {
        None
    } else if fe == n {
        Some((p, d1e, f0, fe, n, n, false))
    } else if s[fe] == 101 || s[fe] == 69 {
        let q = fe + 1 + sign_len(s, fe + 1);
        let e2 = digits_end(s, q, n);
        if q < e2 && e2 == n {
            Some((p, d1e, f0, fe, q, e2, sign_len(s, fe + 1) == 1 && s[fe + 1] == 45))
        } else {
            None
        }
    } else {
        None
    }
}

/// The number of `0` digits at the start of `d` from `i` on.
pub open spec fn lead_zeros(d: Seq<u8>, i: int) -> int
    decreases d.len() - i,
{
    if 0 <= i < d.len() && d[i] == 48 {
        lead_zeros(d, i + 1)
    } else {
        i
    }
}

/// Digit `j` of `a`, or `0` past its end.
pub open spec fn pad_at(a: Seq<u8>, j: int) -> u8 {
    if 0 <= j < a.len() {
        a[j]
    } else {
        48
    }
}

/// The first `m` digits of `a`, padded with `0`, as a number.
pub open spec fn prefix_val(a: Seq<u8>, m: int) -> nat {
    if m <= 0 {
        0
    } else {
        dec_val(Seq::new(m as nat, |j: int| pad_at(a, j)), 0, m)
    }
}

/// Whether the fraction `0.a` is at most `0.k`, compared digit by digit
/// from position `j` on (a numeric comparison: `lemma_frac_le_is_numeric`).
pub open spec fn frac_le(a: Seq<u8>, k: Seq<u8>, j: int) -> bool
    decreases k.len() - j,
{
    if j >= k.len() {
        forall|t: int| j <= t < a.len() ==> a[t] == 48
    } else if pad_at(a, j) < k[j] {
        true
    } else if pad_at(a, j) > k[j] {
        false
    } else {
        frac_le(a, k, j + 1)
    }
}

/// The fraction `0.x` scaled by `10^n` (digits past `n` left out), read from
/// digit `j` on: each digit `x[t]` counts `10^(n - 1 - t)`, and a missing one
/// counts as `0`.
pub open spec fn scaled(x: Seq<u8>, j: int, n: int) -> int
    decreases n - j,
{
    if j >= n {
        0
    } else {
        (pad_at(x, j) - 48) * pow10((n - 1 - j) as nat) + scaled(x, j + 1, n)
    }
}

proof fn lemma_scaled_bounds(x: Seq<u8>, j: int, n: int)
    requires
        0 <= j <= n,
        forall|t: int| 0 <= t < x.len() ==> is_digit(#[trigger] x[t]),
    ensures
        0 <= scaled(x, j, n) < pow10((n - j) as nat),
        scaled(x, j, n) == 0 <==> forall|t: int| j <= t < n ==> pad_at(x, t) == 48,
    decreases n - j,
{
    if j < n {
        lemma_scaled_bounds(x, j + 1, n);
        let d = pad_at(x, j) - 48;
        let p = pow10((n - 1 - j) as nat);
        assert(pow10((n - j) as nat) == 10 * p);
        assert(0 <= d <= 9);
        assert(0 <= d * p <= 9 * p) by (nonlinear_arith)
            requires
                0 <= d <= 9,
                p >= 0,
        ;
        assert(d > 0 ==> d * p >= p) by (nonlinear_arith)
            requires
                d >= 0,
                p >= 0,
        ;
        assert(p >= 1) by {
            lemma_pow10_pos((n - 1 - j) as nat);
        }
        assert(d == 0 ==> d * p == 0) by (nonlinear_arith);
        if scaled(x, j, n) == 0 {
            assert(d == 0);
            assert(scaled(x, j + 1, n) == 0);
            assert forall|t: int| j <= t < n implies pad_at(x, t) == 48 by {
                if t == j {
                    assert(pad_at(x, j) == 48);
                }
            }
        }
        if forall|t: int| j <= t < n ==> pad_at(x, t) == 48 {
            assert(pad_at(x, j) == 48);
            assert(d == 0);
            assert(forall|t: int| j + 1 <= t < n ==> pad_at(x, t) == 48);
            assert(scaled(x, j + 1, n) == 0);
        }
    }
}

proof fn lemma_pow10_pos(n: nat)
    ensures
        pow10(n) >= 1,
    decreases n,
{
    if n > 0 {
        lemma_pow10_pos((n - 1) as nat);
    }
}

proof fn lemma_frac_le_from(a: Seq<u8>, k: Seq<u8>, j: int, n: int)
    requires
        0 <= j <= n,
        a.len() <= n,
        k.len() <= n,
        forall|t: int| 0 <= t < a.len() ==> is_digit(#[trigger] a[t]),
        forall|t: int| 0 <= t < k.len() ==> is_digit(#[trigger] k[t]),
    ensures
        frac_le(a, k, j) <==> scaled(a, j, n) <= scaled(k, j, n),
    decreases n - j,
{
    lemma_scaled_bounds(a, j, n);
    lemma_scaled_bounds(k, j, n);
    if j >= k.len() {
        assert forall|t: int| j <= t < n implies pad_at(k, t) == 48 by {}
        if frac_le(a, k, j) {
            assert forall|t: int| j <= t < n implies pad_at(a, t) == 48 by {}
        } else {
            let t = choose|t: int| j <= t < a.len() && a[t] != 48;
            assert(pad_at(a, t) != 48);
        }
    } else {
        lemma_frac_le_from(a, k, j + 1, n);
        lemma_scaled_bounds(a, j + 1, n);
        lemma_scaled_bounds(k, j + 1, n);
        let da = pad_at(a, j) - 48;
        let dk = pad_at(k, j) - 48;
        assert(pad_at(k, j) == k[j]);
        let p = pow10((n - 1 - j) as nat);
        if da < dk {
            assert(da * p + p <= dk * p) by (nonlinear_arith)
                requires
                    da < dk,
                    p >= 0,
            ;
        } else if da > dk {
            assert(dk * p + p <= da * p) by (nonlinear_arith)
                requires
                    dk < da,
                    p >= 0,
            ;
        }
    }
}

/// Comparing digit by digit is comparing the fractions: `0.a <= 0.k`
/// exactly when `a`, read as a fraction scaled by `10^n` for any `n` that
/// holds both, is at most `k` so read.
pub proof fn lemma_frac_le_is_numeric(a: Seq<u8>, k: Seq<u8>, n: int)
    requires
        a.len() <= n,
        k.len() <= n,
        forall|t: int| 0 <= t < a.len() ==> is_digit(#[trigger] a[t]),
        forall|t: int| 0 <= t < k.len() ==> is_digit(#[trigger] k[t]),
    ensures
        frac_le(a, k, 0) <==> scaled(a, 0, n) <= scaled(k, 0, n),
{
    lemma_frac_le_from(a, k, 0, n);
}

/// The digits of `1 + 2^-24` (which is `0.d * 10`): the largest value that
/// rounds to the float 1.0, every larger one rounding to a float above 1.
pub open spec fn one_plus() -> Seq<u8> {
    seq![49, 48, 48, 48, 48, 48, 48, 48, 53, 57, 54, 48, 52, 54, 52, 52, 55, 55, 53, 51, 57, 48, 54, 50, 53]
}

/// The digits of `2^-150` (which is `0.d * 10^-45`): the largest magnitude
/// that a negative value can have and still round to the float -0.0.
pub open spec fn tiny() -> Seq<u8> {
    seq![55, 48, 48, 54, 52, 57, 50, 51, 50, 49, 54, 50, 52, 48, 56, 53, 51, 53, 52, 54, 49, 56, 54, 52, 55, 57, 49, 54, 52, 52, 57, 53, 56, 48, 54, 53, 54, 52, 48, 49, 51, 48, 57, 55, 48, 57, 51, 56, 50, 53, 55, 56, 56, 53, 56, 55, 56, 53, 51, 52, 49, 52, 49, 57, 52, 52, 56, 57, 53, 53, 52, 49, 51, 52, 50, 57, 51, 48, 51, 48, 48, 55, 52, 51, 51, 49, 57, 48, 57, 52, 49, 56, 49, 48, 54, 48, 55, 57, 49, 48, 49, 53, 54, 50, 53]
}

proof fn lemma_pow2_150()
    ensures
        pow2(24) == 16777216,
        pow2(150) == 1427247692705959881058285969449495136382746624,
{
    assert(pow2(0) == 1);
    assert(pow2(1) == 2);
    assert(pow2(2) == 4);
    assert(pow2(3) == 8);
    assert(pow2(4) == 16);
    assert(pow2(5) == 32);
    assert(pow2(6) == 64);
    assert(pow2(7) == 128);
    assert(pow2(8) == 256);
    assert(pow2(9) == 512);
    assert(pow2(10) == 1024);
    assert(pow2(11) == 2048);
    assert(pow2(12) == 4096);
    assert(pow2(13) == 8192);
    assert(pow2(14) == 16384);
    assert(pow2(15) == 32768);
    assert(pow2(16) == 65536);
    assert(pow2(17) == 131072);
    assert(pow2(18) == 262144);
    assert(pow2(19) == 524288);
    assert(pow2(20) == 1048576);
    assert(pow2(21) == 2097152);
    assert(pow2(22) == 4194304);
    assert(pow2(23) == 8388608);
    assert(pow2(24) == 16777216);
    assert(pow2(25) == 33554432);
    assert(pow2(26) == 67108864);
    assert(pow2(27) == 134217728);
    assert(pow2(28) == 268435456);
    assert(pow2(29) == 536870912);
    assert(pow2(30) == 1073741824);
    assert(pow2(31) == 2147483648);
    assert(pow2(32) == 4294967296);
    assert(pow2(33) == 8589934592);
    assert(pow2(34) == 17179869184);
    assert(pow2(35) == 34359738368);
    assert(pow2(36) == 68719476736);
    assert(pow2(37) == 137438953472);
    assert(pow2(38) == 274877906944);
    assert(pow2(39) == 549755813888);
    assert(pow2(40) == 1099511627776);
    assert(pow2(41) == 2199023255552);
    assert(pow2(42) == 4398046511104);
    assert(pow2(43) == 8796093022208);
    assert(pow2(44) == 17592186044416);
    assert(pow2(45) == 35184372088832);
    assert(pow2(46) == 70368744177664);
    assert(pow2(47) == 140737488355328);
    assert(pow2(48) == 281474976710656);
    assert(pow2(49) == 562949953421312);
    assert(pow2(50) == 1125899906842624);
    assert(pow2(51) == 2251799813685248);
    assert(pow2(52) == 4503599627370496);
    assert(pow2(53) == 9007199254740992);
    assert(pow2(54) == 18014398509481984);
    assert(pow2(55) == 36028797018963968);
    assert(pow2(56) == 72057594037927936);
    assert(pow2(57) == 144115188075855872);
    assert(pow2(58) == 288230376151711744);
    assert(pow2(59) == 576460752303423488);
    assert(pow2(60) == 1152921504606846976);
    assert(pow2(61) == 2305843009213693952);
    assert(pow2(62) == 4611686018427387904);
    assert(pow2(63) == 9223372036854775808);
    assert(pow2(64) == 18446744073709551616);
    assert(pow2(65) == 36893488147419103232);
    assert(pow2(66) == 73786976294838206464);
    assert(pow2(67) == 147573952589676412928);
    assert(pow2(68) == 295147905179352825856);
    assert(pow2(69) == 590295810358705651712);
    assert(pow2(70) == 1180591620717411303424);
    assert(pow2(71) == 2361183241434822606848);
    assert(pow2(72) == 4722366482869645213696);
    assert(pow2(73) == 9444732965739290427392);
    assert(pow2(74) == 18889465931478580854784);
    assert(pow2(75) == 37778931862957161709568);
    assert(pow2(76) == 75557863725914323419136);
    assert(pow2(77) == 151115727451828646838272);
    assert(pow2(78) == 302231454903657293676544);
    assert(pow2(79) == 604462909807314587353088);
    assert(pow2(80) == 1208925819614629174706176);
    assert(pow2(81) == 2417851639229258349412352);
    assert(pow2(82) == 4835703278458516698824704);
    assert(pow2(83) == 9671406556917033397649408);
    assert(pow2(84) == 19342813113834066795298816);
    assert(pow2(85) == 38685626227668133590597632);
    assert(pow2(86) == 77371252455336267181195264);
    assert(pow2(87) == 154742504910672534362390528);
    assert(pow2(88) == 309485009821345068724781056);
    assert(pow2(89) == 618970019642690137449562112);
    assert(pow2(90) == 1237940039285380274899124224);
    assert(pow2(91) == 2475880078570760549798248448);
    assert(pow2(92) == 4951760157141521099596496896);
    assert(pow2(93) == 9903520314283042199192993792);
    assert(pow2(94) == 19807040628566084398385987584);
    assert(pow2(95) == 39614081257132168796771975168);
    assert(pow2(96) == 79228162514264337593543950336);
    assert(pow2(97) == 158456325028528675187087900672);
    assert(pow2(98) == 316912650057057350374175801344);
    assert(pow2(99) == 633825300114114700748351602688);
    assert(pow2(100) == 1267650600228229401496703205376);
    assert(pow2(101) == 2535301200456458802993406410752);
    assert(pow2(102) == 5070602400912917605986812821504);
    assert(pow2(103) == 10141204801825835211973625643008);
    assert(pow2(104) == 20282409603651670423947251286016);
    assert(pow2(105) == 40564819207303340847894502572032);
    assert(pow2(106) == 81129638414606681695789005144064);
    assert(pow2(107) == 162259276829213363391578010288128);
    assert(pow2(108) == 324518553658426726783156020576256);
    assert(pow2(109) == 649037107316853453566312041152512);
    assert(pow2(110) == 1298074214633706907132624082305024);
    assert(pow2(111) == 2596148429267413814265248164610048);
    assert(pow2(112) == 5192296858534827628530496329220096);
    assert(pow2(113) == 10384593717069655257060992658440192);
    assert(pow2(114) == 20769187434139310514121985316880384);
    assert(pow2(115) == 41538374868278621028243970633760768);
    assert(pow2(116) == 83076749736557242056487941267521536);
    assert(pow2(117) == 166153499473114484112975882535043072);
    assert(pow2(118) == 332306998946228968225951765070086144);
    assert(pow2(119) == 664613997892457936451903530140172288);
    assert(pow2(120) == 1329227995784915872903807060280344576);
    assert(pow2(121) == 2658455991569831745807614120560689152);
    assert(pow2(122) == 5316911983139663491615228241121378304);
    assert(pow2(123) == 10633823966279326983230456482242756608);
    assert(pow2(124) == 21267647932558653966460912964485513216);
    assert(pow2(125) == 42535295865117307932921825928971026432);
    assert(pow2(126) == 85070591730234615865843651857942052864);
    assert(pow2(127) == 170141183460469231731687303715884105728);
    assert(pow2(128) == 340282366920938463463374607431768211456);
    assert(pow2(129) == 680564733841876926926749214863536422912);
    assert(pow2(130) == 1361129467683753853853498429727072845824);
    assert(pow2(131) == 2722258935367507707706996859454145691648);
    assert(pow2(132) == 5444517870735015415413993718908291383296);
    assert(pow2(133) == 10889035741470030830827987437816582766592);
    assert(pow2(134) == 21778071482940061661655974875633165533184);
    assert(pow2(135) == 43556142965880123323311949751266331066368);
    assert(pow2(136) == 87112285931760246646623899502532662132736);
    assert(pow2(137) == 174224571863520493293247799005065324265472);
    assert(pow2(138) == 348449143727040986586495598010130648530944);
    assert(pow2(139) == 696898287454081973172991196020261297061888);
    assert(pow2(140) == 1393796574908163946345982392040522594123776);
    assert(pow2(141) == 2787593149816327892691964784081045188247552);
    assert(pow2(142) == 5575186299632655785383929568162090376495104);
    assert(pow2(143) == 11150372599265311570767859136324180752990208);
    assert(pow2(144) == 22300745198530623141535718272648361505980416);
    assert(pow2(145) == 44601490397061246283071436545296723011960832);
    assert(pow2(146) == 89202980794122492566142873090593446023921664);
    assert(pow2(147) == 178405961588244985132285746181186892047843328);
    assert(pow2(148) == 356811923176489970264571492362373784095686656);
    assert(pow2(149) == 713623846352979940529142984724747568191373312);
    assert(pow2(150) == 1427247692705959881058285969449495136382746624);
}

proof fn lemma_pow10_150()
    ensures
        pow10(24) == 1000000000000000000000000,
        pow10(150) == 1000000000000000000000000000000000000000000000000000000000000000000000000000000000000000000000000000000000000000000000000000000000000000000000000000000,
{
    assert(pow10(0) == 1);
    assert(pow10(1) == 10);
    assert(pow10(2) == 100);
    assert(pow10(3) == 1000);
    assert(pow10(4) == 10000);
    assert(pow10(5) == 100000);
    assert(pow10(6) == 1000000);
    assert(pow10(7) == 10000000);
    assert(pow10(8) == 100000000);
    assert(pow10(9) == 1000000000);
    assert(pow10(10) == 10000000000);
    assert(pow10(11) == 100000000000);
    assert(pow10(12) == 1000000000000);
    assert(pow10(13) == 10000000000000);
    assert(pow10(14) == 100000000000000);
    assert(pow10(15) == 1000000000000000);
    assert(pow10(16) == 10000000000000000);
    assert(pow10(17) == 100000000000000000);
    assert(pow10(18) == 1000000000000000000);
    assert(pow10(19) == 10000000000000000000);
    assert(pow10(20) == 100000000000000000000);
    assert(pow10(21) == 1000000000000000000000);
    assert(pow10(22) == 10000000000000000000000);
    assert(pow10(23) == 100000000000000000000000);
    assert(pow10(24) == 1000000000000000000000000);
    assert(pow10(25) == 10000000000000000000000000);
    assert(pow10(26) == 100000000000000000000000000);
    assert(pow10(27) == 1000000000000000000000000000);
    assert(pow10(28) == 10000000000000000000000000000);
    assert(pow10(29) == 100000000000000000000000000000);
    assert(pow10(30) == 1000000000000000000000000000000);
    assert(pow10(31) == 10000000000000000000000000000000);
    assert(pow10(32) == 100000000000000000000000000000000);
    assert(pow10(33) == 1000000000000000000000000000000000);
    assert(pow10(34) == 10000000000000000000000000000000000);
    assert(pow10(35) == 100000000000000000000000000000000000);
    assert(pow10(36) == 1000000000000000000000000000000000000);
    assert(pow10(37) == 10000000000000000000000000000000000000);
    assert(pow10(38) == 100000000000000000000000000000000000000);
    assert(pow10(39) == 1000000000000000000000000000000000000000);
    assert(pow10(40) == 10000000000000000000000000000000000000000);
    assert(pow10(41) == 100000000000000000000000000000000000000000);
    assert(pow10(42) == 1000000000000000000000000000000000000000000);
    assert(pow10(43) == 10000000000000000000000000000000000000000000);
    assert(pow10(44) == 100000000000000000000000000000000000000000000);
    assert(pow10(45) == 1000000000000000000000000000000000000000000000);
    assert(pow10(46) == 10000000000000000000000000000000000000000000000);
    assert(pow10(47) == 100000000000000000000000000000000000000000000000);
    assert(pow10(48) == 1000000000000000000000000000000000000000000000000);
    assert(pow10(49) == 10000000000000000000000000000000000000000000000000);
    assert(pow10(50) == 100000000000000000000000000000000000000000000000000);
    assert(pow10(51) == 1000000000000000000000000000000000000000000000000000);
    assert(pow10(52) == 10000000000000000000000000000000000000000000000000000);
    assert(pow10(53) == 100000000000000000000000000000000000000000000000000000);
    assert(pow10(54) == 1000000000000000000000000000000000000000000000000000000);
    assert(pow10(55) == 10000000000000000000000000000000000000000000000000000000);
    assert(pow10(56) == 100000000000000000000000000000000000000000000000000000000);
    assert(pow10(57) == 1000000000000000000000000000000000000000000000000000000000);
    assert(pow10(58) == 10000000000000000000000000000000000000000000000000000000000);
    assert(pow10(59) == 100000000000000000000000000000000000000000000000000000000000);
    assert(pow10(60) == 1000000000000000000000000000000000000000000000000000000000000);
    assert(pow10(61) == 10000000000000000000000000000000000000000000000000000000000000);
    assert(pow10(62) == 100000000000000000000000000000000000000000000000000000000000000);
    assert(pow10(63) == 1000000000000000000000000000000000000000000000000000000000000000);
    assert(pow10(64) == 10000000000000000000000000000000000000000000000000000000000000000);
    assert(pow10(65) == 100000000000000000000000000000000000000000000000000000000000000000);
    assert(pow10(66) == 1000000000000000000000000000000000000000000000000000000000000000000);
    assert(pow10(67) == 10000000000000000000000000000000000000000000000000000000000000000000);
    assert(pow10(68) == 100000000000000000000000000000000000000000000000000000000000000000000);
    assert(pow10(69) == 1000000000000000000000000000000000000000000000000000000000000000000000);
    assert(pow10(70) == 10000000000000000000000000000000000000000000000000000000000000000000000);
    assert(pow10(71) == 100000000000000000000000000000000000000000000000000000000000000000000000);
    assert(pow10(72) == 1000000000000000000000000000000000000000000000000000000000000000000000000);
    assert(pow10(73) == 10000000000000000000000000000000000000000000000000000000000000000000000000);
    assert(pow10(74) == 100000000000000000000000000000000000000000000000000000000000000000000000000);
    assert(pow10(75) == 1000000000000000000000000000000000000000000000000000000000000000000000000000);
    assert(pow10(76) == 10000000000000000000000000000000000000000000000000000000000000000000000000000);
    assert(pow10(77) == 100000000000000000000000000000000000000000000000000000000000000000000000000000);
    assert(pow10(78) == 1000000000000000000000000000000000000000000000000000000000000000000000000000000);
    assert(pow10(79) == 10000000000000000000000000000000000000000000000000000000000000000000000000000000);
    assert(pow10(80) == 100000000000000000000000000000000000000000000000000000000000000000000000000000000);
    assert(pow10(81) == 1000000000000000000000000000000000000000000000000000000000000000000000000000000000);
    assert(pow10(82) == 10000000000000000000000000000000000000000000000000000000000000000000000000000000000);
    assert(pow10(83) == 100000000000000000000000000000000000000000000000000000000000000000000000000000000000);
    assert(pow10(84) == 1000000000000000000000000000000000000000000000000000000000000000000000000000000000000);
    assert(pow10(85) == 10000000000000000000000000000000000000000000000000000000000000000000000000000000000000);
    assert(pow10(86) == 100000000000000000000000000000000000000000000000000000000000000000000000000000000000000);
    assert(pow10(87) == 1000000000000000000000000000000000000000000000000000000000000000000000000000000000000000);
    assert(pow10(88) == 10000000000000000000000000000000000000000000000000000000000000000000000000000000000000000);
    assert(pow10(89) == 100000000000000000000000000000000000000000000000000000000000000000000000000000000000000000);
    assert(pow10(90) == 1000000000000000000000000000000000000000000000000000000000000000000000000000000000000000000);
    assert(pow10(91) == 10000000000000000000000000000000000000000000000000000000000000000000000000000000000000000000);
    assert(pow10(92) == 100000000000000000000000000000000000000000000000000000000000000000000000000000000000000000000);
    assert(pow10(93) == 1000000000000000000000000000000000000000000000000000000000000000000000000000000000000000000000);
    assert(pow10(94) == 10000000000000000000000000000000000000000000000000000000000000000000000000000000000000000000000);
    assert(pow10(95) == 100000000000000000000000000000000000000000000000000000000000000000000000000000000000000000000000);
    assert(pow10(96) == 1000000000000000000000000000000000000000000000000000000000000000000000000000000000000000000000000);
    assert(pow10(97) == 10000000000000000000000000000000000000000000000000000000000000000000000000000000000000000000000000);
    assert(pow10(98) == 100000000000000000000000000000000000000000000000000000000000000000000000000000000000000000000000000);
    assert(pow10(99) == 1000000000000000000000000000000000000000000000000000000000000000000000000000000000000000000000000000);
    assert(pow10(100) == 10000000000000000000000000000000000000000000000000000000000000000000000000000000000000000000000000000);
    assert(pow10(101) == 100000000000000000000000000000000000000000000000000000000000000000000000000000000000000000000000000000);
    assert(pow10(102) == 1000000000000000000000000000000000000000000000000000000000000000000000000000000000000000000000000000000);
    assert(pow10(103) == 10000000000000000000000000000000000000000000000000000000000000000000000000000000000000000000000000000000);
    assert(pow10(104) == 100000000000000000000000000000000000000000000000000000000000000000000000000000000000000000000000000000000);
    assert(pow10(105) == 1000000000000000000000000000000000000000000000000000000000000000000000000000000000000000000000000000000000);
    assert(pow10(106) == 10000000000000000000000000000000000000000000000000000000000000000000000000000000000000000000000000000000000);
    assert(pow10(107) == 100000000000000000000000000000000000000000000000000000000000000000000000000000000000000000000000000000000000);
    assert(pow10(108) == 1000000000000000000000000000000000000000000000000000000000000000000000000000000000000000000000000000000000000);
    assert(pow10(109) == 10000000000000000000000000000000000000000000000000000000000000000000000000000000000000000000000000000000000000);
    assert(pow10(110) == 100000000000000000000000000000000000000000000000000000000000000000000000000000000000000000000000000000000000000);
    assert(pow10(111) == 1000000000000000000000000000000000000000000000000000000000000000000000000000000000000000000000000000000000000000);
    assert(pow10(112) == 10000000000000000000000000000000000000000000000000000000000000000000000000000000000000000000000000000000000000000);
    assert(pow10(113) == 100000000000000000000000000000000000000000000000000000000000000000000000000000000000000000000000000000000000000000);
    assert(pow10(114) == 1000000000000000000000000000000000000000000000000000000000000000000000000000000000000000000000000000000000000000000);
    assert(pow10(115) == 10000000000000000000000000000000000000000000000000000000000000000000000000000000000000000000000000000000000000000000);
    assert(pow10(116) == 100000000000000000000000000000000000000000000000000000000000000000000000000000000000000000000000000000000000000000000);
    assert(pow10(117) == 1000000000000000000000000000000000000000000000000000000000000000000000000000000000000000000000000000000000000000000000);
    assert(pow10(118) == 10000000000000000000000000000000000000000000000000000000000000000000000000000000000000000000000000000000000000000000000);
    assert(pow10(119) == 100000000000000000000000000000000000000000000000000000000000000000000000000000000000000000000000000000000000000000000000);
    assert(pow10(120) == 1000000000000000000000000000000000000000000000000000000000000000000000000000000000000000000000000000000000000000000000000);
    assert(pow10(121) == 10000000000000000000000000000000000000000000000000000000000000000000000000000000000000000000000000000000000000000000000000);
    assert(pow10(122) == 100000000000000000000000000000000000000000000000000000000000000000000000000000000000000000000000000000000000000000000000000);
    assert(pow10(123) == 1000000000000000000000000000000000000000000000000000000000000000000000000000000000000000000000000000000000000000000000000000);
    assert(pow10(124) == 10000000000000000000000000000000000000000000000000000000000000000000000000000000000000000000000000000000000000000000000000000);
    assert(pow10(125) == 100000000000000000000000000000000000000000000000000000000000000000000000000000000000000000000000000000000000000000000000000000);
    assert(pow10(126) == 1000000000000000000000000000000000000000000000000000000000000000000000000000000000000000000000000000000000000000000000000000000);
    assert(pow10(127) == 10000000000000000000000000000000000000000000000000000000000000000000000000000000000000000000000000000000000000000000000000000000);
    assert(pow10(128) == 100000000000000000000000000000000000000000000000000000000000000000000000000000000000000000000000000000000000000000000000000000000);
    assert(pow10(129) == 1000000000000000000000000000000000000000000000000000000000000000000000000000000000000000000000000000000000000000000000000000000000);
    assert(pow10(130) == 10000000000000000000000000000000000000000000000000000000000000000000000000000000000000000000000000000000000000000000000000000000000);
    assert(pow10(131) == 100000000000000000000000000000000000000000000000000000000000000000000000000000000000000000000000000000000000000000000000000000000000);
    assert(pow10(132) == 1000000000000000000000000000000000000000000000000000000000000000000000000000000000000000000000000000000000000000000000000000000000000);
    assert(pow10(133) == 10000000000000000000000000000000000000000000000000000000000000000000000000000000000000000000000000000000000000000000000000000000000000);
    assert(pow10(134) == 100000000000000000000000000000000000000000000000000000000000000000000000000000000000000000000000000000000000000000000000000000000000000);
    assert(pow10(135) == 1000000000000000000000000000000000000000000000000000000000000000000000000000000000000000000000000000000000000000000000000000000000000000);
    assert(pow10(136) == 10000000000000000000000000000000000000000000000000000000000000000000000000000000000000000000000000000000000000000000000000000000000000000);
    assert(pow10(137) == 100000000000000000000000000000000000000000000000000000000000000000000000000000000000000000000000000000000000000000000000000000000000000000);
    assert(pow10(138) == 1000000000000000000000000000000000000000000000000000000000000000000000000000000000000000000000000000000000000000000000000000000000000000000);
    assert(pow10(139) == 10000000000000000000000000000000000000000000000000000000000000000000000000000000000000000000000000000000000000000000000000000000000000000000);
    assert(pow10(140) == 100000000000000000000000000000000000000000000000000000000000000000000000000000000000000000000000000000000000000000000000000000000000000000000);
    assert(pow10(141) == 1000000000000000000000000000000000000000000000000000000000000000000000000000000000000000000000000000000000000000000000000000000000000000000000);
    assert(pow10(142) == 10000000000000000000000000000000000000000000000000000000000000000000000000000000000000000000000000000000000000000000000000000000000000000000000);
    assert(pow10(143) == 100000000000000000000000000000000000000000000000000000000000000000000000000000000000000000000000000000000000000000000000000000000000000000000000);
    assert(pow10(144) == 1000000000000000000000000000000000000000000000000000000000000000000000000000000000000000000000000000000000000000000000000000000000000000000000000);
    assert(pow10(145) == 10000000000000000000000000000000000000000000000000000000000000000000000000000000000000000000000000000000000000000000000000000000000000000000000000);
    assert(pow10(146) == 100000000000000000000000000000000000000000000000000000000000000000000000000000000000000000000000000000000000000000000000000000000000000000000000000);
    assert(pow10(147) == 1000000000000000000000000000000000000000000000000000000000000000000000000000000000000000000000000000000000000000000000000000000000000000000000000000);
    assert(pow10(148) == 10000000000000000000000000000000000000000000000000000000000000000000000000000000000000000000000000000000000000000000000000000000000000000000000000000);
    assert(pow10(149) == 100000000000000000000000000000000000000000000000000000000000000000000000000000000000000000000000000000000000000000000000000000000000000000000000000000);
    assert(pow10(150) == 1000000000000000000000000000000000000000000000000000000000000000000000000000000000000000000000000000000000000000000000000000000000000000000000000000000);
}

#[verifier::rlimit(50)]
proof fn lemma_tiny_value()
    ensures
        dec_val(tiny(), 0, 105) == 700649232162408535461864791644958065640130970938257885878534141944895541342930300743319094181060791015625,
{
    assert(dec_val(tiny(), 0, 0) == 0);
    assert(dec_val(tiny(), 0, 1) == 7);
    assert(dec_val(tiny(), 0, 2) == 70);
    assert(dec_val(tiny(), 0, 3) == 700);
    assert(dec_val(tiny(), 0, 4) == 7006);
    assert(dec_val(tiny(), 0, 5) == 70064);
    assert(dec_val(tiny(), 0, 6) == 700649);
    assert(dec_val(tiny(), 0, 7) == 7006492);
    assert(dec_val(tiny(), 0, 8) == 70064923);
    assert(dec_val(tiny(), 0, 9) == 700649232);
    assert(dec_val(tiny(), 0, 10) == 7006492321);
    assert(dec_val(tiny(), 0, 11) == 70064923216);
    assert(dec_val(tiny(), 0, 12) == 700649232162);
    assert(dec_val(tiny(), 0, 13) == 7006492321624);
    assert(dec_val(tiny(), 0, 14) == 70064923216240);
    assert(dec_val(tiny(), 0, 15) == 700649232162408);
    assert(dec_val(tiny(), 0, 16) == 7006492321624085);
    assert(dec_val(tiny(), 0, 17) == 70064923216240853);
    assert(dec_val(tiny(), 0, 18) == 700649232162408535);
    assert(dec_val(tiny(), 0, 19) == 7006492321624085354);
    assert(dec_val(tiny(), 0, 20) == 70064923216240853546);
    assert(dec_val(tiny(), 0, 21) == 700649232162408535461);
    assert(dec_val(tiny(), 0, 22) == 7006492321624085354618);
    assert(dec_val(tiny(), 0, 23) == 70064923216240853546186);
    assert(dec_val(tiny(), 0, 24) == 700649232162408535461864);
    assert(dec_val(tiny(), 0, 25) == 7006492321624085354618647);
    assert(dec_val(tiny(), 0, 26) == 70064923216240853546186479);
    assert(dec_val(tiny(), 0, 27) == 700649232162408535461864791);
    assert(dec_val(tiny(), 0, 28) == 7006492321624085354618647916);
    assert(dec_val(tiny(), 0, 29) == 70064923216240853546186479164);
    assert(dec_val(tiny(), 0, 30) == 700649232162408535461864791644);
    assert(dec_val(tiny(), 0, 31) == 7006492321624085354618647916449);
    assert(dec_val(tiny(), 0, 32) == 70064923216240853546186479164495);
    assert(dec_val(tiny(), 0, 33) == 700649232162408535461864791644958);
    assert(dec_val(tiny(), 0, 34) == 7006492321624085354618647916449580);
    assert(dec_val(tiny(), 0, 35) == 70064923216240853546186479164495806);
    assert(dec_val(tiny(), 0, 36) == 700649232162408535461864791644958065);
    assert(dec_val(tiny(), 0, 37) == 7006492321624085354618647916449580656);
    assert(dec_val(tiny(), 0, 38) == 70064923216240853546186479164495806564);
    assert(dec_val(tiny(), 0, 39) == 700649232162408535461864791644958065640);
    assert(dec_val(tiny(), 0, 40) == 7006492321624085354618647916449580656401);
    assert(dec_val(tiny(), 0, 41) == 70064923216240853546186479164495806564013);
    assert(dec_val(tiny(), 0, 42) == 700649232162408535461864791644958065640130);
    assert(dec_val(tiny(), 0, 43) == 7006492321624085354618647916449580656401309);
    assert(dec_val(tiny(), 0, 44) == 70064923216240853546186479164495806564013097);
    assert(dec_val(tiny(), 0, 45) == 700649232162408535461864791644958065640130970);
    assert(dec_val(tiny(), 0, 46) == 7006492321624085354618647916449580656401309709);
    assert(dec_val(tiny(), 0, 47) == 70064923216240853546186479164495806564013097093);
    assert(dec_val(tiny(), 0, 48) == 700649232162408535461864791644958065640130970938);
    assert(dec_val(tiny(), 0, 49) == 7006492321624085354618647916449580656401309709382);
    assert(dec_val(tiny(), 0, 50) == 70064923216240853546186479164495806564013097093825);
    assert(dec_val(tiny(), 0, 51) == 700649232162408535461864791644958065640130970938257);
    assert(dec_val(tiny(), 0, 52) == 7006492321624085354618647916449580656401309709382578);
    assert(dec_val(tiny(), 0, 53) == 70064923216240853546186479164495806564013097093825788);
    assert(dec_val(tiny(), 0, 54) == 700649232162408535461864791644958065640130970938257885);
    assert(dec_val(tiny(), 0, 55) == 7006492321624085354618647916449580656401309709382578858);
    assert(dec_val(tiny(), 0, 56) == 70064923216240853546186479164495806564013097093825788587);
    assert(dec_val(tiny(), 0, 57) == 700649232162408535461864791644958065640130970938257885878);
    assert(dec_val(tiny(), 0, 58) == 7006492321624085354618647916449580656401309709382578858785);
    assert(dec_val(tiny(), 0, 59) == 70064923216240853546186479164495806564013097093825788587853);
    assert(dec_val(tiny(), 0, 60) == 700649232162408535461864791644958065640130970938257885878534);
    assert(dec_val(tiny(), 0, 61) == 7006492321624085354618647916449580656401309709382578858785341);
    assert(dec_val(tiny(), 0, 62) == 70064923216240853546186479164495806564013097093825788587853414);
    assert(dec_val(tiny(), 0, 63) == 700649232162408535461864791644958065640130970938257885878534141);
    assert(dec_val(tiny(), 0, 64) == 7006492321624085354618647916449580656401309709382578858785341419);
    assert(dec_val(tiny(), 0, 65) == 70064923216240853546186479164495806564013097093825788587853414194);
    assert(dec_val(tiny(), 0, 66) == 700649232162408535461864791644958065640130970938257885878534141944);
    assert(dec_val(tiny(), 0, 67) == 7006492321624085354618647916449580656401309709382578858785341419448);
    assert(dec_val(tiny(), 0, 68) == 70064923216240853546186479164495806564013097093825788587853414194489);
    assert(dec_val(tiny(), 0, 69) == 700649232162408535461864791644958065640130970938257885878534141944895);
    assert(dec_val(tiny(), 0, 70) == 7006492321624085354618647916449580656401309709382578858785341419448955);
    assert(dec_val(tiny(), 0, 71) == 70064923216240853546186479164495806564013097093825788587853414194489554);
    assert(dec_val(tiny(), 0, 72) == 700649232162408535461864791644958065640130970938257885878534141944895541);
    assert(dec_val(tiny(), 0, 73) == 7006492321624085354618647916449580656401309709382578858785341419448955413);
    assert(dec_val(tiny(), 0, 74) == 70064923216240853546186479164495806564013097093825788587853414194489554134);
    assert(dec_val(tiny(), 0, 75) == 700649232162408535461864791644958065640130970938257885878534141944895541342);
    assert(dec_val(tiny(), 0, 76) == 7006492321624085354618647916449580656401309709382578858785341419448955413429);
    assert(dec_val(tiny(), 0, 77) == 70064923216240853546186479164495806564013097093825788587853414194489554134293);
    assert(dec_val(tiny(), 0, 78) == 700649232162408535461864791644958065640130970938257885878534141944895541342930);
    assert(dec_val(tiny(), 0, 79) == 7006492321624085354618647916449580656401309709382578858785341419448955413429303);
    assert(dec_val(tiny(), 0, 80) == 70064923216240853546186479164495806564013097093825788587853414194489554134293030);
    assert(dec_val(tiny(), 0, 81) == 700649232162408535461864791644958065640130970938257885878534141944895541342930300);
    assert(dec_val(tiny(), 0, 82) == 7006492321624085354618647916449580656401309709382578858785341419448955413429303007);
    assert(dec_val(tiny(), 0, 83) == 70064923216240853546186479164495806564013097093825788587853414194489554134293030074);
    assert(dec_val(tiny(), 0, 84) == 700649232162408535461864791644958065640130970938257885878534141944895541342930300743);
    assert(dec_val(tiny(), 0, 85) == 7006492321624085354618647916449580656401309709382578858785341419448955413429303007433);
    assert(dec_val(tiny(), 0, 86) == 70064923216240853546186479164495806564013097093825788587853414194489554134293030074331);
    assert(dec_val(tiny(), 0, 87) == 700649232162408535461864791644958065640130970938257885878534141944895541342930300743319);
    assert(dec_val(tiny(), 0, 88) == 7006492321624085354618647916449580656401309709382578858785341419448955413429303007433190);
    assert(dec_val(tiny(), 0, 89) == 70064923216240853546186479164495806564013097093825788587853414194489554134293030074331909);
    assert(dec_val(tiny(), 0, 90) == 700649232162408535461864791644958065640130970938257885878534141944895541342930300743319094);
    assert(dec_val(tiny(), 0, 91) == 7006492321624085354618647916449580656401309709382578858785341419448955413429303007433190941);
    assert(dec_val(tiny(), 0, 92) == 70064923216240853546186479164495806564013097093825788587853414194489554134293030074331909418);
    assert(dec_val(tiny(), 0, 93) == 700649232162408535461864791644958065640130970938257885878534141944895541342930300743319094181);
    assert(dec_val(tiny(), 0, 94) == 7006492321624085354618647916449580656401309709382578858785341419448955413429303007433190941810);
    assert(dec_val(tiny(), 0, 95) == 70064923216240853546186479164495806564013097093825788587853414194489554134293030074331909418106);
    assert(dec_val(tiny(), 0, 96) == 700649232162408535461864791644958065640130970938257885878534141944895541342930300743319094181060);
    assert(dec_val(tiny(), 0, 97) == 7006492321624085354618647916449580656401309709382578858785341419448955413429303007433190941810607);
    assert(dec_val(tiny(), 0, 98) == 70064923216240853546186479164495806564013097093825788587853414194489554134293030074331909418106079);
    assert(dec_val(tiny(), 0, 99) == 700649232162408535461864791644958065640130970938257885878534141944895541342930300743319094181060791);
    assert(dec_val(tiny(), 0, 100) == 7006492321624085354618647916449580656401309709382578858785341419448955413429303007433190941810607910);
    assert(dec_val(tiny(), 0, 101) == 70064923216240853546186479164495806564013097093825788587853414194489554134293030074331909418106079101);
    assert(dec_val(tiny(), 0, 102) == 700649232162408535461864791644958065640130970938257885878534141944895541342930300743319094181060791015);
    assert(dec_val(tiny(), 0, 103) == 7006492321624085354618647916449580656401309709382578858785341419448955413429303007433190941810607910156);
    assert(dec_val(tiny(), 0, 104) == 70064923216240853546186479164495806564013097093825788587853414194489554134293030074331909418106079101562);
    assert(dec_val(tiny(), 0, 105) == 700649232162408535461864791644958065640130970938257885878534141944895541342930300743319094181060791015625);
}

proof fn lemma_one_plus_value()
    ensures
        dec_val(one_plus(), 0, 25) == 1000000059604644775390625,
{
    assert(dec_val(one_plus(), 0, 0) == 0);
    assert(dec_val(one_plus(), 0, 1) == 1);
    assert(dec_val(one_plus(), 0, 2) == 10);
    assert(dec_val(one_plus(), 0, 3) == 100);
    assert(dec_val(one_plus(), 0, 4) == 1000);
    assert(dec_val(one_plus(), 0, 5) == 10000);
    assert(dec_val(one_plus(), 0, 6) == 100000);
    assert(dec_val(one_plus(), 0, 7) == 1000000);
    assert(dec_val(one_plus(), 0, 8) == 10000000);
    assert(dec_val(one_plus(), 0, 9) == 100000005);
    assert(dec_val(one_plus(), 0, 10) == 1000000059);
    assert(dec_val(one_plus(), 0, 11) == 10000000596);
    assert(dec_val(one_plus(), 0, 12) == 100000005960);
    assert(dec_val(one_plus(), 0, 13) == 1000000059604);
    assert(dec_val(one_plus(), 0, 14) == 10000000596046);
    assert(dec_val(one_plus(), 0, 15) == 100000005960464);
    assert(dec_val(one_plus(), 0, 16) == 1000000059604644);
    assert(dec_val(one_plus(), 0, 17) == 10000000596046447);
    assert(dec_val(one_plus(), 0, 18) == 100000005960464477);
    assert(dec_val(one_plus(), 0, 19) == 1000000059604644775);
    assert(dec_val(one_plus(), 0, 20) == 10000000596046447753);
    assert(dec_val(one_plus(), 0, 21) == 100000005960464477539);
    assert(dec_val(one_plus(), 0, 22) == 1000000059604644775390);
    assert(dec_val(one_plus(), 0, 23) == 10000000596046447753906);
    assert(dec_val(one_plus(), 0, 24) == 100000005960464477539062);
    assert(dec_val(one_plus(), 0, 25) == 1000000059604644775390625);
}

/// The digit strings above are the numbers they stand for.
pub proof fn lemma_limits()
    ensures
        dec_val(one_plus(), 0, 25) * pow2(24) == pow10(24) * (pow2(24) + 1),
        dec_val(tiny(), 0, 105) * pow2(150) == pow10(150),
{
    lemma_pow2_150();
    lemma_pow10_150();
    lemma_tiny_value();
    lemma_one_plus_value();
}

/// The opacity of a number with sign `neg` whose value is `0.sig * 10^p`,
/// `sig` having no leading `0`: zero for no digit; for a positive value,
/// `None` when it rounds above 1, else its billionths, rounded down and at
/// most a billion; for a negative value, zero when it rounds to -0.0, else
/// `None`.
pub open spec fn opacity_of(neg: bool, sig: Seq<u8>, p: int) -> Option<Opacity> {
    if sig.len() == 0 {
        Some(Opacity { parts_per_billion: 0 })
    } else if !neg {
        if p < 1 {
            Some(Opacity { parts_per_billion: prefix_val(sig, p + 9) as u32 })
        } else if p == 1 && frac_le(sig, one_plus(), 0) {
            Some(Opacity { parts_per_billion: 1_000_000_000 })
        } else {
            None
        }
    } else if p < -45 || (p == -45 && frac_le(sig, tiny(), 0)) {
        Some(Opacity { parts_per_billion: 0 })
    } else {
        None
    }
}

/// The opacity that `s` writes, if it writes a number whose nearest 32-bit
/// float lies in `[0, 1]`.
#[verifier::opaque]
pub open spec fn spec_opacity(s: Seq<u8>) -> Option<Opacity> {
    match num_layout(s) {
        None => None,
        Some((a, b, c, d, e, f, eneg)) => {
            let digits = s.subrange(a, b) + s.subrange(c, d);
            let z = lead_zeros(digits, 0);
            let ev = dec_val(s, e, f) as int;
            let p = (b - a) - z + (if eneg {
                -ev
            } else {
                ev
            });
            opacity_of(s.len() > 0 && s[0] == 45, digits.subrange(z, digits.len() as int), p)
        },
    }
}

pub proof fn lemma_digits_end(s: Seq<u8>, i: int, hi: int)
    requires
        0 <= i <= hi <= s.len(),
    ensures
        i <= digits_end(s, i, hi) <= hi,
        forall|k: int| i <= k < digits_end(s, i, hi) ==> is_digit(s[k]),
        digits_end(s, i, hi) < hi ==> !is_digit(s[digits_end(s, i, hi)]),
    decreases hi - i,
{
    if i < hi && is_digit(s[i]) {
        lemma_digits_end(s, i + 1, hi);
    }
}

fn digits_end_at(s: &[u8], i: usize, hi: usize) -> (r: usize)
    requires
        i <= hi <= s@.len(),
    ensures
        r == digits_end(s@, i as int, hi as int),
        i <= r <= hi,
{
    let mut k = i;
    while k < hi && 48 <= s[k] && s[k] <= 57
        invariant
            i <= k <= hi <= s@.len(),
            digits_end(s@, i as int, hi as int) == digits_end(s@, k as int, hi as int),
        decreases hi - k,
    {
        k = k + 1;
    }
    k
}

fn one_plus_vec() -> (v: Vec<u8>)
    ensures
        v@ == one_plus(),
{
    let v: Vec<u8> = vec![49, 48, 48, 48, 48, 48, 48, 48, 53, 57, 54, 48, 52, 54, 52, 52, 55, 55, 53, 51, 57, 48, 54, 50, 53];
    assert(v@ =~= one_plus());
    v
}

fn tiny_vec() -> (v: Vec<u8>)
    ensures
        v@ == tiny(),
{
    let v: Vec<u8> = vec![55, 48, 48, 54, 52, 57, 50, 51, 50, 49, 54, 50, 52, 48, 56, 53, 51, 53, 52, 54, 49, 56, 54, 52, 55, 57, 49, 54, 52, 52, 57, 53, 56, 48, 54, 53, 54, 52, 48, 49, 51, 48, 57, 55, 48, 57, 51, 56, 50, 53, 55, 56, 56, 53, 56, 55, 56, 53, 51, 52, 49, 52, 49, 57, 52, 52, 56, 57, 53, 53, 52, 49, 51, 52, 50, 57, 51, 48, 51, 48, 48, 55, 52, 51, 51, 49, 57, 48, 57, 52, 49, 56, 49, 48, 54, 48, 55, 57, 49, 48, 49, 53, 54, 50, 53];
    assert(v@ =~= tiny());
    v
}

/// Whether `0.d[z..]` is at most `0.k`.
fn frac_le_exec(d: &Vec<u8>, z: usize, k: &Vec<u8>) -> (r: bool)
    requires
        z <= d@.len(),
    ensures
        r == frac_le(d@.subrange(z as int, d@.len() as int), k@, 0),
{
    let ghost a = d@.subrange(z as int, d@.len() as int);
    let avail = d.len() - z;
    let mut j: usize = 0;
    while j < k.len()
        invariant
            a == d@.subrange(z as int, d@.len() as int),
            avail == a.len(),
            avail == d@.len() - z,
            d@.len() <= usize::MAX,
            z <= d@.len(),
            j <= k@.len(),
            frac_le(a, k@, 0) == frac_le(a, k@, j as int),
        decreases k@.len() - j,
    {
        let x: u8 = if j < avail {
            d[z + j]
        } else {
            48
        };
        assert(x == pad_at(a, j as int));
        if x < k[j] {
            return true;
        }
        if x > k[j] {
            return false;
        }
        j = j + 1;
    }
    if j >= avail {
        assert forall|t: int| j <= t < a.len() implies a[t] == 48 by {}
        return true;
    }
    let mut t: usize = z + j;
    while t < d.len()
        invariant
            a == d@.subrange(z as int, d@.len() as int),
            j == k@.len(),
            z + j <= t <= d@.len(),
            forall|u: int| j <= u < t - z ==> a[u] == 48,
            frac_le(a, k@, 0) == frac_le(a, k@, j as int),
        decreases d@.len() - t,
    {
        if d[t] != 48 {
            assert(a[t - z] != 48);
            return false;
        }
        t = t + 1;
    }
    true
}

proof fn lemma_pow10_mono(a: nat, b: nat)
    requires
        a <= b,
    ensures
        pow10(a) <= pow10(b),
    decreases b,
{
    if a < b {
        lemma_pow10_mono(a, (b - 1) as nat);
    }
}

/// The first `m` digits of `d[z..]`, padded with `0`, as a number.
fn prefix_val_exec(d: &Vec<u8>, z: usize, m: usize) -> (r: u32)
    requires
        z <= d@.len(),
        1 <= m <= 9,
        forall|t: int| 0 <= t < d@.len() ==> is_digit(#[trigger] d@[t]),
    ensures
        r == prefix_val(d@.subrange(z as int, d@.len() as int), m as int),
        r < 1_000_000_000,
{
    let ghost a = d@.subrange(z as int, d@.len() as int);
    let ghost pd = Seq::new(m as nat, |j: int| pad_at(a, j));
    let avail = d.len() - z;
    let mut v: u64 = 0;
    let mut p: u64 = 1;
    let mut j: usize = 0;
    proof {
        reveal_with_fuel(pow10, 10);
        assert(pow10(9) == 1_000_000_000);
    }
    while j < m
        invariant
            a == d@.subrange(z as int, d@.len() as int),
            avail == a.len(),
            avail == d@.len() - z,
            d@.len() <= usize::MAX,
            z <= d@.len(),
            forall|t: int| 0 <= t < d@.len() ==> is_digit(#[trigger] d@[t]),
            pd == Seq::new(m as nat, |i: int| pad_at(a, i)),
            j <= m <= 9,
            p == pow10(j as nat),
            v < p,
            v == dec_val(pd, 0, j as int),
            pow10(9) == 1_000_000_000,
        decreases m - j,
    {
        proof {
            lemma_pow10_mono(j as nat, 9);
        }
        let x: u8 = if j < avail {
            d[z + j]
        } else {
            48
        };
        assert(x == pd[j as int]);
        assert(is_digit(x));
        v = v * 10 + (x - 48) as u64;
        p = p * 10;
        j = j + 1;
    }
    proof {
        lemma_pow10_mono(m as nat, 9);
    }
    v as u32
}


/// Where the parts of the number in `s` lie, as [`num_layout`] has them.
fn layout_at(s: &[u8]) -> (r: Option<(usize, usize, usize, usize, usize, usize, bool)>)
    ensures
        match r {
            Some((a, b, c, d, e, f, eneg)) => {
                &&& num_layout(s@) == Some((a as int, b as int, c as int, d as int, e as int, f as int, eneg))
                &&& a <= b <= c <= d <= e <= f <= s@.len()
                &&& forall|t: int| a <= t < b ==> is_digit(#[trigger] s@[t])
                &&& forall|t: int| c <= t < d ==> is_digit(#[trigger] s@[t])
                &&& forall|t: int| e <= t < f ==> is_digit(#[trigger] s@[t])
            },
            None => num_layout(s@) is None,
        },
{
    let ghost b = s@;
    let n = s.len();
    let p: usize = if n > 0 && (s[0] == 43 || s[0] == 45) {
        1
    } else {
        0
    };
    let d1e = digits_end_at(s, p, n);
    proof {
        lemma_digits_end(b, p as int, n as int);
    }
    let dot = d1e < n && s[d1e] == 46;
    let f0 = if dot {
        d1e + 1
    } else {
        d1e
    };
    let fe = if dot {
        digits_end_at(s, d1e + 1, n)
    } else {
        d1e
    };
    proof {
        if dot {
            lemma_digits_end(b, d1e + 1, n as int);
        }
    }
    if d1e == p && fe == f0 {
        return None;
    }
    if fe == n {
        return Some((p, d1e, f0, fe, n, n, false));
    }
    if !(s[fe] == 101 || s[fe] == 69) {
        return None;
    }
    let signed = fe + 1 < n && (s[fe + 1] == 43 || s[fe + 1] == 45);
    let q = if signed {
        fe + 2
    } else {
        fe + 1
    };
    let e2 = digits_end_at(s, q, n);
    proof {
        lemma_digits_end(b, q as int, n as int);
    }
    if !(q < e2 && e2 == n) {
        return None;
    }
    Some((p, d1e, f0, fe, q, e2, signed && s[fe + 1] == 45))
}

/// The digits `s[a..b]` followed by `s[c..d]`.
fn mantissa_digits(s: &[u8], a: usize, b: usize, c: usize, d: usize) -> (v: Vec<u8>)
    requires
        a <= b <= c <= d <= s@.len(),
        forall|t: int| a <= t < b ==> is_digit(#[trigger] s@[t]),
        forall|t: int| c <= t < d ==> is_digit(#[trigger] s@[t]),
    ensures
        v@ == s@.subrange(a as int, b as int) + s@.subrange(c as int, d as int),
        forall|t: int| 0 <= t < v@.len() ==> is_digit(#[trigger] v@[t]),
{
    let mut v: Vec<u8> = Vec::new();
    let mut k = a;
    while k < b
        invariant
            a <= k <= b <= s@.len(),
            v@ == s@.subrange(a as int, k as int),
        decreases b - k,
    {
        v.push(s[k]);
        proof {
            assert(s@.subrange(a as int, k + 1) =~= s@.subrange(a as int, k as int).push(s@[k as int]));
        }
        k = k + 1;
    }
    let mut k = c;
    while k < d
        invariant
            c <= k <= d <= s@.len(),
            b <= c,
            v@ == s@.subrange(a as int, b as int) + s@.subrange(c as int, k as int),
        decreases d - k,
    {
        v.push(s[k]);
        proof {
            assert(s@.subrange(c as int, k + 1) =~= s@.subrange(c as int, k as int).push(s@[k as int]));
        }
        k = k + 1;
    }
    assert forall|t: int| 0 <= t < v@.len() implies is_digit(#[trigger] v@[t]) by {
        if t < b - a {
            assert(v@[t] == s@[a + t]);
        } else {
            assert(v@[t] == s@[c + t - (b - a)]);
        }
    }
    v
}

/// The number of `0` digits at the start of `d`.
fn lead_zeros_at(d: &Vec<u8>) -> (z: usize)
    ensures
        z == lead_zeros(d@, 0),
        z <= d@.len(),
{
    let mut z: usize = 0;
    while z < d.len() && d[z] == 48
        invariant
            z <= d@.len(),
            lead_zeros(d@, 0) == lead_zeros(d@, z as int),
        decreases d@.len() - z,
    {
        z = z + 1;
    }
    z
}

/// The largest exponent magnitude that is told apart from larger ones:
/// beyond it every value is far from the range either way.
pub const EXP_CAP: u128 = 0x10_0000_0000_0000_0000_0000_0000;

/// The number that the digits `s[q..e]` write, or [`EXP_CAP`] when it is
/// that or more.
fn capped_dec_at(s: &[u8], q: usize, e: usize) -> (r: u128)
    requires
        q <= e <= s@.len(),
        forall|t: int| q <= t < e ==> is_digit(#[trigger] s@[t]),
    ensures
        r == (if dec_val(s@, q as int, e as int) >= EXP_CAP {
            EXP_CAP as nat
        } else {
            dec_val(s@, q as int, e as int)
        }),
{
    let mut ev: u128 = 0;
    let mut k = q;
    while k < e
        invariant
            q <= k <= e <= s@.len(),
            forall|t: int| q <= t < e ==> is_digit(#[trigger] s@[t]),
            ev == (if dec_val(s@, q as int, k as int) >= EXP_CAP {
                EXP_CAP as nat
            } else {
                dec_val(s@, q as int, k as int)
            }),
        decreases e - k,
    {
        assert(is_digit(s@[k as int]));
        let x = (s[k] - 48) as u128;
        if ev < EXP_CAP {
            let t = ev * 10 + x;
            ev = if t >= EXP_CAP {
                EXP_CAP
            } else {
                t
            };
        }
        k = k + 1;
    }
    ev
}

/// The opacity of a number with sign `neg` whose value is `0.d[z..] * 10^p`.
fn opacity_at(neg: bool, d: &Vec<u8>, z: usize, p: i128) -> (r: Option<Opacity>)
    requires
        z <= d@.len(),
        forall|t: int| 0 <= t < d@.len() ==> is_digit(#[trigger] d@[t]),
    ensures
        r == opacity_of(neg, d@.subrange(z as int, d@.len() as int), p as int),
{
    if z == d.len() {
        return Some(Opacity { parts_per_billion: 0 });
    }
    if !neg {
        if p < 1 {
            let m = p + 9;
            if m <= 0 {
                return Some(Opacity { parts_per_billion: 0 });
            }
            let v = prefix_val_exec(d, z, m as usize);
            Some(Opacity { parts_per_billion: v })
        } else if p == 1 && frac_le_exec(d, z, &one_plus_vec()) {
            Some(Opacity { parts_per_billion: 1_000_000_000 })
        } else {
            None
        }
    } else if p < -45 || (p == -45 && frac_le_exec(d, z, &tiny_vec())) {
        Some(Opacity { parts_per_billion: 0 })
    } else {
        None
    }
}

/// The opacity that `value` writes, if it writes a number whose nearest
/// 32-bit float lies in `[0, 1]`.
pub fn parse_opacity(value: &str) -> (r: Option<Opacity>)
    ensures
        r == spec_opacity(value.spec_bytes()),
{
    reveal(spec_opacity);
    let s = value.as_bytes();
    let neg = s.len() > 0 && s[0] == 45;
    let (a, b, c, d, e, f, eneg) = match layout_at(s) {
        None => return None,
        Some(l) => l,
    };
    let digits = mantissa_digits(s, a, b, c, d);
    let z = lead_zeros_at(&digits);
    let ev = capped_dec_at(s, e, f);
    let pc: i128 = (b - a) as i128 - z as i128 + if eneg {
        -(ev as i128)
    } else {
        ev as i128
    };
    proof {
        let exact = dec_val(s@, e as int, f as int) as int;
        let p = (b - a) - z + (if eneg {
            -exact
        } else {
            exact
        });
        let sig = digits@.subrange(z as int, digits@.len() as int);
        if exact >= EXP_CAP {
            assert(opacity_of(neg, sig, p) == opacity_of(neg, sig, pc as int));
        }
    }
    opacity_at(neg, &digits, z, pc)
}

} // verus!
