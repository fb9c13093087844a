//! Byte-level helpers over UTF-8 text: Unicode white space, trimming, and
//! slicing a `&str` at character boundaries.

use vstd::prelude::*;
use vstd::std_specs::iter::IteratorSpec;
use vstd::string::StringSliceAdditionalSpecFns;
use vstd::utf8::*;

verus! {

broadcast use vstd::utf8::group_utf8_lib;

/// Length of the UTF-8 encoding of a character with the Unicode `White_Space`
/// property that starts at byte `i` of `s`, or 0 when none starts there.
/// These are U+0009..U+000D, U+0020, U+0085, U+00A0, U+1680, U+2000..U+200A,
/// U+2028, U+2029, U+202F, U+205F and U+3000.
pub open spec fn ws_len(s: Seq<u8>, i: int) -> nat {
    if 0 <= i < s.len() && ((9 <= s[i] <= 13) || s[i] == 32) {
        1
    } else if 0 <= i && i + 1 < s.len() && s[i] == 0xC2 && (s[i + 1] == 0x85 || s[i + 1] == 0xA0) {
        2
    } else if 0 <= i && i + 2 < s.len() && ((s[i] == 0xE1 && s[i + 1] == 0x9A && s[i + 2] == 0x80)
        || (s[i] == 0xE2 && s[i + 1] == 0x80 && ((0x80 <= s[i + 2] <= 0x8A) || s[i + 2] == 0xA8
        || s[i + 2] == 0xA9 || s[i + 2] == 0xAF)) || (s[i] == 0xE2 && s[i + 1] == 0x81 && s[i + 2]
        == 0x9F) || (s[i] == 0xE3 && s[i + 1] == 0x80 && s[i + 2] == 0x80)) {
        3
    } else {
        0
    }
}

/// Length of a white-space character whose encoding ends just before byte `e`.
pub open spec fn ws_len_before(s: Seq<u8>, e: int) -> nat {
    if e >= 1 && ws_len(s, e - 1) == 1 {
        1
    } else if e >= 2 && ws_len(s, e - 2) == 2 {
        2
    } else if e >= 3 && ws_len(s, e - 3) == 3 {
        3
    } else {
        0
    }
}

/// End of `s[lo..e]` once trailing white space is removed.
pub open spec fn trim_end_pos(s: Seq<u8>, lo: int, e: int) -> int
    decreases e - lo,
{
    if e <= lo {
        e
    } else if ws_len_before(s, e) > 0 && e - ws_len_before(s, e) >= lo {
        trim_end_pos(s, lo, e - ws_len_before(s, e))
    } else {
        e
    }
}

/// Start of `s[i..hi]` once leading white space is removed.
pub open spec fn trim_start_pos(s: Seq<u8>, i: int, hi: int) -> int
    decreases hi - i,
{
    if i >= hi {
        i
    } else if ws_len(s, i) > 0 && i + ws_len(s, i) <= hi {
        trim_start_pos(s, i + ws_len(s, i), hi)
    } else {
        i
    }
}

/// `s[i..hi]` consists of white-space characters only.
pub open spec fn all_ws(s: Seq<u8>, i: int, hi: int) -> bool {
    trim_start_pos(s, i, hi) >= hi
}

/// Some white-space character starts inside `s[lo..hi]`.
pub open spec fn has_ws(s: Seq<u8>, lo: int, hi: int) -> bool {
    exists|k: int| lo <= k < hi && #[trigger] ws_len(s, k) > 0
}

pub fn ws_len_at(s: &[u8], i: usize) -> (n: usize)
    ensures
        n == ws_len(s@, i as int),
{
    let len = s.len();
    if i < len && ((9 <= s[i] && s[i] <= 13) || s[i] == 32) {
        return 1;
    }
    if i < len && len - i > 1 && s[i] == 0xC2 && (s[i + 1] == 0x85 || s[i + 1] == 0xA0) {
        return 2;
    }
    if i < len && len - i > 2 {
        let a = s[i];
        let b = s[i + 1];
        let c = s[i + 2];
        if (a == 0xE1 && b == 0x9A && c == 0x80) || (a == 0xE2 && b == 0x80 && ((0x80 <= c && c
            <= 0x8A) || c == 0xA8 || c == 0xA9 || c == 0xAF)) || (a == 0xE2 && b == 0x81 && c
            == 0x9F) || (a == 0xE3 && b == 0x80 && c == 0x80) {
            return 3;
        }
    }
    0
}

pub fn ws_len_before_at(s: &[u8], e: usize) -> (n: usize)
    requires
        e <= s@.len(),
    ensures
        n == ws_len_before(s@, e as int),
{
    if e >= 1 && ws_len_at(s, e - 1) == 1 {
        1
    } else if e >= 2 && ws_len_at(s, e - 2) == 2 {
        2
    } else if e >= 3 && ws_len_at(s, e - 3) == 3 {
        3
    } else {
        0
    }
}

pub fn trim_end_at(s: &[u8], lo: usize, e: usize) -> (r: usize)
    requires
        lo <= e <= s@.len(),
    ensures
        r == trim_end_pos(s@, lo as int, e as int),
        lo <= r <= e,
{
    let mut cur = e;
    while cur > lo
        invariant
            lo <= cur <= e <= s@.len(),
            trim_end_pos(s@, lo as int, e as int) == trim_end_pos(s@, lo as int, cur as int),
        decreases cur,
    {
        let k = ws_len_before_at(s, cur);
        if k > 0 && cur - k >= lo {
            cur = cur - k;
        } else {
            return cur;
        }
    }
    cur
}

pub fn trim_start_at(s: &[u8], i: usize, hi: usize) -> (r: usize)
    requires
        i <= hi <= s@.len(),
    ensures
        r == trim_start_pos(s@, i as int, hi as int),
        i <= r <= hi,
{
    let mut cur = i;
    while cur < hi
        invariant
            i <= cur <= hi <= s@.len(),
            trim_start_pos(s@, i as int, hi as int) == trim_start_pos(s@, cur as int, hi as int),
        decreases hi - cur,
    {
        let k = ws_len_at(s, cur);
        if k > 0 && k <= hi - cur {
            cur = cur + k;
        } else {
            return cur;
        }
    }
    cur
}

pub fn has_ws_in(s: &[u8], lo: usize, hi: usize) -> (r: bool)
    requires
        lo <= hi <= s@.len(),
    ensures
        r == has_ws(s@, lo as int, hi as int),
{
    let mut k = lo;
    while k < hi
        invariant
            lo <= k <= hi <= s@.len(),
            forall|j: int| lo <= j < k ==> ws_len(s@, j) == 0,
        decreases hi - k,
    {
        if ws_len_at(s, k) > 0 {
            return true;
        }
        k = k + 1;
    }
    false
}

/// `i` is a character boundary of the UTF-8 text `s`: its start, its end, or a
/// byte that is not a continuation byte.
pub open spec fn boundary(s: Seq<u8>, i: int) -> bool {
    i == 0 || i == s.len() || (0 < i < s.len() && !is_continuation_byte(s[i]))
}

pub proof fn lemma_boundary(s: Seq<u8>, i: int)
    requires
        valid_utf8(s),
        boundary(s, i),
    ensures
        is_char_boundary(s, i),
{
    if 0 < i < s.len() {
        is_char_boundary_iff_not_is_continuation_byte(s, i);
    }
}

/// The part of `s` between two character boundaries.
pub fn str_slice(s: &str, start: usize, end: usize) -> (r: &str)
    requires
        start <= end <= s.spec_bytes().len(),
        boundary(s.spec_bytes(), start as int),
        boundary(s.spec_bytes(), end as int),
    ensures
        r.spec_bytes() == s.spec_bytes().subrange(start as int, end as int),
{
    let ghost b = s.spec_bytes();
    proof {
        lemma_boundary(b, end as int);
    }
    let (head, _) = s.split_at(end);
    let ghost hb = head.spec_bytes();
    assert(hb == b.subrange(0, end as int));
    proof {
        valid_utf8_split(b, end as int);
        assert(boundary(hb, start as int)) by {
            if 0 < start < end {
                assert(hb[start as int] == b[start as int]);
            }
        }
        lemma_boundary(hb, start as int);
    }
    let (_, tail) = head.split_at(start);
    assert(tail.spec_bytes() =~= b.subrange(start as int, end as int));
    tail
}


/// Whether `c` is alphabetic or numeric in the sense of Unicode, as std's
/// `char::is_alphanumeric` decides it.
pub uninterp spec fn spec_char_is_alphanumeric(c: char) -> bool;

/// Calls `char::is_alphanumeric`, which answers from Unicode's `Alphabetic`
/// and `Numeric` tables; the contract only names that answer.
#[verifier::external_body]
pub(crate) fn char_is_alphanumeric(c: char) -> (r: bool)
    ensures
        r == spec_char_is_alphanumeric(c),
{
    c.is_alphanumeric()
}


#[verifier::external_type_specification]
#[verifier::external_body]
pub struct ExFromUtf8Error(std::string::FromUtf8Error);

/// Calls `String::from_utf8`, which takes the bytes as they are when they are
/// valid UTF-8 and fails otherwise.
#[verifier::external_body]
pub(crate) fn string_from_utf8(v: Vec<u8>) -> (r: Result<String, std::string::FromUtf8Error>)
    ensures
        r is Ok <==> valid_utf8(v@),
        r matches Ok(s) ==> s@ == decode_utf8(v@),
{
    String::from_utf8(v)
}

/// A byte below 128 appended to UTF-8 text leaves it UTF-8.
pub proof fn lemma_push_ascii(s: Seq<u8>, x: u8)
    requires
        valid_utf8(s),
        x < 128,
    ensures
        valid_utf8(s.push(x)),
{
    let one = seq![x];
    assert((x & 0x7F) as u32 <= 0x7F) by (bit_vector);
    assert(valid_first_scalar(one));
    assert(pop_first_scalar(one) =~= Seq::<u8>::empty());
    assert(valid_utf8(one)) by {
        reveal_with_fuel(valid_utf8, 2);
    }
    valid_utf8_concat(s, one);
    assert(s + one =~= s.push(x));
}

/// Appends the ASCII bytes `lit` to UTF-8 text `out`.
pub fn push_ascii(out: &mut Vec<u8>, lit: &[u8])
    requires
        valid_utf8(old(out)@),
        forall|k: int| 0 <= k < lit@.len() ==> #[trigger] lit@[k] < 128,
    ensures
        final(out)@ == old(out)@ + lit@,
        valid_utf8(final(out)@),
{
    let ghost start = out@;
    let mut k: usize = 0;
    while k < lit.len()
        invariant
            k <= lit@.len(),
            forall|j: int| 0 <= j < lit@.len() ==> #[trigger] lit@[j] < 128,
            out@ == start + lit@.subrange(0, k as int),
            valid_utf8(out@),
        decreases lit@.len() - k,
    {
        proof {
            lemma_push_ascii(out@, lit@[k as int]);
        }
        out.push(lit[k]);
        assert(lit@.subrange(0, k + 1) =~= lit@.subrange(0, k as int).push(lit@[k as int]));
        k = k + 1;
    }
    assert(lit@.subrange(0, k as int) =~= lit@);
}

/// Appends the bytes of `piece` to UTF-8 text `out`.
pub fn push_str_bytes(out: &mut Vec<u8>, piece: &str)
    requires
        valid_utf8(old(out)@),
    ensures
        final(out)@ == old(out)@ + piece.spec_bytes(),
        valid_utf8(final(out)@),
{
    let bs = piece.as_bytes();
    let ghost start = out@;
    let mut k: usize = 0;
    while k < bs.len()
        invariant
            k <= bs@.len(),
            out@ == start + bs@.subrange(0, k as int),
        decreases bs@.len() - k,
    {
        out.push(bs[k]);
        assert(bs@.subrange(0, k + 1) =~= bs@.subrange(0, k as int).push(bs@[k as int]));
        k = k + 1;
    }
    assert(bs@.subrange(0, k as int) =~= bs@);
    proof {
        valid_utf8_concat(start, bs@);
    }
}

/// Whether two texts are the same characters, compared byte by byte.
pub fn str_eq(a: &str, b: &str) -> (r: bool)
    ensures
        r == (a@ == b@),
{
    let x = a.as_bytes();
    let y = b.as_bytes();
    proof {
        encode_utf8_decode_utf8(a@);
        encode_utf8_decode_utf8(b@);
    }
    if x.len() != y.len() {
        return false;
    }
    let mut k: usize = 0;
    while k < x.len()
        invariant
            x@.len() == y@.len(),
            x@ == a.spec_bytes(),
            y@ == b.spec_bytes(),
            k <= x@.len(),
            forall|j: int| 0 <= j < k ==> x@[j] == y@[j],
        decreases x@.len() - k,
    {
        if x[k] != y[k] {
            return false;
        }
        k = k + 1;
    }
    assert(x@ =~= y@);
    true
}

/// The first and the last character of `s`, if it has any.
pub fn edge_chars(s: &str) -> (r: (Option<char>, Option<char>))
    ensures
        r.0 == (if s@.len() > 0 {
            Some(s@[0])
        } else {
            None::<char>
        }),
        r.1 == (if s@.len() > 0 {
            Some(s@.last())
        } else {
            None::<char>
        }),
{
    let mut it = s.chars();
    let ghost all = s@;
    let ghost mut n: int = 0;
    let mut first: Option<char> = None;
    let mut last: Option<char> = None;
    assert(it.remaining() == all);
    loop
        invariant
            all == s@,
            0 <= n <= all.len(),
            it.remaining() == all.skip(n),
            first == (if n > 0 {
                Some(all[0])
            } else {
                None::<char>
            }),
            last == (if n > 0 {
                Some(all[n - 1])
            } else {
                None::<char>
            }),
        decreases all.len() - n,
    {
        match it.next() {
            Some(c) => {
                assert(c == all[n]);
                if first.is_none() {
                    first = Some(c);
                }
                last = Some(c);
                proof {
                    assert(all.skip(n).drop_first() =~= all.skip(n + 1));
                    n = n + 1;
                }
            },
            None => {
                assert(all.skip(n).len() == 0);
                return (first, last);
            },
        }
    }
}

/// Calls `String::push`, which appends one character.
#[verifier::external_body]
pub(crate) fn push_char(s: &mut String, c: char)
    ensures
        final(s)@ == old(s)@.push(c),
{
    s.push(c)
}

/// Whether `s[lo..hi]` is exactly `lit`.
pub fn eq_at(s: &[u8], lo: usize, hi: usize, lit: &[u8]) -> (r: bool)
    requires
        lo <= hi <= s@.len(),
    ensures
        r == (s@.subrange(lo as int, hi as int) == lit@),
{
    if hi - lo != lit.len() {
        return false;
    }
    let mut k: usize = 0;
    while k < lit.len()
        invariant
            lo <= hi <= s@.len(),
            hi - lo == lit@.len(),
            k <= lit@.len(),
            forall|j: int| 0 <= j < k ==> s@[lo + j] == lit@[j],
        decreases lit@.len() - k,
    {
        if s[lo + k] != lit[k] {
            return false;
        }
        k = k + 1;
    }
    assert(s@.subrange(lo as int, hi as int) =~= lit@);
    true
}

} // verus!
