//! HTML comments that speak to the presenter: the slide-break marker, and
//! directives `<!-- oxlide-NAME: ARGS -->`.

use super::prepass::lemma_ascii_run;
use super::text;
use vstd::prelude::*;
use vstd::string::StringSliceAdditionalSpecFns;
use vstd::utf8::*;

verus! {

broadcast use vstd::utf8::group_utf8_lib;

/// What an HTML comment asks of the presenter.
#[derive(Debug, Clone, PartialEq, Eq)]
pub enum Marker {
    /// End the slide here.
    SlideBreak,
    /// A directive with its name and arguments.
    Directive { name: String, args: String },
}

/// The value of a [`Marker`].
pub enum MarkerV {
    SlideBreak,
    Directive { name: Seq<char>, args: Seq<char> },
}

pub open spec fn marker_v(m: Option<Marker>) -> Option<MarkerV> {
    match m {
        Some(Marker::SlideBreak) => Some(MarkerV::SlideBreak),
        Some(Marker::Directive { name, args }) => Some(
            MarkerV::Directive { name: name@, args: args@ },
        ),
        None => None,
    }
}

/// `<!-- oxlide-slide-break -->`
pub open spec fn slide_break_tag() -> Seq<u8> {
    seq![
        60u8, 33, 45, 45, 32, 111, 120, 108, 105, 100, 101, 45, 115, 108, 105, 100, 101, 45, 98,
        114, 101, 97, 107, 32, 45, 45, 62,
    ]
}

/// `<!--`
pub open spec fn comment_open() -> Seq<u8> {
    seq![60u8, 33, 45, 45]
}

/// `-->`
pub open spec fn comment_close() -> Seq<u8> {
    seq![45u8, 45, 62]
}

/// `oxlide-`
pub open spec fn oxlide_prefix() -> Seq<u8> {
    seq![111u8, 120, 108, 105, 100, 101, 45]
}

/// `slide-break`
pub open spec fn name_slide_break() -> Seq<u8> {
    seq![115u8, 108, 105, 100, 101, 45, 98, 114, 101, 97, 107]
}

/// `image-meta`
pub open spec fn name_image_meta() -> Seq<u8> {
    seq![105u8, 109, 97, 103, 101, 45, 109, 101, 116, 97]
}

/// An ASCII letter, digit, `-` or `_`.
pub open spec fn name_byte(x: u8) -> bool {
    (48 <= x <= 57) || (65 <= x <= 90) || (97 <= x <= 122) || x == 45 || x == 95
}

/// The first index at or after `i` (before `hi`) whose byte is no name byte.
pub open spec fn name_end(s: Seq<u8>, i: int, hi: int) -> int
    decreases hi - i,
{
    if i >= hi || !name_byte(s[i]) {
        i
    } else {
        name_end(s, i + 1, hi)
    }
}

/// The name's and the arguments' ranges of a directive comment `s[lo..hi]`
/// (trimmed): `<!--`, white space, `oxlide-`, a name of letters, digits, `-`
/// and `_` (neither `slide-break` nor `image-meta`), white space, `:`, the
/// arguments (trimmed), white space, `-->`.
pub open spec fn directive_parts(s: Seq<u8>, lo: int, hi: int) -> Option<(int, int, int, int)> {
    if hi - lo >= 7 && s.subrange(lo, lo + 4) == comment_open() && s.subrange(hi - 3, hi)
        == comment_close() {
        let a = text::trim_start_pos(s, lo + 4, hi - 3);
        let e = text::trim_end_pos(s, a, hi - 3);
        if e - a >= 7 && s.subrange(a, a + 7) == oxlide_prefix() {
            let ns = a + 7;
            let ne = name_end(s, ns, e);
            let p = text::trim_start_pos(s, ne, e);
            if ne > ns && p < e && s[p] == 58 && s.subrange(ns, ne) != name_slide_break()
                && s.subrange(ns, ne) != name_image_meta() {
                Some((ns, ne, text::trim_start_pos(s, p + 1, e), e))
            } else {
                None
            }
        } else {
            None
        }
    } else {
        None
    }
}

/// What the HTML text with bytes `s` asks: a slide break when it is the
/// slide-break marker (white space aside), a directive when it is a directive
/// comment, nothing otherwise.
pub open spec fn spec_marker(s: Seq<u8>) -> Option<MarkerV> {
    let lo = text::trim_start_pos(s, 0, s.len() as int);
    let hi = text::trim_end_pos(s, lo, s.len() as int);
    if s.subrange(lo, hi) == slide_break_tag() {
        Some(MarkerV::SlideBreak)
    } else {
        match directive_parts(s, lo, hi) {
            Some((ns, ne, a, e)) => Some(
                MarkerV::Directive {
                    name: decode_utf8(s.subrange(ns, ne)),
                    args: decode_utf8(s.subrange(a, e)),
                },
            ),
            None => None,
        }
    }
}

fn name_end_at(s: &[u8], i: usize, hi: usize) -> (r: usize)
    requires
        i <= hi <= s@.len(),
    ensures
        r == name_end(s@, i as int, hi as int),
        i <= r <= hi,
        forall|k: int| i <= k < r ==> s@[k] < 128,
{
    let mut k = i;
    while k < hi && ((48 <= s[k] && s[k] <= 57) || (65 <= s[k] && s[k] <= 90) || (97 <= s[k]
        && s[k] <= 122) || s[k] == 45 || s[k] == 95)
        invariant
            i <= k <= hi <= s@.len(),
            name_end(s@, i as int, hi as int) == name_end(s@, k as int, hi as int),
            forall|j: int| i <= j < k ==> s@[j] < 128,
        decreases hi - k,
    {
        k = k + 1;
    }
    k
}

/// The slice of `h` between two character boundaries, as characters.
fn piece(h: &str, a: usize, b: usize) -> (r: String)
    requires
        a <= b <= h.spec_bytes().len(),
        text::boundary(h.spec_bytes(), a as int),
        text::boundary(h.spec_bytes(), b as int),
    ensures
        r@ == decode_utf8(h.spec_bytes().subrange(a as int, b as int)),
{
    let s = text::str_slice(h, a, b);
    proof {
        encode_utf8_decode_utf8(s@);
    }
    s.to_owned()
}

/// What the HTML text `h` asks of the presenter.
pub fn parse_marker(h: &str) -> (r: Option<Marker>)
    ensures
        marker_v(r) == spec_marker(h.spec_bytes()),
{
    let s = h.as_bytes();
    let ghost b = s@;
    let n = s.len();
    proof {
        encode_utf8_valid_utf8(h@);
        super::prepass::lemma_trim_start_boundary(b, 0, n as int);
    }
    let lo = text::trim_start_at(s, 0, n);
    let hi = text::trim_end_at(s, lo, n);
    proof {
        super::prepass::lemma_trim_end_boundary(b, lo as int, n as int);
    }
    let tag: [u8; 27] = [
        60, 33, 45, 45, 32, 111, 120, 108, 105, 100, 101, 45, 115, 108, 105, 100, 101, 45, 98,
        114, 101, 97, 107, 32, 45, 45, 62,
    ];
    assert(tag@ =~= slide_break_tag());
    if text::eq_at(s, lo, hi, &tag) {
        return Some(Marker::SlideBreak);
    }
    if hi - lo < 7 {
        return None;
    }
    let open: [u8; 4] = [60, 33, 45, 45];
    let close: [u8; 3] = [45, 45, 62];
    assert(open@ =~= comment_open());
    assert(close@ =~= comment_close());
    if !text::eq_at(s, lo, lo + 4, &open) || !text::eq_at(s, hi - 3, hi, &close) {
        return None;
    }
    let a = text::trim_start_at(s, lo + 4, hi - 3);
    let e = text::trim_end_at(s, a, hi - 3);
    let prefix: [u8; 7] = [111, 120, 108, 105, 100, 101, 45];
    assert(prefix@ =~= oxlide_prefix());
    if e - a < 7 || !text::eq_at(s, a, a + 7, &prefix) {
        return None;
    }
    let ns = a + 7;
    let ne = name_end_at(s, ns, e);
    let p = text::trim_start_at(s, ne, e);
    if !(ne > ns && p < e && s[p] == 58) {
        return None;
    }
    let sb: [u8; 11] = [115, 108, 105, 100, 101, 45, 98, 114, 101, 97, 107];
    let im: [u8; 10] = [105, 109, 97, 103, 101, 45, 109, 101, 116, 97];
    assert(sb@ =~= name_slide_break());
    assert(im@ =~= name_image_meta());
    if text::eq_at(s, ns, ne, &sb) || text::eq_at(s, ns, ne, &im) {
        return None;
    }
    let args_start = text::trim_start_at(s, p + 1, e);
    proof {
        // Every position used below is a character boundary.
        assert(text::boundary(b, lo + 4)) by {
            assert(b.subrange(lo as int, lo + 4) == comment_open());
            assert(b[lo as int] == 60);
            lemma_ascii_run(b, lo as int, lo + 4);
        }
        super::prepass::lemma_trim_start_boundary(b, lo + 4, hi - 3);
        assert(text::boundary(b, hi - 3)) by {
            assert(b.subrange(hi - 3, hi as int) == comment_close());
            assert(b[hi - 3] == 45);
        }
        super::prepass::lemma_trim_end_boundary(b, a as int, hi - 3);
        assert(text::boundary(b, ns as int)) by {
            assert(b.subrange(a as int, a + 7) == oxlide_prefix());
            assert forall|k: int| a <= k < a + 7 implies b[k] < 128 by {
                assert(b[k] == b.subrange(a as int, a + 7)[k - a]);
            }
            lemma_ascii_run(b, a as int, ns as int);
        }
        lemma_ascii_run(b, ns as int, ne as int);
        super::prepass::lemma_trim_start_boundary(b, ne as int, e as int);
        lemma_ascii_run(b, p as int, p + 1);
        super::prepass::lemma_trim_start_boundary(b, p + 1, e as int);
    }
    let name = piece(h, ns, ne);
    let args = piece(h, args_start, e);
    Some(Marker::Directive { name, args })
}

} // verus!
