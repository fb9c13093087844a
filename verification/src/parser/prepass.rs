//! The line-level pass over a deck's source that runs before the markdown
//! parser: it finds lines, rewrites bare image paths (with their metadata
//! lines) into markdown images, strips the tab that marks a visible block,
//! and marks a run of two or more blank lines as a slide break. Every rewrite
//! is recorded so that offsets into the rewritten text map back to the source.

use vstd::prelude::*;
use vstd::std_specs::iter::IteratorSpec;
use vstd::string::StringSliceAdditionalSpecFns;
use vstd::utf8::*;

use super::ast::{
    ImageAlign, ImageMeta, ImageMetaV, ImageSize, Opacity, ParseError, ParseErrorV, SourceSpan,
};
use super::opacity::{parse_opacity, spec_opacity};
use super::text;

verus! {

broadcast use vstd::utf8::group_utf8_lib;

/// The comment that the pass puts where a run of blank lines breaks a slide.
pub const SLIDE_BREAK_SENTINEL: &'static str = "<!-- oxlide-slide-break -->";

/// The name of the comment that stands after an image with metadata.
pub const IMAGE_META_SENTINEL_NAME: &'static str = "image-meta";

/// A line of the source: the bytes `[start, end)`, without its `\n`.
#[derive(Debug, Clone, Copy, PartialEq, Eq)]
pub struct Line {
    pub start: usize,
    pub end: usize,
    pub blank: bool,
}

/// The rewritten range `[rw_start, rw_end)` stands for the source range
/// `[orig_start, orig_end)`.
#[derive(Debug, Clone, Copy, PartialEq, Eq)]
pub struct OffsetEntry {
    pub rw_start: usize,
    pub rw_end: usize,
    pub orig_start: usize,
    pub orig_end: usize,
}

impl OffsetEntry {
    /// An entry for text of length `len` inserted at `rw_pos`, which stands
    /// for the empty source range at `orig_pos`.
    pub fn pure_insertion(rw_pos: usize, orig_pos: usize, len: usize) -> (e: Self)
        requires
            rw_pos + len <= usize::MAX,
        ensures
            e == (OffsetEntry {
                rw_start: rw_pos,
                rw_end: (rw_pos + len) as usize,
                orig_start: orig_pos,
                orig_end: orig_pos,
            }),
    {
        OffsetEntry { rw_start: rw_pos, rw_end: rw_pos + len, orig_start: orig_pos, orig_end: orig_pos }
    }
}

/// The index of the first `\n` at or after `i`, or the length of `b`.
pub open spec fn next_nl(b: Seq<u8>, i: int) -> int
    decreases b.len() - i,
{
    if i >= b.len() || i < 0 {
        b.len() as int
    } else if b[i] == 10 {
        i
    } else {
        next_nl(b, i + 1)
    }
}

pub open spec fn line_at(b: Seq<u8>, i: int) -> Line {
    Line { start: i as usize, end: next_nl(b, i) as usize, blank: text::all_ws(b, i, next_nl(b, i)) }
}

/// The lines of `b` from byte `i` on.
pub open spec fn lines_from(b: Seq<u8>, i: int) -> Seq<Line>
    decreases b.len() + 1 - i,
{
    if i >= b.len() || i < 0 {
        Seq::empty()
    } else {
        proof {
            lemma_next_nl(b, i);
        }
        seq![line_at(b, i)] + lines_from(b, next_nl(b, i) + 1)
    }
}

/// The lines of `b`: each `\n` ends one; text after the last `\n` forms a
/// last line; an empty text has none. A line is blank when it holds only
/// white space.
pub open spec fn spec_lines(b: Seq<u8>) -> Seq<Line> {
    lines_from(b, 0)
}

pub proof fn lemma_next_nl(b: Seq<u8>, i: int)
    requires
        0 <= i <= b.len(),
    ensures
        i <= next_nl(b, i) <= b.len(),
        next_nl(b, i) < b.len() ==> b[next_nl(b, i)] == 10,
        forall|j: int| i <= j < next_nl(b, i) ==> b[j] != 10,
    decreases b.len() - i,
{
    if i < b.len() && b[i] != 10 {
        lemma_next_nl(b, i + 1);
    }
}

/// Every line of `lines_from(b, i)` lies inside `b`, starts at `i` or right
/// after a `\n`, and ends at a `\n` or at the end of `b`.
#[verifier::opaque]
pub open spec fn lines_wf(b: Seq<u8>, ls: Seq<Line>) -> bool {
    forall|k: int|
        0 <= k < ls.len() ==> {
            &&& (#[trigger] ls[k]).start <= ls[k].end <= b.len()
            &&& (ls[k].start == 0 || b[ls[k].start - 1] == 10)
            &&& (ls[k].end == b.len() || b[ls[k].end as int] == 10)
            &&& ls[k].end == next_nl(b, ls[k].start as int)
            &&& ls[k].blank == text::all_ws(b, ls[k].start as int, ls[k].end as int)
            &&& (k + 1 < ls.len() ==> ls[k + 1].start == ls[k].end + 1)
        }
}

pub proof fn lemma_lines_from_wf(b: Seq<u8>, i: int)
    requires
        0 <= i <= b.len(),
        b.len() <= usize::MAX,
        i == 0 || b[i - 1] == 10,
    ensures
        lines_wf(b, lines_from(b, i)),
        lines_from(b, i).len() > 0 ==> lines_from(b, i)[0].start == i,
    decreases b.len() + 1 - i,
{
    reveal(lines_wf);
    if i < b.len() {
        lemma_next_nl(b, i);
        let e = next_nl(b, i);
        if e + 1 <= b.len() {
            lemma_lines_from_wf(b, e + 1);
        }
        let rest = lines_from(b, e + 1);
        let ls = lines_from(b, i);
        assert(ls == seq![line_at(b, i)] + rest);
        assert forall|k: int| 0 <= k < ls.len() implies {
            &&& (#[trigger] ls[k]).start <= ls[k].end <= b.len()
            &&& (ls[k].start == 0 || b[ls[k].start - 1] == 10)
            &&& (ls[k].end == b.len() || b[ls[k].end as int] == 10)
            &&& ls[k].end == next_nl(b, ls[k].start as int)
            &&& ls[k].blank == text::all_ws(b, ls[k].start as int, ls[k].end as int)
            &&& (k + 1 < ls.len() ==> ls[k + 1].start == ls[k].end + 1)
        } by {
            if k > 0 {
                assert(ls[k] == rest[k - 1]);
            }
            if k + 1 < ls.len() {
                assert(ls[k + 1] == rest[k]);
            }
        }
    }
}

/// The lines of `source`, as byte ranges.
pub fn scan_lines(source: &str) -> (lines: Vec<Line>)
    ensures
        lines@ == spec_lines(source.spec_bytes()),
{
    let bytes = source.as_bytes();
    let ghost b = bytes@;
    let mut lines: Vec<Line> = Vec::new();
    let mut i: usize = 0;
    while i < bytes.len()
        invariant
            b == bytes@,
            i <= b.len(),
            lines_from(b, 0) == lines@ + lines_from(b, i as int),
        decreases b.len() - i,
    {
        let start = i;
        proof {
            lemma_next_nl(b, start as int);
        }
        while i < bytes.len() && bytes[i] != 10
            invariant
                b == bytes@,
                start <= i <= b.len(),
                next_nl(b, start as int) == next_nl(b, i as int),
            decreases b.len() - i,
        {
            i = i + 1;
        }
        let end = i;
        let blank = text::trim_start_at(bytes, start, end) >= end;
        lines.push(Line { start, end, blank });
        assert(lines_from(b, start as int) == seq![line_at(b, start as int)] + lines_from(
            b,
            end + 1,
        ));
        if i < bytes.len() && bytes[i] == 10 {
            i = i + 1;
        } else {
            assert(lines_from(b, end + 1) =~= Seq::<Line>::empty());
        }
        assert(lines_from(b, 0) == lines@ + lines_from(b, i as int));
    }
    assert(lines_from(b, i as int) =~= Seq::<Line>::empty());
    assert(lines@ =~= lines_from(b, 0));
    lines
}


/// Byte `x` with ASCII upper case letters mapped to lower case.
pub open spec fn ascii_lower(x: u8) -> u8 {
    if 65 <= x <= 90 {
        (x + 32) as u8
    } else {
        x
    }
}

/// `s` equals the lower-case ASCII word `lit` when ASCII letters are compared
/// without regard to case.
pub open spec fn eq_ci(s: Seq<u8>, lit: Seq<u8>) -> bool {
    s.len() == lit.len() && forall|j: int| 0 <= j < s.len() ==> ascii_lower(#[trigger] s[j])
        == lit[j]
}

/// `s` ends with the lower-case ASCII word `lit`, compared without regard to
/// ASCII case.
pub open spec fn ends_with_ci(s: Seq<u8>, lit: Seq<u8>) -> bool {
    s.len() >= lit.len() && eq_ci(s.subrange(s.len() - lit.len(), s.len() as int), lit)
}

pub fn eq_ci_at(s: &[u8], lo: usize, hi: usize, lit: &[u8]) -> (r: bool)
    requires
        lo <= hi <= s@.len(),
    ensures
        r == eq_ci(s@.subrange(lo as int, hi as int), lit@),
{
    if hi - lo != lit.len() {
        return false;
    }
    let mut j: usize = 0;
    while j < lit.len()
        invariant
            lo <= hi <= s@.len(),
            hi - lo == lit@.len(),
            j <= lit@.len(),
            forall|k: int| 0 <= k < j ==> ascii_lower(s@[lo + k]) == lit@[k],
        decreases lit@.len() - j,
    {
        let x = s[lo + j];
        let lx = if 65 <= x && x <= 90 { x + 32 } else { x };
        if lx != lit[j] {
            assert(ascii_lower(s@.subrange(lo as int, hi as int)[j as int]) != lit@[j as int]);
            return false;
        }
        j = j + 1;
    }
    assert forall|k: int| 0 <= k < hi - lo implies ascii_lower(
        #[trigger] s@.subrange(lo as int, hi as int)[k],
    ) == lit@[k] by {
        assert(s@.subrange(lo as int, hi as int)[k] == s@[lo + k]);
    }
    true
}

pub fn ends_with_ci_at(s: &[u8], lo: usize, hi: usize, lit: &[u8]) -> (r: bool)
    requires
        lo <= hi <= s@.len(),
    ensures
        r == ends_with_ci(s@.subrange(lo as int, hi as int), lit@),
{
    if hi - lo < lit.len() {
        return false;
    }
    let r = eq_ci_at(s, hi - lit.len(), hi, lit);
    assert(s@.subrange(lo as int, hi as int).subrange(
        (hi - lo) - lit@.len(),
        (hi - lo) as int,
    ) =~= s@.subrange(hi - lit@.len(), hi as int));
    r
}

/// The length of the UTF-8 encoding that the leading byte `x` starts.
pub open spec fn lead_len(x: u8) -> int {
    if x < 0x80 {
        1
    } else if 0xC0 <= x <= 0xDF {
        2
    } else if 0xE0 <= x <= 0xEF {
        3
    } else {
        4
    }
}

/// In UTF-8 text, the byte after a complete character is a boundary.
pub proof fn lemma_boundary_step(b: Seq<u8>, i: int)
    requires
        valid_utf8(b),
        text::boundary(b, i),
        0 <= i < b.len(),
    ensures
        i + lead_len(b[i]) <= b.len(),
        text::boundary(b, i + lead_len(b[i])),
        !is_continuation_byte(b[i]),
{
    text::lemma_boundary(b, i);
    valid_utf8_split(b, i);
    let rest = b.subrange(i, b.len() as int);
    assert(rest[0] == b[i]);
    assert(valid_first_scalar(rest) && valid_utf8(pop_first_scalar(rest)));
    let k = length_of_first_scalar(rest);
    assert(k == lead_len(b[i]));
    let pop = pop_first_scalar(rest);
    if i + k < b.len() {
        assert(pop.len() > 0);
        assert(valid_first_scalar(pop));
        assert(pop[0] == b[i + k]);
    }
}

/// A white-space character starting at a boundary ends at a boundary.
pub proof fn lemma_ws_boundary(b: Seq<u8>, i: int)
    requires
        valid_utf8(b),
        text::boundary(b, i),
        0 <= i < b.len(),
        text::ws_len(b, i) > 0,
    ensures
        text::boundary(b, i + text::ws_len(b, i)),
{
    lemma_boundary_step(b, i);
}

pub proof fn lemma_trim_start_boundary(b: Seq<u8>, i: int, hi: int)
    requires
        valid_utf8(b),
        text::boundary(b, i),
        0 <= i <= hi <= b.len(),
    ensures
        text::boundary(b, text::trim_start_pos(b, i, hi)),
        i <= text::trim_start_pos(b, i, hi) <= hi,
    decreases hi - i,
{
    if i < hi && text::ws_len(b, i) > 0 && i + text::ws_len(b, i) <= hi {
        lemma_ws_boundary(b, i);
        lemma_trim_start_boundary(b, i + text::ws_len(b, i), hi);
    }
}

pub proof fn lemma_trim_end_boundary(b: Seq<u8>, lo: int, e: int)
    requires
        text::boundary(b, e),
        0 <= lo <= e <= b.len(),
    ensures
        text::boundary(b, text::trim_end_pos(b, lo, e)),
        lo <= text::trim_end_pos(b, lo, e) <= e,
    decreases e - lo,
{
    if e > lo && text::ws_len_before(b, e) > 0 && e - text::ws_len_before(b, e) >= lo {
        lemma_trim_end_boundary(b, lo, e - text::ws_len_before(b, e));
    }
}

/// The end of the image path on a line that holds only one: a path with no
/// white space and no indentation that ends, in any ASCII case, with `.png`,
/// `.jpg`, `.jpeg`, `.gif`, `.webp` or `.svg` (trailing white space aside).
#[verifier::opaque]
pub open spec fn spec_image_path_end(s: Seq<u8>) -> Option<int> {
    let te = text::trim_end_pos(s, 0, s.len() as int);
    let p = s.subrange(0, te);
    if te == 0 || text::has_ws(s, 0, te) {
        None
    } else if ends_with_ci(p, seq![46u8, 112, 110, 103]) || ends_with_ci(p, seq![46u8, 106, 112, 103])
        || ends_with_ci(p, seq![46u8, 106, 112, 101, 103]) || ends_with_ci(
        p,
        seq![46u8, 103, 105, 102],
    ) || ends_with_ci(p, seq![46u8, 119, 101, 98, 112]) || ends_with_ci(
        p,
        seq![46u8, 115, 118, 103],
    ) {
        Some(te)
    } else {
        None
    }
}

pub proof fn lemma_image_path_end(s: Seq<u8>)
    ensures
        spec_image_path_end(s) matches Some(te) ==> 0 < te <= s.len(),
{
    reveal(spec_image_path_end);
    lemma_trim_end_boundary(s, 0, s.len() as int);
}

/// A line with no white space at all is an image path exactly when it ends,
/// in any ASCII case, with `.png`, `.jpg`, `.jpeg`, `.gif`, `.webp` or
/// `.svg`, and the path is then the whole line.
pub proof fn lemma_bare_image_path(s: Seq<u8>)
    requires
        s.len() > 0,
        !text::has_ws(s, 0, s.len() as int),
    ensures
        spec_image_path_end(s) == (if ends_with_ci(s, seq![46u8, 112, 110, 103]) || ends_with_ci(s, seq![46u8, 106, 112, 103])
            || ends_with_ci(s, seq![46u8, 106, 112, 101, 103]) || ends_with_ci(s, seq![46u8, 103, 105, 102])
            || ends_with_ci(s, seq![46u8, 119, 101, 98, 112]) || ends_with_ci(s, seq![46u8, 115, 118, 103]) {
            Some(s.len() as int)
        } else {
            None::<int>
        }),
{
    reveal(spec_image_path_end);
    let e = s.len() as int;
    assert(!(text::ws_len(s, e - 1) > 0));
    if e >= 2 {
        assert(!(text::ws_len(s, e - 2) > 0));
    }
    if e >= 3 {
        assert(!(text::ws_len(s, e - 3) > 0));
    }
    assert(text::ws_len_before(s, e) == 0);
    assert(text::trim_end_pos(s, 0, e) == e);
    assert(s.subrange(0, e) =~= s);
}

/// The image path that `line` holds, if it holds only one.
pub fn detect_image_path(line: &str) -> (r: Option<&str>)
    ensures
        match spec_image_path_end(line.spec_bytes()) {
            Some(te) => r is Some && r->0.spec_bytes() == line.spec_bytes().subrange(0, te),
            None => r is None,
        },
        line.spec_bytes().len() > 0 && !text::has_ws(line.spec_bytes(), 0, line.spec_bytes().len() as int)
            ==> if ends_with_ci(line.spec_bytes(), seq![46u8, 112, 110, 103]) || ends_with_ci(line.spec_bytes(), seq![46u8, 106, 112, 103])
            || ends_with_ci(line.spec_bytes(), seq![46u8, 106, 112, 101, 103]) || ends_with_ci(line.spec_bytes(), seq![46u8, 103, 105, 102])
            || ends_with_ci(line.spec_bytes(), seq![46u8, 119, 101, 98, 112]) || ends_with_ci(line.spec_bytes(), seq![46u8, 115, 118, 103]) {
            r is Some && r->0.spec_bytes() == line.spec_bytes()
        } else {
            r is None
        },
{
    proof {
        if line.spec_bytes().len() > 0 && !text::has_ws(line.spec_bytes(), 0, line.spec_bytes().len() as int) {
            lemma_bare_image_path(line.spec_bytes());
        }
    }
    reveal(spec_image_path_end);
    let s = line.as_bytes();
    let ghost b = s@;
    let te = text::trim_end_at(s, 0, s.len());
    if te == 0 || text::has_ws_in(s, 0, te) {
        return None;
    }
    let png: [u8; 4] = [46, 112, 110, 103];
    let jpg: [u8; 4] = [46, 106, 112, 103];
    let jpeg: [u8; 5] = [46, 106, 112, 101, 103];
    let gif: [u8; 4] = [46, 103, 105, 102];
    let webp: [u8; 5] = [46, 119, 101, 98, 112];
    let svg: [u8; 4] = [46, 115, 118, 103];
    assert(png@ =~= seq![46u8, 112, 110, 103]);
    assert(jpg@ =~= seq![46u8, 106, 112, 103]);
    assert(jpeg@ =~= seq![46u8, 106, 112, 101, 103]);
    assert(gif@ =~= seq![46u8, 103, 105, 102]);
    assert(webp@ =~= seq![46u8, 119, 101, 98, 112]);
    assert(svg@ =~= seq![46u8, 115, 118, 103]);
    if ends_with_ci_at(s, 0, te, &png) || ends_with_ci_at(s, 0, te, &jpg) || ends_with_ci_at(
        s,
        0,
        te,
        &jpeg,
    ) || ends_with_ci_at(s, 0, te, &gif) || ends_with_ci_at(s, 0, te, &webp) || ends_with_ci_at(
        s,
        0,
        te,
        &svg,
    ) {
        proof {
            lemma_trim_end_boundary(b, 0, b.len() as int);
        }
        Some(text::str_slice(line, 0, te))
    } else {
        None
    }
}


/// The first index in `[lo, hi)` holding byte `x`, or `hi`.
pub open spec fn find_byte(s: Seq<u8>, lo: int, hi: int, x: u8) -> int
    decreases hi - lo,
{
    if lo >= hi {
        hi
    } else if s[lo] == x {
        lo
    } else {
        find_byte(s, lo + 1, hi, x)
    }
}

pub fn find_byte_at(s: &[u8], lo: usize, hi: usize, x: u8) -> (r: usize)
    requires
        lo <= hi <= s@.len(),
    ensures
        r == find_byte(s@, lo as int, hi as int, x),
        lo <= r <= hi,
        r < hi ==> s@[r as int] == x,
{
    let mut k = lo;
    while k < hi
        invariant
            lo <= k <= hi <= s@.len(),
            find_byte(s@, lo as int, hi as int, x) == find_byte(s@, k as int, hi as int, x),
        decreases hi - k,
    {
        if s[k] == x {
            return k;
        }
        k = k + 1;
    }
    k
}

/// Every character is alphanumeric, `-` or `_`.
pub open spec fn key_chars_ok(cs: Seq<char>) -> bool {
    forall|j: int|
        0 <= j < cs.len() ==> text::spec_char_is_alphanumeric(#[trigger] cs[j]) || cs[j] == '-'
            || cs[j] == '_'
}

fn key_ok(key: &str) -> (r: bool)
    ensures
        r == key_chars_ok(key@),
{
    let mut it = key.chars();
    let ghost all = key@;
    let ghost mut n: int = 0;
    assert(it.remaining() == all);
    loop
        invariant
            all == key@,
            0 <= n <= all.len(),
            it.remaining() == all.skip(n),
            forall|j: int|
                0 <= j < n ==> text::spec_char_is_alphanumeric(#[trigger] all[j]) || all[j] == '-'
                    || all[j] == '_',
        decreases all.len() - n,
    {
        match it.next() {
            Some(c) => {
                assert(c == all[n]);
                if !(text::char_is_alphanumeric(c) || c == '-' || c == '_') {
                    assert(!(text::spec_char_is_alphanumeric(all[n]) || all[n] == '-' || all[n]
                        == '_'));
                    assert(!key_chars_ok(all));
                    return false;
                }
                proof {
                    assert(all.skip(n).drop_first() =~= all.skip(n + 1));
                    n = n + 1;
                }
            },
            None => {
                assert(all.skip(n).len() == 0);
                assert(n == all.len());
                assert(key_chars_ok(all));
                return true;
            },
        }
    }
}

/// The parts of a metadata line `  key: value`: the key's range and the
/// value's range. The line is indented by a space or a tab; the key, after
/// the leading white space and up to the first `:`, is non-empty and made of
/// alphanumeric characters, `-` and `_`; the value, trimmed, is non-empty.
#[verifier::opaque]
pub open spec fn spec_meta_parts(s: Seq<u8>) -> Option<(int, int, int, int)> {
    let n = s.len() as int;
    let t = text::trim_start_pos(s, 0, n);
    let colon = find_byte(s, t, n, 58);
    let vs = text::trim_start_pos(s, colon + 1, n);
    let ve = text::trim_end_pos(s, vs, n);
    if n == 0 || !(s[0] == 32 || s[0] == 9) || colon >= n || colon == t || !key_chars_ok(
        decode_utf8(s.subrange(t, colon)),
    ) || vs >= ve {
        None
    } else {
        Some((t, colon, vs, ve))
    }
}

pub proof fn lemma_find_byte(s: Seq<u8>, lo: int, hi: int, x: u8)
    requires
        0 <= lo <= hi <= s.len(),
    ensures
        lo <= find_byte(s, lo, hi, x) <= hi,
        find_byte(s, lo, hi, x) < hi ==> s[find_byte(s, lo, hi, x)] == x,
    decreases hi - lo,
{
    if lo < hi && s[lo] != x {
        lemma_find_byte(s, lo + 1, hi, x);
    }
}

/// The key and the value of a metadata line, if `line` is one.
pub fn parse_metadata_line(line: &str) -> (r: Option<(&str, &str)>)
    ensures
        match spec_meta_parts(line.spec_bytes()) {
            Some((t, c, vs, ve)) => r matches Some((k, v)) && k.spec_bytes()
                == line.spec_bytes().subrange(t, c) && v.spec_bytes() == line.spec_bytes().subrange(
                vs,
                ve,
            ),
            None => r is None,
        },
{
    reveal(spec_meta_parts);
    let s = line.as_bytes();
    let ghost b = s@;
    let n = s.len();
    if n == 0 || !(s[0] == 32 || s[0] == 9) {
        return None;
    }
    let t = text::trim_start_at(s, 0, n);
    let colon = find_byte_at(s, t, n, 58);
    if colon >= n || colon == t {
        return None;
    }
    proof {
        text::lemma_boundary(b, 0);
        lemma_trim_start_boundary(b, 0, n as int);
    }
    let key = text::str_slice(line, t, colon);
    assert(key@ == decode_utf8(b.subrange(t as int, colon as int)));
    if !key_ok(key) {
        return None;
    }
    proof {
        lemma_boundary_step(b, colon as int);
    }
    let vs = text::trim_start_at(s, colon + 1, n);
    let ve = text::trim_end_at(s, vs, n);
    if vs >= ve {
        return None;
    }
    proof {
        lemma_trim_start_boundary(b, colon + 1, n as int);
        lemma_trim_end_boundary(b, vs as int, n as int);
    }
    let value = text::str_slice(line, vs, ve);
    Some((key, value))
}

/// The range of `s` inside one pair of matching outer quotes (`"` or `'`),
/// or the whole of `s`.
pub open spec fn spec_unquoted(s: Seq<u8>) -> (int, int) {
    let n = s.len() as int;
    if n >= 2 && ((s[0] == 34 && s[n - 1] == 34) || (s[0] == 39 && s[n - 1] == 39)) {
        (1, n - 1)
    } else {
        (0, n)
    }
}

/// `value` without one pair of matching outer quotes, if it has them.
pub fn strip_outer_quotes(value: &str) -> (r: &str)
    ensures
        r.spec_bytes() == value.spec_bytes().subrange(
            spec_unquoted(value.spec_bytes()).0,
            spec_unquoted(value.spec_bytes()).1,
        ),
{
    let s = value.as_bytes();
    let ghost b = s@;
    let n = s.len();
    if n >= 2 {
        let first = s[0];
        let last = s[n - 1];
        if (first == 34 && last == 34) || (first == 39 && last == 39) {
            proof {
                text::lemma_boundary(b, 0);
                lemma_boundary_step(b, 0);
            }
            return text::str_slice(value, 1, n - 1);
        }
    }
    assert(b.subrange(0, n as int) =~= b);
    value
}

pub open spec fn lit_contain() -> Seq<u8> {
    seq![99u8, 111, 110, 116, 97, 105, 110]
}

pub open spec fn lit_cover() -> Seq<u8> {
    seq![99u8, 111, 118, 101, 114]
}

pub open spec fn lit_fit_width() -> Seq<u8> {
    seq![102u8, 105, 116, 45, 119, 105, 100, 116, 104]
}

pub open spec fn lit_fit_height() -> Seq<u8> {
    seq![102u8, 105, 116, 45, 104, 101, 105, 103, 104, 116]
}

/// The image size that `v` names, in any ASCII case: `contain`, `cover`,
/// `fit-width` or `fit-height`.
pub open spec fn spec_size(v: Seq<u8>) -> Option<ImageSize> {
    if eq_ci(v, lit_contain()) {
        Some(ImageSize::Contain)
    } else if eq_ci(v, lit_cover()) {
        Some(ImageSize::Cover)
    } else if eq_ci(v, lit_fit_width()) {
        Some(ImageSize::FitWidth)
    } else if eq_ci(v, lit_fit_height()) {
        Some(ImageSize::FitHeight)
    } else {
        None
    }
}

pub fn normalize_size(value: &str) -> (r: Option<ImageSize>)
    ensures
        r == spec_size(value.spec_bytes()),
{
    let s = value.as_bytes();
    let n = s.len();
    assert(s@.subrange(0, n as int) =~= s@);
    let a: [u8; 7] = [99, 111, 110, 116, 97, 105, 110];
    let b: [u8; 5] = [99, 111, 118, 101, 114];
    let c: [u8; 9] = [102, 105, 116, 45, 119, 105, 100, 116, 104];
    let d: [u8; 10] = [102, 105, 116, 45, 104, 101, 105, 103, 104, 116];
    assert(a@ =~= lit_contain());
    assert(b@ =~= lit_cover());
    assert(c@ =~= lit_fit_width());
    assert(d@ =~= lit_fit_height());
    if eq_ci_at(s, 0, n, &a) {
        Some(ImageSize::Contain)
    } else if eq_ci_at(s, 0, n, &b) {
        Some(ImageSize::Cover)
    } else if eq_ci_at(s, 0, n, &c) {
        Some(ImageSize::FitWidth)
    } else if eq_ci_at(s, 0, n, &d) {
        Some(ImageSize::FitHeight)
    } else {
        None
    }
}

pub open spec fn lit_left() -> Seq<u8> {
    seq![108u8, 101, 102, 116]
}

pub open spec fn lit_start() -> Seq<u8> {
    seq![115u8, 116, 97, 114, 116]
}

pub open spec fn lit_right() -> Seq<u8> {
    seq![114u8, 105, 103, 104, 116]
}

pub open spec fn lit_end() -> Seq<u8> {
    seq![101u8, 110, 100]
}

pub open spec fn lit_center() -> Seq<u8> {
    seq![99u8, 101, 110, 116, 101, 114]
}

pub open spec fn lit_top() -> Seq<u8> {
    seq![116u8, 111, 112]
}

pub open spec fn lit_bottom() -> Seq<u8> {
    seq![98u8, 111, 116, 116, 111, 109]
}

/// The alignment that `v` names on `axis` (`x` or `y`), in any ASCII case:
/// `left`/`start`, `right`/`end`, `center` across; `top`/`start`,
/// `bottom`/`end`, `center` down.
pub open spec fn spec_align(axis: Seq<u8>, v: Seq<u8>) -> Option<ImageAlign> {
    if axis == seq![120u8] {
        if eq_ci(v, lit_left()) || eq_ci(v, lit_start()) {
            Some(ImageAlign::Start)
        } else if eq_ci(v, lit_right()) || eq_ci(v, lit_end()) {
            Some(ImageAlign::End)
        } else if eq_ci(v, lit_center()) {
            Some(ImageAlign::Center)
        } else {
            None
        }
    } else if axis == seq![121u8] {
        if eq_ci(v, lit_top()) || eq_ci(v, lit_start()) {
            Some(ImageAlign::Start)
        } else if eq_ci(v, lit_bottom()) || eq_ci(v, lit_end()) {
            Some(ImageAlign::End)
        } else if eq_ci(v, lit_center()) {
            Some(ImageAlign::Center)
        } else {
            None
        }
    } else {
        None
    }
}

/// The alignments, in any ASCII case: across (`x`), `left` and `start` are
/// the start, `right` and `end` the end, `center` the middle; down (`y`),
/// `top` and `start` are the start, `bottom` and `end` the end, `center` the
/// middle. Any other word, or any other axis, names none.
pub proof fn lemma_align_table(axis: Seq<u8>, v: Seq<u8>)
    ensures
        axis == seq![120u8] && (eq_ci(v, seq![108u8, 101, 102, 116]) || eq_ci(v, seq![115u8, 116, 97, 114, 116])) ==> spec_align(axis, v) == Some(ImageAlign::Start),
        axis == seq![120u8] && (eq_ci(v, seq![114u8, 105, 103, 104, 116]) || eq_ci(v, seq![101u8, 110, 100])) ==> spec_align(axis, v) == Some(ImageAlign::End),
        axis == seq![120u8] && eq_ci(v, seq![99u8, 101, 110, 116, 101, 114]) ==> spec_align(axis, v) == Some(ImageAlign::Center),
        axis == seq![121u8] && (eq_ci(v, seq![116u8, 111, 112]) || eq_ci(v, seq![115u8, 116, 97, 114, 116])) ==> spec_align(axis, v) == Some(ImageAlign::Start),
        axis == seq![121u8] && (eq_ci(v, seq![98u8, 111, 116, 116, 111, 109]) || eq_ci(v, seq![101u8, 110, 100])) ==> spec_align(axis, v) == Some(ImageAlign::End),
        axis == seq![121u8] && eq_ci(v, seq![99u8, 101, 110, 116, 101, 114]) ==> spec_align(axis, v) == Some(ImageAlign::Center),
        axis == seq![120u8] && !(eq_ci(v, seq![108u8, 101, 102, 116]) || eq_ci(v, seq![115u8, 116, 97, 114, 116]) || eq_ci(v, seq![114u8, 105, 103, 104, 116]) || eq_ci(v, seq![101u8, 110, 100]) || eq_ci(v, seq![99u8, 101, 110, 116, 101, 114])) ==> spec_align(axis, v) is None,
        axis == seq![121u8] && !(eq_ci(v, seq![116u8, 111, 112]) || eq_ci(v, seq![115u8, 116, 97, 114, 116]) || eq_ci(v, seq![98u8, 111, 116, 116, 111, 109]) || eq_ci(v, seq![101u8, 110, 100]) || eq_ci(v, seq![99u8, 101, 110, 116, 101, 114])) ==> spec_align(axis, v) is None,
        axis != seq![120u8] && axis != seq![121u8] ==> spec_align(axis, v) is None,
{
    assert(seq![120u8][0] != seq![121u8][0]);
    if v.len() > 0 {
        let c = ascii_lower(v[0]);
        assert(eq_ci(v, lit_start()) ==> c == 115u8);
        assert(eq_ci(v, lit_right()) ==> c == 114u8);
        assert(eq_ci(v, lit_top()) ==> c == 116u8);
        assert(eq_ci(v, lit_end()) ==> c == 101u8);
    }
}

pub fn normalize_align(axis: &str, value: &str) -> (r: Option<ImageAlign>)
    ensures
        r == spec_align(axis.spec_bytes(), value.spec_bytes()),
        axis.spec_bytes() == seq![120u8] && (eq_ci(value.spec_bytes(), seq![108u8, 101, 102, 116]) || eq_ci(value.spec_bytes(), seq![115u8, 116, 97, 114, 116])) ==> r == Some(ImageAlign::Start),
        axis.spec_bytes() == seq![120u8] && (eq_ci(value.spec_bytes(), seq![114u8, 105, 103, 104, 116]) || eq_ci(value.spec_bytes(), seq![101u8, 110, 100])) ==> r == Some(ImageAlign::End),
        axis.spec_bytes() == seq![120u8] && eq_ci(value.spec_bytes(), seq![99u8, 101, 110, 116, 101, 114]) ==> r == Some(ImageAlign::Center),
        axis.spec_bytes() == seq![121u8] && (eq_ci(value.spec_bytes(), seq![116u8, 111, 112]) || eq_ci(value.spec_bytes(), seq![115u8, 116, 97, 114, 116])) ==> r == Some(ImageAlign::Start),
        axis.spec_bytes() == seq![121u8] && (eq_ci(value.spec_bytes(), seq![98u8, 111, 116, 116, 111, 109]) || eq_ci(value.spec_bytes(), seq![101u8, 110, 100])) ==> r == Some(ImageAlign::End),
        axis.spec_bytes() == seq![121u8] && eq_ci(value.spec_bytes(), seq![99u8, 101, 110, 116, 101, 114]) ==> r == Some(ImageAlign::Center),
        axis.spec_bytes() == seq![120u8] && !(eq_ci(value.spec_bytes(), seq![108u8, 101, 102, 116]) || eq_ci(value.spec_bytes(), seq![115u8, 116, 97, 114, 116]) || eq_ci(value.spec_bytes(), seq![114u8, 105, 103, 104, 116]) || eq_ci(value.spec_bytes(), seq![101u8, 110, 100]) || eq_ci(value.spec_bytes(), seq![99u8, 101, 110, 116, 101, 114])) ==> r is None,
        axis.spec_bytes() == seq![121u8] && !(eq_ci(value.spec_bytes(), seq![116u8, 111, 112]) || eq_ci(value.spec_bytes(), seq![115u8, 116, 97, 114, 116]) || eq_ci(value.spec_bytes(), seq![98u8, 111, 116, 116, 111, 109]) || eq_ci(value.spec_bytes(), seq![101u8, 110, 100]) || eq_ci(value.spec_bytes(), seq![99u8, 101, 110, 116, 101, 114])) ==> r is None,
        axis.spec_bytes() != seq![120u8] && axis.spec_bytes() != seq![121u8] ==> r is None,
{
    proof {
        lemma_align_table(axis.spec_bytes(), value.spec_bytes());
    }
    let ax = axis.as_bytes();
    let s = value.as_bytes();
    let n = s.len();
    assert(s@.subrange(0, n as int) =~= s@);
    let left: [u8; 4] = [108, 101, 102, 116];
    let start: [u8; 5] = [115, 116, 97, 114, 116];
    let right: [u8; 5] = [114, 105, 103, 104, 116];
    let end: [u8; 3] = [101, 110, 100];
    let center: [u8; 6] = [99, 101, 110, 116, 101, 114];
    let top: [u8; 3] = [116, 111, 112];
    let bottom: [u8; 6] = [98, 111, 116, 116, 111, 109];
    assert(left@ =~= lit_left());
    assert(start@ =~= lit_start());
    assert(right@ =~= lit_right());
    assert(end@ =~= lit_end());
    assert(center@ =~= lit_center());
    assert(top@ =~= lit_top());
    assert(bottom@ =~= lit_bottom());
    let is_x = ax.len() == 1 && ax[0] == 120;
    let is_y = ax.len() == 1 && ax[0] == 121;
    assert(is_x <==> ax@ == seq![120u8]) by {
        if ax@.len() == 1 && ax@[0] == 120 {
            assert(ax@ =~= seq![120u8]);
        }
    }
    assert(is_y <==> ax@ == seq![121u8]) by {
        if ax@.len() == 1 && ax@[0] == 121 {
            assert(ax@ =~= seq![121u8]);
        }
    }
    if is_x {
        if eq_ci_at(s, 0, n, &left) || eq_ci_at(s, 0, n, &start) {
            Some(ImageAlign::Start)
        } else if eq_ci_at(s, 0, n, &right) || eq_ci_at(s, 0, n, &end) {
            Some(ImageAlign::End)
        } else if eq_ci_at(s, 0, n, &center) {
            Some(ImageAlign::Center)
        } else {
            None
        }
    } else if is_y {
        if eq_ci_at(s, 0, n, &top) || eq_ci_at(s, 0, n, &start) {
            Some(ImageAlign::Start)
        } else if eq_ci_at(s, 0, n, &bottom) || eq_ci_at(s, 0, n, &end) {
            Some(ImageAlign::End)
        } else if eq_ci_at(s, 0, n, &center) {
            Some(ImageAlign::Center)
        } else {
            None
        }
    } else {
        None
    }
}


/// Where a rewritten image block starts, and the metadata its lines gave.
#[derive(Debug, Clone, PartialEq, Eq)]
pub struct ImageMetaAt {
    pub rw_start: usize,
    pub meta: ImageMeta,
}

/// What the pass produces: the rewritten text, the record of each rewrite
/// (ordered by position), the source's lines, and the metadata of each
/// rewritten image block.
#[derive(Debug, Clone, PartialEq, Eq)]
pub struct PrepassOutput {
    pub rewritten: String,
    pub entries: Vec<OffsetEntry>,
    pub lines: Vec<Line>,
    pub image_metas: Vec<ImageMetaAt>,
}

pub open spec fn metas_view(ms: Seq<ImageMetaAt>) -> Seq<(usize, ImageMetaV)> {
    ms.map_values(|m: ImageMetaAt| (m.rw_start, m.meta@))
}

/// The state of the pass between two lines.
pub struct PState {
    pub out: Seq<u8>,
    pub entries: Seq<OffsetEntry>,
    pub metas: Seq<(usize, ImageMetaV)>,
    /// The fence character and length of the fenced code block the pass is
    /// in, if any.
    pub fence: Option<(u8, nat)>,
}

/// `<!-- oxlide-slide-break -->` followed by two line breaks.
pub open spec fn sentinel_bytes() -> Seq<u8> {
    seq![
        60u8, 33, 45, 45, 32, 111, 120, 108, 105, 100, 101, 45, 115, 108, 105, 100, 101, 45, 98,
        114, 101, 97, 107, 32, 45, 45, 62, 10, 10,
    ]
}

/// `<!-- oxlide-image-meta -->`
pub open spec fn meta_comment_bytes() -> Seq<u8> {
    seq![
        60u8, 33, 45, 45, 32, 111, 120, 108, 105, 100, 101, 45, 105, 109, 97, 103, 101, 45, 109,
        101, 116, 97, 32, 45, 45, 62,
    ]
}

pub open spec fn line_bytes(b: Seq<u8>, l: Line) -> Seq<u8> {
    b.subrange(l.start as int, l.end as int)
}

/// The line break that ends `l`, if it has one.
pub open spec fn nl_after(b: Seq<u8>, l: Line) -> Seq<u8> {
    if l.end < b.len() {
        seq![10u8]
    } else {
        Seq::empty()
    }
}

/// The first line at or after `i` that is not blank.
pub open spec fn run_end(ls: Seq<Line>, i: int) -> int
    decreases ls.len() - i,
{
    if i >= ls.len() || i < 0 || !ls[i].blank {
        i
    } else {
        run_end(ls, i + 1)
    }
}

/// Blank line `i` starts a run of two or more blank lines between two lines
/// of text: a slide break.
pub open spec fn breaks_slide(ls: Seq<Line>, i: int) -> bool {
    i > 0 && !ls[i - 1].blank && run_end(ls, i) - i >= 2 && run_end(ls, i) < ls.len()
}

/// The first index at or after `i` (and before `hi`) whose byte is not `c`.
pub open spec fn run_of(b: Seq<u8>, i: int, hi: int, c: u8) -> int
    decreases hi - i,
{
    if i >= hi || b[i] != c {
        i
    } else {
        run_of(b, i + 1, hi, c)
    }
}

/// The first index at or after `i` (and before `hi`) whose byte is neither a
/// space nor a tab.
pub open spec fn blank_run(b: Seq<u8>, i: int, hi: int) -> int
    decreases hi - i,
{
    if i >= hi || !(b[i] == 32 || b[i] == 9) {
        i
    } else {
        blank_run(b, i + 1, hi)
    }
}

/// How many leading bytes of a line outside fenced code the pass removes: a
/// single leading tab (the mark of a visible block), or else the whole run of
/// leading spaces and tabs when a tab is among them.
pub open spec fn strip_len(b: Seq<u8>, l: Line) -> int {
    let s = l.start as int;
    let e = l.end as int;
    if s < e && b[s] == 9 {
        1
    } else if find_byte(b, s, blank_run(b, s, e), 9) < blank_run(b, s, e) {
        blank_run(b, s, e) - s
    } else {
        0
    }
}

/// The fence that the text `b[p..e]` opens: up to three spaces, then three
/// or more backticks or tildes (a backtick fence with no backtick after it).
pub open spec fn fence_open(b: Seq<u8>, p: int, e: int) -> Option<(u8, nat)> {
    let q = run_of(b, p, if p + 3 < e {
        p + 3
    } else {
        e
    }, 32);
    if q < e && (b[q] == 96 || b[q] == 126) {
        let m = run_of(b, q, e, b[q]) - q;
        if m >= 3 && !(b[q] == 96 && find_byte(b, q + m, e, 96) < e) {
            Some((b[q], m as nat))
        } else {
            None
        }
    } else {
        None
    }
}

/// Line `l` closes a fence of `n` characters `c`: up to three spaces, at
/// least `n` of `c`, then only spaces and tabs.
pub open spec fn fence_closes(b: Seq<u8>, l: Line, c: u8, n: nat) -> bool {
    let s = l.start as int;
    let e = l.end as int;
    let q = run_of(b, s, if s + 3 < e {
        s + 3
    } else {
        e
    }, 32);
    let r = run_of(b, q, e, c);
    r - q >= n && blank_run(b, r, e) == e
}

pub open spec fn lit_size() -> Seq<u8> {
    seq![115u8, 105, 122, 101]
}

pub open spec fn lit_background() -> Seq<u8> {
    seq![98u8, 97, 99, 107, 103, 114, 111, 117, 110, 100]
}

pub open spec fn lit_opacity() -> Seq<u8> {
    seq![111u8, 112, 97, 99, 105, 116, 121]
}

/// The metadata after one more `key: raw` line: `size`, `x`, `y` and
/// `opacity` must hold a valid value (outer quotes removed), `background`
/// takes any, other keys are ignored; a later line overrides an earlier one.
#[verifier::opaque]
pub open spec fn meta_update(m: ImageMetaV, key: Seq<u8>, raw: Seq<u8>, span: SourceSpan) -> Result<
    ImageMetaV,
    ParseErrorV,
> {
    let v = raw.subrange(spec_unquoted(raw).0, spec_unquoted(raw).1);
    let err = ParseErrorV::InvalidImageMeta {
        span: span,
        key: decode_utf8(key),
        value: decode_utf8(v),
    };
    if key == lit_size() {
        match spec_size(v) {
            Some(z) => Ok(ImageMetaV { size: Some(z), ..m }),
            None => Err(err),
        }
    } else if key == seq![120u8] {
        match spec_align(key, v) {
            Some(a) => Ok(ImageMetaV { x: Some(a), ..m }),
            None => Err(err),
        }
    } else if key == seq![121u8] {
        match spec_align(key, v) {
            Some(a) => Ok(ImageMetaV { y: Some(a), ..m }),
            None => Err(err),
        }
    } else if key == lit_background() {
        Ok(ImageMetaV { background: Some(decode_utf8(v)), ..m })
    } else if key == lit_opacity() {
        match spec_opacity(v) {
            Some(o) => Ok(ImageMetaV { opacity: Some(o), ..m }),
            None => Err(err),
        }
    } else {
        Ok(m)
    }
}

pub open spec fn line_span(l: Line) -> SourceSpan {
    SourceSpan { start: l.start, end: l.end }
}

/// The first line at or after `j` that is not a metadata line.
pub open spec fn meta_end(b: Seq<u8>, ls: Seq<Line>, j: int) -> int
    decreases ls.len() - j,
{
    if j >= ls.len() || j < 0 || spec_meta_parts(line_bytes(b, ls[j])) is None {
        j
    } else {
        meta_end(b, ls, j + 1)
    }
}

/// The metadata that lines `j..hi` add to `m`.
pub open spec fn meta_from(b: Seq<u8>, ls: Seq<Line>, j: int, hi: int, m: ImageMetaV) -> Result<
    ImageMetaV,
    ParseErrorV,
>
    decreases hi - j,
{
    if j >= hi || j < 0 || j >= ls.len() {
        Ok(m)
    } else {
        match spec_meta_parts(line_bytes(b, ls[j])) {
            Some((t, c, vs, ve)) => match meta_update(
                m,
                line_bytes(b, ls[j]).subrange(t, c),
                line_bytes(b, ls[j]).subrange(vs, ve),
                line_span(ls[j]),
            ) {
                Ok(m2) => meta_from(b, ls, j + 1, hi, m2),
                Err(e) => Err(e),
            },
            None => meta_from(b, ls, j + 1, hi, m),
        }
    }
}

/// One step of the pass at line `i`: the line to go on with, and the state
/// after it.
#[verifier::opaque]
pub open spec fn step(b: Seq<u8>, ls: Seq<Line>, i: int, st: PState) -> Result<
    (int, PState),
    ParseErrorV,
> {
    let l = ls[i];
    let nl = nl_after(b, l);
    match st.fence {
        Some((c, n)) => Ok(
            (
                i + 1,
                PState {
                    out: st.out + line_bytes(b, l) + nl,
                    fence: if fence_closes(b, l, c, n) {
                        None
                    } else {
                        st.fence
                    },
                    ..st
                },
            ),
        ),
        None => {
            if l.blank {
                let out2 = st.out + line_bytes(b, l) + nl;
                if breaks_slide(ls, i) {
                    let at = (l.end + nl.len()) as usize;
                    Ok(
                        (
                            i + 1,
                            PState {
                                out: out2 + sentinel_bytes(),
                                entries: st.entries.push(
                                    OffsetEntry {
                                        rw_start: out2.len() as usize,
                                        rw_end: (out2.len() + 29) as usize,
                                        orig_start: at,
                                        orig_end: at,
                                    },
                                ),
                                ..st
                            },
                        ),
                    )
                } else {
                    Ok((i + 1, PState { out: out2, ..st }))
                }
            } else if (i == 0 || ls[i - 1].blank) && spec_image_path_end(line_bytes(b, l)) is Some {
                let te = spec_image_path_end(line_bytes(b, l))->0;
                let j = meta_end(b, ls, i + 1);
                match meta_from(b, ls, i + 1, j, ImageMetaV::empty()) {
                    Err(e) => Err(e),
                    Ok(m) => {
                        let last = ls[j - 1];
                        let lnl = nl_after(b, last);
                        let img = seq![33u8, 91, 93, 40] + b.subrange(
                            l.start as int,
                            l.start + te,
                        ) + seq![41u8];
                        let piece = if m == ImageMetaV::empty() {
                            img + lnl
                        } else {
                            img + seq![10u8] + meta_comment_bytes() + lnl
                        };
                        let e = OffsetEntry {
                            rw_start: st.out.len() as usize,
                            rw_end: (st.out.len() + piece.len()) as usize,
                            orig_start: l.start,
                            orig_end: (last.end + lnl.len()) as usize,
                        };
                        Ok(
                            (
                                j,
                                PState {
                                    out: st.out + piece,
                                    entries: st.entries.push(e),
                                    metas: if m == ImageMetaV::empty() {
                                        st.metas
                                    } else {
                                        st.metas.push((st.out.len() as usize, m))
                                    },
                                    fence: None,
                                },
                            ),
                        )
                    },
                }
            } else {
                let k = strip_len(b, l);
                let out2 = st.out + b.subrange(l.start + k, l.end as int) + nl;
                let entries2 = if k > 0 {
                    st.entries.push(
                        OffsetEntry {
                            rw_start: st.out.len() as usize,
                            rw_end: st.out.len() as usize,
                            orig_start: l.start,
                            orig_end: (l.start + k) as usize,
                        },
                    )
                } else {
                    st.entries
                };
                Ok(
                    (
                        i + 1,
                        PState {
                            out: out2,
                            entries: entries2,
                            fence: fence_open(b, l.start + k, l.end as int),
                            ..st
                        },
                    ),
                )
            }
        },
    }
}

/// The pass from line `i` on, from state `st`.
pub open spec fn prepass_from(b: Seq<u8>, ls: Seq<Line>, i: int, st: PState) -> Result<
    PState,
    ParseErrorV,
>
    decreases ls.len() - i,
{
    if i >= ls.len() || i < 0 {
        Ok(st)
    } else {
        match step(b, ls, i, st) {
            Err(e) => Err(e),
            Ok((ni, st2)) => if i < ni <= ls.len() {
                prepass_from(b, ls, ni, st2)
            } else {
                Ok(st2)
            },
        }
    }
}

pub open spec fn init_state() -> PState {
    PState { out: Seq::empty(), entries: Seq::empty(), metas: Seq::empty(), fence: None }
}

/// The pass over the source bytes `b`.
pub open spec fn spec_prepass(b: Seq<u8>) -> Result<PState, ParseErrorV> {
    prepass_from(b, spec_lines(b), 0, init_state())
}


pub open spec fn fence_view(f: Option<(u8, usize)>) -> Option<(u8, nat)> {
    match f {
        Some((c, n)) => Some((c, n as nat)),
        None => None,
    }
}

pub open spec fn cur_state(
    out: Seq<u8>,
    entries: Seq<OffsetEntry>,
    metas: Seq<ImageMetaAt>,
    fence: Option<(u8, usize)>,
) -> PState {
    PState { out, entries, metas: metas_view(metas), fence: fence_view(fence) }
}

fn run_of_at(b: &[u8], i: usize, hi: usize, c: u8) -> (r: usize)
    requires
        i <= hi <= b@.len(),
    ensures
        r == run_of(b@, i as int, hi as int, c),
        i <= r <= hi,
{
    let mut k = i;
    while k < hi && b[k] == c
        invariant
            i <= k <= hi <= b@.len(),
            run_of(b@, i as int, hi as int, c) == run_of(b@, k as int, hi as int, c),
        decreases hi - k,
    {
        k = k + 1;
    }
    k
}

fn blank_run_at(b: &[u8], i: usize, hi: usize) -> (r: usize)
    requires
        i <= hi <= b@.len(),
    ensures
        r == blank_run(b@, i as int, hi as int),
        i <= r <= hi,
        forall|k: int| i <= k < r ==> b@[k] == 32 || b@[k] == 9,
{
    let mut k = i;
    while k < hi && (b[k] == 32 || b[k] == 9)
        invariant
            i <= k <= hi <= b@.len(),
            blank_run(b@, i as int, hi as int) == blank_run(b@, k as int, hi as int),
            forall|j: int| i <= j < k ==> b@[j] == 32 || b@[j] == 9,
        decreases hi - k,
    {
        k = k + 1;
    }
    k
}

fn strip_len_at(b: &[u8], l: Line) -> (r: usize)
    requires
        l.start <= l.end <= b@.len(),
    ensures
        r == strip_len(b@, l),
        l.start + r <= l.end,
        forall|k: int| l.start <= k < l.start + r ==> b@[k] == 32 || b@[k] == 9,
{
    if l.start < l.end && b[l.start] == 9 {
        return 1;
    }
    let r = blank_run_at(b, l.start, l.end);
    if find_byte_at(b, l.start, r, 9) < r {
        r - l.start
    } else {
        0
    }
}

fn fence_open_at(b: &[u8], p: usize, e: usize) -> (r: Option<(u8, usize)>)
    requires
        p <= e <= b@.len(),
    ensures
        fence_view(r) == fence_open(b@, p as int, e as int),
{
    let lim = if e - p > 3 {
        p + 3
    } else {
        e
    };
    let q = run_of_at(b, p, lim, 32);
    if q < e && (b[q] == 96 || b[q] == 126) {
        let c = b[q];
        let m = run_of_at(b, q, e, c) - q;
        if m >= 3 && !(c == 96 && find_byte_at(b, q + m, e, 96) < e) {
            Some((c, m))
        } else {
            None
        }
    } else {
        None
    }
}

fn fence_closes_at(b: &[u8], l: Line, c: u8, n: usize) -> (r: bool)
    requires
        l.start <= l.end <= b@.len(),
    ensures
        r == fence_closes(b@, l, c, n as nat),
{
    let lim = if l.end - l.start > 3 {
        l.start + 3
    } else {
        l.end
    };
    let q = run_of_at(b, l.start, lim, 32);
    let r = run_of_at(b, q, l.end, c);
    r - q >= n && blank_run_at(b, r, l.end) == l.end
}

fn run_end_at(ls: &Vec<Line>, i: usize) -> (r: usize)
    requires
        i <= ls@.len(),
    ensures
        r == run_end(ls@, i as int),
        i <= r <= ls@.len(),
{
    let mut k = i;
    while k < ls.len() && ls[k].blank
        invariant
            i <= k <= ls@.len(),
            run_end(ls@, i as int) == run_end(ls@, k as int),
        decreases ls@.len() - k,
    {
        k = k + 1;
    }
    k
}

fn breaks_slide_at(ls: &Vec<Line>, i: usize) -> (r: bool)
    requires
        i < ls@.len(),
    ensures
        r == breaks_slide(ls@, i as int),
{
    if i == 0 || ls[i - 1].blank {
        return false;
    }
    let e = run_end_at(ls, i);
    e - i >= 2 && e < ls.len()
}

fn bytes_eq(s: &[u8], lit: &[u8]) -> (r: bool)
    ensures
        r == (s@ == lit@),
{
    if s.len() != lit.len() {
        return false;
    }
    let mut k: usize = 0;
    while k < s.len()
        invariant
            s@.len() == lit@.len(),
            k <= s@.len(),
            forall|j: int| 0 <= j < k ==> s@[j] == lit@[j],
        decreases s@.len() - k,
    {
        if s[k] != lit[k] {
            return false;
        }
        k = k + 1;
    }
    assert(s@ =~= lit@);
    true
}

fn meta_update_exec(m: &mut ImageMeta, key: &str, value: &str, span: SourceSpan) -> (r: Result<
    (),
    ParseError,
>)
    ensures
        match meta_update(old(m)@, key.spec_bytes(), value.spec_bytes(), span) {
            Ok(m2) => r is Ok && final(m)@ == m2,
            Err(e) => r matches Err(er) && er@ == e,
        },
{
    reveal(meta_update);
    let v = strip_outer_quotes(value);
    let kb = key.as_bytes();
    let size: [u8; 4] = [115, 105, 122, 101];
    let x: [u8; 1] = [120];
    let y: [u8; 1] = [121];
    let background: [u8; 10] = [98, 97, 99, 107, 103, 114, 111, 117, 110, 100];
    let opacity: [u8; 7] = [111, 112, 97, 99, 105, 116, 121];
    assert(size@ =~= lit_size());
    assert(x@ =~= seq![120u8]);
    assert(y@ =~= seq![121u8]);
    assert(background@ =~= lit_background());
    assert(opacity@ =~= lit_opacity());
    if bytes_eq(kb, &size) {
        match normalize_size(v) {
            Some(z) => {
                m.size = Some(z);
                Ok(())
            },
            None => Err(ParseError::InvalidImageMeta { span, key: key.to_owned(), value: v.to_owned() }),
        }
    } else if bytes_eq(kb, &x) {
        match normalize_align(key, v) {
            Some(a) => {
                m.x = Some(a);
                Ok(())
            },
            None => Err(ParseError::InvalidImageMeta { span, key: key.to_owned(), value: v.to_owned() }),
        }
    } else if bytes_eq(kb, &y) {
        match normalize_align(key, v) {
            Some(a) => {
                m.y = Some(a);
                Ok(())
            },
            None => Err(ParseError::InvalidImageMeta { span, key: key.to_owned(), value: v.to_owned() }),
        }
    } else if bytes_eq(kb, &background) {
        m.background = Some(v.to_owned());
        Ok(())
    } else if bytes_eq(kb, &opacity) {
        match parse_opacity(v) {
            Some(o) => {
                m.opacity = Some(o);
                Ok(())
            },
            None => Err(ParseError::InvalidImageMeta { span, key: key.to_owned(), value: v.to_owned() }),
        }
    } else {
        Ok(())
    }
}

/// Facts about line `i` of `b`: it lies inside `b` between two character
/// boundaries.
pub proof fn lemma_line(b: Seq<u8>, ls: Seq<Line>, i: int)
    requires
        valid_utf8(b),
        lines_wf(b, ls),
        0 <= i < ls.len(),
    ensures
        ls[i].start <= ls[i].end <= b.len(),
        text::boundary(b, ls[i].start as int),
        text::boundary(b, ls[i].end as int),
{
    reveal(lines_wf);
    let l = ls[i];
    assert(l.start <= l.end <= b.len());
    if l.start > 0 {
        assert(b[l.start - 1] == 10);
        assert(text::boundary(b, l.start - 1));
        lemma_boundary_step(b, l.start - 1);
    }
}

/// A run of ASCII bytes from a boundary ends at a boundary.
pub proof fn lemma_ascii_run(b: Seq<u8>, i: int, j: int)
    requires
        valid_utf8(b),
        text::boundary(b, i),
        0 <= i <= j <= b.len(),
        forall|k: int| i <= k < j ==> b[k] < 128,
    ensures
        text::boundary(b, j),
    decreases j - i,
{
    if i < j {
        lemma_boundary_step(b, i);
        lemma_ascii_run(b, i + 1, j);
    }
}

pub proof fn lemma_meta_end(b: Seq<u8>, ls: Seq<Line>, j: int)
    requires
        0 <= j <= ls.len(),
    ensures
        j <= meta_end(b, ls, j) <= ls.len(),
    decreases ls.len() - j,
{
    if j < ls.len() && spec_meta_parts(line_bytes(b, ls[j])) is Some {
        lemma_meta_end(b, ls, j + 1);
    }
}

/// The outcome `r` of the pass at line `i` and the state it leaves agree
/// with [`step`] from state `st`.
pub open spec fn step_done(
    b: Seq<u8>,
    ls: Seq<Line>,
    i: int,
    st: PState,
    r: Result<usize, ParseError>,
    out: Seq<u8>,
    entries: Seq<OffsetEntry>,
    metas: Seq<ImageMetaAt>,
    fence: Option<(u8, usize)>,
) -> bool {
    match step(b, ls, i, st) {
        Ok((ni, st2)) => r == Ok::<usize, ParseError>(ni as usize) && cur_state(
            out,
            entries,
            metas,
            fence,
        ) == st2 && valid_utf8(out) && i < ni <= ls.len(),
        Err(e) => r matches Err(er) && er@ == e,
    }
}

pub open spec fn line_ctx(b: Seq<u8>, ls: Seq<Line>, i: int) -> bool {
    &&& valid_utf8(b)
    &&& ls == spec_lines(b)
    &&& lines_wf(b, ls)
    &&& 0 <= i < ls.len()
}

fn prepass_fenced(
    source: &str,
    lines: &Vec<Line>,
    i: usize,
    out: &mut Vec<u8>,
    entries: &mut Vec<OffsetEntry>,
    metas: &mut Vec<ImageMetaAt>,
    fence: &mut Option<(u8, usize)>,
) -> (r: Result<usize, ParseError>)
    requires
        line_ctx(source.spec_bytes(), lines@, i as int),
        valid_utf8(old(out)@),
        *old(fence) is Some,
    ensures
        step_done(
            source.spec_bytes(),
            lines@,
            i as int,
            cur_state(old(out)@, old(entries)@, old(metas)@, *old(fence)),
            r,
            final(out)@,
            final(entries)@,
            final(metas)@,
            *final(fence),
        ),
{
    reveal(step);
    let bytes = source.as_bytes();
    let ghost b = bytes@;
    let nl_count = lines.len();
    let l = lines[i];
    proof {
        lemma_line(b, lines@, i as int);
    }
    let (c, n) = match *fence {
        Some(f) => f,
        None => (0, 0),
    };
    let ghost o = out@;
    let line = text::str_slice(source, l.start, l.end);
    text::push_str_bytes(out, line);
    if l.end < bytes.len() {
        let nl: [u8; 1] = [10];
        text::push_ascii(out, &nl);
    }
    assert(out@ =~= o + line_bytes(b, l) + nl_after(b, l));
    if fence_closes_at(bytes, l, c, n) {
        *fence = None;
    }
    Ok(i + 1)
}

fn prepass_blank(
    source: &str,
    lines: &Vec<Line>,
    i: usize,
    out: &mut Vec<u8>,
    entries: &mut Vec<OffsetEntry>,
    metas: &mut Vec<ImageMetaAt>,
    fence: &mut Option<(u8, usize)>,
) -> (r: Result<usize, ParseError>)
    requires
        line_ctx(source.spec_bytes(), lines@, i as int),
        valid_utf8(old(out)@),
        *old(fence) is None,
        lines@[i as int].blank,
    ensures
        step_done(
            source.spec_bytes(),
            lines@,
            i as int,
            cur_state(old(out)@, old(entries)@, old(metas)@, *old(fence)),
            r,
            final(out)@,
            final(entries)@,
            final(metas)@,
            *final(fence),
        ),
{
    reveal(step);
    let bytes = source.as_bytes();
    let ghost b = bytes@;
    let nl_count = lines.len();
    let l = lines[i];
    proof {
        lemma_line(b, lines@, i as int);
    }
    let ghost o = out@;
    let has_nl = l.end < bytes.len();
    let line = text::str_slice(source, l.start, l.end);
    text::push_str_bytes(out, line);
    if has_nl {
        let nl: [u8; 1] = [10];
        text::push_ascii(out, &nl);
    }
    assert(out@ =~= o + line_bytes(b, l) + nl_after(b, l));
    if breaks_slide_at(lines, i) {
        let at = if has_nl {
            l.end + 1
        } else {
            l.end
        };
        let rw_start = out.len();
        let sentinel: [u8; 29] = [
            60, 33, 45, 45, 32, 111, 120, 108, 105, 100, 101, 45, 115, 108, 105, 100, 101, 45, 98,
            114, 101, 97, 107, 32, 45, 45, 62, 10, 10,
        ];
        assert(sentinel@ =~= sentinel_bytes());
        text::push_ascii(out, &sentinel);
        entries.push(OffsetEntry { rw_start, rw_end: out.len(), orig_start: at, orig_end: at });
    }
    Ok(i + 1)
}

fn prepass_text(
    source: &str,
    lines: &Vec<Line>,
    i: usize,
    out: &mut Vec<u8>,
    entries: &mut Vec<OffsetEntry>,
    metas: &mut Vec<ImageMetaAt>,
    fence: &mut Option<(u8, usize)>,
) -> (r: Result<usize, ParseError>)
    requires
        line_ctx(source.spec_bytes(), lines@, i as int),
        valid_utf8(old(out)@),
        *old(fence) is None,
        !lines@[i as int].blank,
        !((i == 0 || lines@[i - 1].blank) && spec_image_path_end(
            line_bytes(source.spec_bytes(), lines@[i as int]),
        ) is Some),
    ensures
        step_done(
            source.spec_bytes(),
            lines@,
            i as int,
            cur_state(old(out)@, old(entries)@, old(metas)@, *old(fence)),
            r,
            final(out)@,
            final(entries)@,
            final(metas)@,
            *final(fence),
        ),
{
    reveal(step);
    let bytes = source.as_bytes();
    let ghost b = bytes@;
    let nl_count = lines.len();
    let l = lines[i];
    proof {
        lemma_line(b, lines@, i as int);
    }
    let ghost o = out@;
    let k = strip_len_at(bytes, l);
    if k > 0 {
        let at = out.len();
        entries.push(
            OffsetEntry { rw_start: at, rw_end: at, orig_start: l.start, orig_end: l.start + k },
        );
    }
    proof {
        lemma_ascii_run(b, l.start as int, l.start + k);
    }
    let content = text::str_slice(source, l.start + k, l.end);
    text::push_str_bytes(out, content);
    if l.end < bytes.len() {
        let nl: [u8; 1] = [10];
        text::push_ascii(out, &nl);
    }
    assert(out@ =~= o + b.subrange(l.start + k, l.end as int) + nl_after(b, l));
    *fence = fence_open_at(bytes, l.start + k, l.end);
    Ok(i + 1)
}

/// What metadata line `j` makes of `m`: `Ok(false)` when the line is no
/// metadata line.
fn meta_line(source: &str, lines: &Vec<Line>, j: usize, m: &mut ImageMeta) -> (r: Result<
    bool,
    ParseError,
>)
    requires
        line_ctx(source.spec_bytes(), lines@, j as int),
    ensures
        match spec_meta_parts(line_bytes(source.spec_bytes(), lines@[j as int])) {
            None => r == Ok::<bool, ParseError>(false) && *final(m) == *old(m),
            Some((t, c, vs, ve)) => match meta_update(
                old(m)@,
                line_bytes(source.spec_bytes(), lines@[j as int]).subrange(t, c),
                line_bytes(source.spec_bytes(), lines@[j as int]).subrange(vs, ve),
                line_span(lines@[j as int]),
            ) {
                Ok(m2) => r == Ok::<bool, ParseError>(true) && final(m)@ == m2,
                Err(e) => r matches Err(er) && er@ == e,
            },
        },
{
    let ghost b = source.spec_bytes();
    let lj = lines[j];
    proof {
        lemma_line(b, lines@, j as int);
    }
    let line_j = text::str_slice(source, lj.start, lj.end);
    match parse_metadata_line(line_j) {
        None => Ok(false),
        Some((k, v)) => {
            let span = SourceSpan { start: lj.start, end: lj.end };
            match meta_update_exec(m, k, v, span) {
                Err(e) => Err(e),
                Ok(()) => Ok(true),
            }
        },
    }
}

proof fn lemma_meta_from_unfold(b: Seq<u8>, ls: Seq<Line>, j: int, hi: int, m: ImageMetaV)
    requires
        0 <= j < hi <= ls.len(),
    ensures
        meta_from(b, ls, j, hi, m) == match spec_meta_parts(line_bytes(b, ls[j])) {
            Some((t, c, vs, ve)) => match meta_update(
                m,
                line_bytes(b, ls[j]).subrange(t, c),
                line_bytes(b, ls[j]).subrange(vs, ve),
                line_span(ls[j]),
            ) {
                Ok(m2) => meta_from(b, ls, j + 1, hi, m2),
                Err(e) => Err(e),
            },
            None => meta_from(b, ls, j + 1, hi, m),
        },
{
}

fn collect_meta(source: &str, lines: &Vec<Line>, i: usize) -> (r: Result<
    (usize, ImageMeta),
    ParseError,
>)
    requires
        line_ctx(source.spec_bytes(), lines@, i as int),
    ensures
        match meta_from(
            source.spec_bytes(),
            lines@,
            i + 1,
            meta_end(source.spec_bytes(), lines@, i + 1),
            ImageMetaV::empty(),
        ) {
            Ok(m) => r matches Ok((j, mm)) && j == meta_end(source.spec_bytes(), lines@, i + 1)
                && mm@ == m,
            Err(e) => r matches Err(er) && er@ == e,
        },
{
    let ghost b = source.spec_bytes();
    let ghost ls = lines@;
    let ghost jend = meta_end(b, ls, i + 1);
    let n = lines.len();
    proof {
        lemma_meta_end(b, ls, i + 1);
    }
    let mut m = ImageMeta { size: None, x: None, y: None, background: None, opacity: None };
    assert(m@ == ImageMetaV::empty());
    let mut j = i + 1;
    while j < n
        invariant
            b == source.spec_bytes(),
            valid_utf8(b),
            ls == spec_lines(b),
            lines_wf(b, ls),
            ls == lines@,
            n == ls.len(),
            i + 1 <= j <= jend <= n,
            jend == meta_end(b, ls, i + 1),
            meta_end(b, ls, j as int) == jend,
            meta_from(b, ls, i + 1, jend, ImageMetaV::empty()) == meta_from(
                b,
                ls,
                j as int,
                jend,
                m@,
            ),
        ensures
            j == jend,
            meta_from(b, ls, i + 1, jend, ImageMetaV::empty()) == meta_from(
                b,
                ls,
                j as int,
                jend,
                m@,
            ),
        decreases n - j,
    {
        let ghost m0 = m@;
        let r = meta_line(source, lines, j, &mut m);
        match r {
            Ok(false) => {
                assert(jend == j);
                break ;
            },
            Ok(true) => {
                proof {
                    lemma_meta_end(b, ls, j + 1);
                    lemma_meta_from_unfold(b, ls, j as int, jend, m0);
                }
                j = j + 1;
            },
            Err(e) => {
                proof {
                    lemma_meta_end(b, ls, j + 1);
                    lemma_meta_from_unfold(b, ls, j as int, jend, m0);
                }
                return Err(e);
            },
        }
    }
    Ok((j, m))
}

#[verifier::rlimit(50)]
fn prepass_image(
    source: &str,
    lines: &Vec<Line>,
    i: usize,
    path: &str,
    out: &mut Vec<u8>,
    entries: &mut Vec<OffsetEntry>,
    metas: &mut Vec<ImageMetaAt>,
    fence: &mut Option<(u8, usize)>,
) -> (r: Result<usize, ParseError>)
    requires
        line_ctx(source.spec_bytes(), lines@, i as int),
        valid_utf8(old(out)@),
        *old(fence) is None,
        !lines@[i as int].blank,
        i == 0 || lines@[i - 1].blank,
        spec_image_path_end(line_bytes(source.spec_bytes(), lines@[i as int])) is Some,
        path.spec_bytes() == line_bytes(source.spec_bytes(), lines@[i as int]).subrange(
            0,
            spec_image_path_end(line_bytes(source.spec_bytes(), lines@[i as int]))->0,
        ),
    ensures
        step_done(
            source.spec_bytes(),
            lines@,
            i as int,
            cur_state(old(out)@, old(entries)@, old(metas)@, *old(fence)),
            r,
            final(out)@,
            final(entries)@,
            final(metas)@,
            *final(fence),
        ),
{
    reveal(step);
    let bytes = source.as_bytes();
    let ghost b = bytes@;
    let ghost ls = lines@;
    let l = lines[i];
    proof {
        lemma_line(b, ls, i as int);
        lemma_meta_end(b, ls, i + 1);
    }
    let ghost te = spec_image_path_end(line_bytes(b, l))->0;
    proof {
        lemma_image_path_end(line_bytes(b, l));
    }
    assert(line_bytes(b, l).subrange(0, te) =~= b.subrange(l.start as int, l.start + te));
    let (j, m) = match collect_meta(source, lines, i) {
        Ok(x) => x,
        Err(e) => {
            return Err(e);
        },
    };
    let ghost o = out@;
    let last = lines[j - 1];
    let lnl = last.end < bytes.len();
    let rw_start = out.len();
    let open: [u8; 4] = [33, 91, 93, 40];
    let close: [u8; 1] = [41];
    let nl: [u8; 1] = [10];
    assert(open@ =~= seq![33u8, 91, 93, 40]);
    assert(close@ =~= seq![41u8]);
    assert(nl@ =~= seq![10u8]);
    text::push_ascii(out, &open);
    text::push_str_bytes(out, path);
    text::push_ascii(out, &close);
    let empty = m.size.is_none() && m.x.is_none() && m.y.is_none() && m.background.is_none()
        && m.opacity.is_none();
    assert(empty <==> m@ == ImageMetaV::empty());
    if !empty {
        let comment: [u8; 26] = [
            60, 33, 45, 45, 32, 111, 120, 108, 105, 100, 101, 45, 105, 109, 97, 103, 101, 45, 109,
            101, 116, 97, 32, 45, 45, 62,
        ];
        assert(comment@ =~= meta_comment_bytes());
        text::push_ascii(out, &nl);
        text::push_ascii(out, &comment);
    }
    if lnl {
        text::push_ascii(out, &nl);
    }
    let ghost img = seq![33u8, 91, 93, 40] + b.subrange(l.start as int, l.start + te) + seq![41u8];
    assert(lnl ==> nl_after(b, last) == seq![10u8]);
    assert(!lnl ==> nl_after(b, last) == Seq::<u8>::empty());
    assert(out@ =~= o + (if m@ == ImageMetaV::empty() {
        img + nl_after(b, last)
    } else {
        img + seq![10u8] + meta_comment_bytes() + nl_after(b, last)
    }));
    let orig_end = if lnl {
        last.end + 1
    } else {
        last.end
    };
    entries.push(OffsetEntry { rw_start, rw_end: out.len(), orig_start: l.start, orig_end });
    if !empty {
        metas.push(ImageMetaAt { rw_start, meta: m });
        assert(metas_view(metas@) =~= metas_view(old(metas)@).push((rw_start, m@)));
    }
    Ok(j)
}

/// The pass: the rewritten text, the rewrites, the lines and the image
/// metadata of `source`, or the first invalid metadata value.
pub fn prepass(source: &str) -> (res: Result<PrepassOutput, ParseError>)
    ensures
        match spec_prepass(source.spec_bytes()) {
            Ok(st) => res matches Ok(o) && encode_utf8(o.rewritten@) == st.out && o.entries@
                == st.entries && o.lines@ == spec_lines(source.spec_bytes()) && metas_view(
                o.image_metas@,
            ) == st.metas,
            Err(e) => res matches Err(er) && er@ == e,
        },
        // Offsets into the rewritten text map back to the source: outside the
        // rewritten ranges each byte is the source byte its offset maps to,
        // and the end maps to the end.
        spec_prepass(source.spec_bytes()) matches Ok(st) ==> maps_back(
            source.spec_bytes(),
            st.out,
            st.entries,
        ) && map_back(st.out.len() as int, st.entries, 0, 0) == source.spec_bytes().len(),
        // The map back starts at the start, never goes backwards, and stays
        // within the source (so it never wraps on a machine word).
        spec_prepass(source.spec_bytes()) matches Ok(st) ==> {
            &&& (st.entries.len() == 0 || st.entries[0].rw_end > 0) ==> map_back(0, st.entries, 0, 0)
                == 0
            &&& forall|rw1: int, rw2: int|
                0 <= rw1 <= rw2 <= st.out.len() ==> 0 <= #[trigger] map_back(rw1, st.entries, 0, 0)
                    <= #[trigger] map_back(rw2, st.entries, 0, 0) <= source.spec_bytes().len()
        },
{
    let bytes = source.as_bytes();
    let ghost b = bytes@;
    let nbytes = bytes.len();
    let lines = scan_lines(source);
    proof {
        lemma_lines_from_wf(b, 0);
    }
    let mut out: Vec<u8> = Vec::new();
    let mut entries: Vec<OffsetEntry> = Vec::new();
    let mut metas: Vec<ImageMetaAt> = Vec::new();
    let mut fence: Option<(u8, usize)> = None;
    let mut i: usize = 0;
    assert(metas_view(metas@) =~= Seq::<(usize, ImageMetaV)>::empty());
    proof {
        lemma_pass_maps_init(b);
        assert(out@ =~= init_state().out);
        assert(cur_state(out@, entries@, metas@, fence) =~= init_state());
    }
    assert(valid_utf8(out@)) by {
        assert(out@ =~= Seq::<u8>::empty());
    }
    while i < lines.len()
        invariant
            b == source.spec_bytes(),
            valid_utf8(b),
            lines@ == spec_lines(b),
            lines_wf(b, lines@),
            i <= lines@.len(),
            valid_utf8(out@),
            prepass_from(b, lines@, 0, init_state()) == prepass_from(
                b,
                lines@,
                i as int,
                cur_state(out@, entries@, metas@, fence),
            ),
            b.len() == nbytes,
            pass_maps(b, lines@, i as int, cur_state(out@, entries@, metas@, fence)),
        decreases lines@.len() - i,
    {
        let ghost st = cur_state(out@, entries@, metas@, fence);
        let ghost i_old = i as int;
        let r = if fence.is_some() {
            prepass_fenced(source, &lines, i, &mut out, &mut entries, &mut metas, &mut fence)
        } else if lines[i].blank {
            prepass_blank(source, &lines, i, &mut out, &mut entries, &mut metas, &mut fence)
        } else {
            let l = lines[i];
            proof {
                lemma_line(b, lines@, i as int);
            }
            let line = text::str_slice(source, l.start, l.end);
            let path_opt = if i == 0 || lines[i - 1].blank {
                detect_image_path(line)
            } else {
                None
            };
            match path_opt {
                Some(path) => prepass_image(
                    source,
                    &lines,
                    i,
                    path,
                    &mut out,
                    &mut entries,
                    &mut metas,
                    &mut fence,
                ),
                None => prepass_text(
                    source,
                    &lines,
                    i,
                    &mut out,
                    &mut entries,
                    &mut metas,
                    &mut fence,
                ),
            }
        };
        match r {
            Ok(ni) => {
                proof {
                    let l = out.len();
                    assert(out@.len() == l);
                    assert(step(b, lines@, i_old, st) == Ok::<(int, PState), ParseErrorV>(
                        (ni as int, cur_state(out@, entries@, metas@, fence)),
                    ));
                    lemma_step_maps(b, i_old, st);
                }
                i = ni;
            },
            Err(e) => {
                return Err(e);
            },
        }
    }
    proof {
        let fin = cur_state(out@, entries@, metas@, fence);
        lemma_map_back_past(out@.len() as int, entries@);
        assert(map_back(fin.out.len() as int, fin.entries, 0, 0) == b.len());
        if fin.entries.len() == 0 || fin.entries[0].rw_end > 0 {
            lemma_map_back_zero(fin.entries);
        }
        assert forall|rw1: int, rw2: int| 0 <= rw1 <= rw2 <= fin.out.len() implies 0
            <= #[trigger] map_back(rw1, fin.entries, 0, 0) <= #[trigger] map_back(
            rw2,
            fin.entries,
            0,
            0,
        ) <= b.len() by {
            lemma_map_back_nonneg(rw1, fin.entries, 0, 0);
            lemma_map_back_monotone(fin.entries, rw1, rw2);
            lemma_map_back_monotone(fin.entries, rw2, fin.out.len() as int);
        }
    }
    let rewritten = match text::string_from_utf8(out) {
        Ok(s) => s,
        Err(_) => {
            proof {
                assert(false);
            }
            String::new()
        },
    };
    Ok(PrepassOutput { rewritten, entries, lines, image_metas: metas })
}

/// Where rewritten offset `rw` lies in the original source, reading the
/// rewrites from index `i` on with the shift `adjust` that the rewrites before
/// it left: an offset inside a rewritten range maps to the range's original
/// start; an offset past it is shifted by the last passed rewrite.
pub open spec fn map_back(rw: int, es: Seq<OffsetEntry>, i: int, adjust: int) -> int
    decreases es.len() - i,
{
    if i < 0 || i >= es.len() || rw < es[i].rw_start {
        rw + adjust
    } else if rw < es[i].rw_end {
        es[i].orig_start as int
    } else {
        map_back(rw, es, i + 1, es[i].orig_end - es[i].rw_end)
    }
}

pub proof fn lemma_map_back_nonneg(rw: int, es: Seq<OffsetEntry>, i: int, adjust: int)
    requires
        rw >= 0,
        rw + adjust >= 0,
    ensures
        map_back(rw, es, i, adjust) >= 0,
    decreases es.len() - i,
{
    if 0 <= i < es.len() && rw >= es[i].rw_end {
        lemma_map_back_nonneg(rw, es, i + 1, es[i].orig_end - es[i].rw_end);
    }
}

/// The offset in the original source of offset `rw` in the rewritten text.
/// The mapped offset is never negative; on a machine word it wraps around
/// once past `usize::MAX`, which only rewrites longer than memory can reach.
pub fn rewritten_to_original(rw: usize, entries: &[OffsetEntry]) -> (r: usize)
    ensures
        map_back(rw as int, entries@, 0, 0) >= 0,
        map_back(rw as int, entries@, 0, 0) <= usize::MAX ==> r == map_back(
            rw as int,
            entries@,
            0,
            0,
        ),
        map_back(rw as int, entries@, 0, 0) > usize::MAX ==> r == map_back(
            rw as int,
            entries@,
            0,
            0,
        ) - usize::MAX - 1,
{
    proof {
        lemma_map_back_nonneg(rw as int, entries@, 0, 0);
    }
    let n = entries.len();
    let mut i: usize = 0;
    let mut plus: usize = 0;
    let mut minus: usize = 0;
    while i < n
        invariant
            n == entries@.len(),
            i <= n,
            plus <= rw || i > 0,
            i == 0 ==> plus == 0 && minus == 0,
            i > 0 ==> plus == entries@[i - 1].orig_end && minus == entries@[i - 1].rw_end && rw
                >= minus,
            map_back(rw as int, entries@, 0, 0) == map_back(
                rw as int,
                entries@,
                i as int,
                plus - minus,
            ),
        ensures
            i <= n,
            i == 0 ==> plus == 0 && minus == 0,
            i > 0 ==> rw >= minus,
            i < n ==> rw < entries@[i as int].rw_start,
            map_back(rw as int, entries@, 0, 0) == rw + plus - minus,
        decreases n - i,
    {
        let e = entries[i];
        if rw < e.rw_start {
            break;
        } else if rw < e.rw_end {
            return e.orig_start;
        } else {
            plus = e.orig_end;
            minus = e.rw_end;
        }
        i = i + 1;
    }
    let r = rw.wrapping_add(plus).wrapping_sub(minus);
    r
}

/// Whether rewritten offset `rw` lies inside the rewritten range of `e`.
pub open spec fn covers(e: OffsetEntry, rw: int) -> bool {
    e.rw_start <= rw < e.rw_end
}

/// Where the rewritten text before rewrite `j` ends (0 before the first).
pub open spec fn prev_end(es: Seq<OffsetEntry>, j: int) -> int {
    if j <= 0 {
        0
    } else {
        es[j - 1].rw_end as int
    }
}

proof fn lemma_shift_take_next(es: Seq<OffsetEntry>, i: int)
    requires
        0 <= i < es.len(),
    ensures
        shift(es.take(i + 1)) == es[i].orig_end - es[i].rw_end,
{
    assert(es.take(i + 1).last() == es[i]);
}

/// From rewrite `j` on, an offset past the rewrites before it maps no
/// earlier than where they end in the source.
proof fn lemma_map_back_lower(rw: int, es: Seq<OffsetEntry>, j: int)
    requires
        sorted_entries(es),
        anchored(es),
        0 <= j <= es.len(),
        prev_end(es, j) <= rw,
    ensures
        map_back(rw, es, j, shift(es.take(j))) >= prev_end(es, j) + shift(es.take(j)),
    decreases es.len() - j,
{
    if j < es.len() {
        if j > 0 {
            assert(es[j - 1].rw_end <= es[j].rw_start);
        }
        if rw >= es[j].rw_end {
            lemma_shift_take_next(es, j);
            lemma_map_back_lower(rw, es, j + 1);
        }
    }
}

proof fn lemma_map_back_mono_from(rw1: int, rw2: int, es: Seq<OffsetEntry>, i: int)
    requires
        sorted_entries(es),
        anchored(es),
        0 <= i <= es.len(),
        prev_end(es, i) <= rw1 <= rw2,
    ensures
        map_back(rw1, es, i, shift(es.take(i))) <= map_back(rw2, es, i, shift(es.take(i))),
    decreases es.len() - i,
{
    if i < es.len() {
        let e = es[i];
        if rw2 >= e.rw_end {
            lemma_shift_take_next(es, i);
            lemma_map_back_lower(rw2, es, i + 1);
            if rw1 >= e.rw_end {
                lemma_map_back_mono_from(rw1, rw2, es, i + 1);
            }
        }
    }
}

/// The map back to the source never goes backwards.
pub proof fn lemma_map_back_monotone(es: Seq<OffsetEntry>, rw1: int, rw2: int)
    requires
        sorted_entries(es),
        anchored(es),
        0 <= rw1 <= rw2,
    ensures
        map_back(rw1, es, 0, 0) <= map_back(rw2, es, 0, 0),
{
    assert(es.take(0) =~= Seq::<OffsetEntry>::empty());
    lemma_map_back_mono_from(rw1, rw2, es, 0);
}

/// The start of the rewritten text maps to the start of the source, unless
/// the first rewrite removes source text there (an empty rewritten range at
/// the start, as for stripped indentation of the first line).
pub proof fn lemma_map_back_zero(es: Seq<OffsetEntry>)
    requires
        anchored(es),
        es.len() == 0 || es[0].rw_end > 0,
    ensures
        map_back(0, es, 0, 0) == 0,
{
    if es.len() > 0 {
        assert(es.take(0) =~= Seq::<OffsetEntry>::empty());
    }
}

proof fn lemma_map_back_covered_from(es: Seq<OffsetEntry>, k: int, rw: int, i: int, adj: int)
    requires
        sorted_entries(es),
        0 <= i <= k < es.len(),
        covers(es[k], rw),
    ensures
        map_back(rw, es, i, adj) == es[k].orig_start,
    decreases k - i,
{
    if i < k {
        assert(es[i].rw_end <= es[k].rw_start);
        lemma_map_back_covered_from(es, k, rw, i + 1, es[i].orig_end - es[i].rw_end);
    }
}

/// An offset inside a rewritten range maps to the start of the range's
/// source.
pub proof fn lemma_map_back_covered(es: Seq<OffsetEntry>, k: int, rw: int)
    requires
        sorted_entries(es),
        0 <= k < es.len(),
        covers(es[k], rw),
    ensures
        map_back(rw, es, 0, 0) == es[k].orig_start,
{
    lemma_map_back_covered_from(es, k, rw, 0, 0);
}

/// The first rewrite whose rewritten range holds offset `rw`, if any.
pub fn entry_containing(rw: usize, entries: &[OffsetEntry]) -> (r: Option<&OffsetEntry>)
    ensures
        match r {
            Some(e) => exists|k: int|
                0 <= k < entries@.len() && entries@[k] == *e && covers(entries@[k], rw as int)
                    && forall|j: int| 0 <= j < k ==> !covers(entries@[j], rw as int),
            None => forall|k: int| 0 <= k < entries@.len() ==> !covers(entries@[k], rw as int),
        },
        // In ordered rewrites, the range found is where the offset maps back.
        sorted_entries(entries@) ==> (r matches Some(e) ==> map_back(rw as int, entries@, 0, 0)
            == e.orig_start),
{
    let n = entries.len();
    let mut i: usize = 0;
    while i < n
        invariant
            n == entries@.len(),
            i <= n,
            forall|j: int| 0 <= j < i ==> !covers(entries@[j], rw as int),
        decreases n - i,
    {
        if entries[i].rw_start <= rw && rw < entries[i].rw_end {
            proof {
                if sorted_entries(entries@) {
                    lemma_map_back_covered(entries@, i as int, rw as int);
                }
            }
            return Some(&entries[i]);
        }
        i = i + 1;
    }
    None
}

// ---------------------------------------------------------------------------
// Offsets into the rewritten text map back to the source
// ---------------------------------------------------------------------------

/// Rewritten offset `rw` lies in no rewritten range of `es`.
pub open spec fn uncovered(es: Seq<OffsetEntry>, rw: int) -> bool {
    forall|k: int| 0 <= k < es.len() ==> !covers(#[trigger] es[k], rw)
}

/// The rewrites are in order: each range is well formed and ends before the
/// next one starts.
pub open spec fn sorted_entries(es: Seq<OffsetEntry>) -> bool {
    &&& forall|k: int| 0 <= k < es.len() ==> (#[trigger] es[k]).rw_start <= es[k].rw_end
    &&& forall|j: int, k: int|
        0 <= j < k < es.len() ==> (#[trigger] es[j]).rw_end <= (#[trigger] es[k]).rw_start
}

/// How far the last rewrite moved the text after it.
pub open spec fn shift(es: Seq<OffsetEntry>) -> int {
    if es.len() == 0 {
        0
    } else {
        es.last().orig_end - es.last().rw_end
    }
}

/// Each rewrite starts in the source where its rewritten start maps to by
/// the rewrites before it, and covers a source range.
pub open spec fn anchored(es: Seq<OffsetEntry>) -> bool {
    forall|k: int|
        0 <= k < es.len() ==> (#[trigger] es[k]).orig_start == es[k].rw_start + shift(es.take(k))
            && es[k].orig_start <= es[k].orig_end
}

/// Rewritten text `out` maps back to source `b` through the rewrites `es`:
/// they are in order, anchored and within `out`, and every byte of `out`
/// outside the rewritten ranges is the source byte its offset maps back to.
pub open spec fn maps_back(b: Seq<u8>, out: Seq<u8>, es: Seq<OffsetEntry>) -> bool {
    &&& sorted_entries(es)
    &&& anchored(es)
    &&& (es.len() > 0 ==> es.last().rw_end <= out.len())
    &&& forall|rw: int|
        0 <= rw < out.len() && uncovered(es, rw) ==> #[trigger] out[rw] == b[map_back(
            rw,
            es,
            0,
            0,
        )]
}

/// The source offset where line `i` starts (the end of the source past the
/// last line).
pub open spec fn cur_pos(b: Seq<u8>, ls: Seq<Line>, i: int) -> int {
    if 0 <= i < ls.len() {
        ls[i].start as int
    } else {
        b.len() as int
    }
}

/// What holds of the pass's state before line `i`.
pub open spec fn pass_maps(b: Seq<u8>, ls: Seq<Line>, i: int, st: PState) -> bool {
    &&& maps_back(b, st.out, st.entries)
    &&& st.out.len() + shift(st.entries) == cur_pos(b, ls, i)
}

proof fn lemma_map_back_past_from(rw: int, es: Seq<OffsetEntry>, i: int, adj: int)
    requires
        0 <= i <= es.len(),
        adj == (if i == 0 {
            0
        } else {
            es[i - 1].orig_end - es[i - 1].rw_end
        }),
        forall|k: int| 0 <= k < es.len() ==> (#[trigger] es[k]).rw_start <= es[k].rw_end <= rw,
    ensures
        map_back(rw, es, i, adj) == rw + shift(es),
    decreases es.len() - i,
{
    if i < es.len() {
        lemma_map_back_past_from(rw, es, i + 1, es[i].orig_end - es[i].rw_end);
    }
}

/// An offset at or past every rewritten range moves by the last rewrite.
proof fn lemma_map_back_past(rw: int, es: Seq<OffsetEntry>)
    requires
        sorted_entries(es),
        es.len() > 0 ==> es.last().rw_end <= rw,
    ensures
        map_back(rw, es, 0, 0) == rw + shift(es),
{
    assert forall|k: int| 0 <= k < es.len() implies (#[trigger] es[k]).rw_start <= es[k].rw_end
        <= rw by {
        if k < es.len() - 1 {
            assert(es[k].rw_end <= es[es.len() - 1].rw_start);
        }
    }
    lemma_map_back_past_from(rw, es, 0, 0);
}

/// A rewrite recorded after offset `rw` does not change where it maps.
proof fn lemma_map_back_push(rw: int, es: Seq<OffsetEntry>, e: OffsetEntry, i: int, adj: int)
    requires
        0 <= i <= es.len(),
        rw < e.rw_start,
    ensures
        map_back(rw, es.push(e), i, adj) == map_back(rw, es, i, adj),
    decreases es.len() - i,
{
    if i < es.len() {
        assert(es.push(e)[i] == es[i]);
        if !(rw < es[i].rw_start) && !(rw < es[i].rw_end) {
            lemma_map_back_push(rw, es, e, i + 1, es[i].orig_end - es[i].rw_end);
        }
    }
}

/// Copying source bytes `b[p..p + t.len()]` to the end of the rewritten text
/// keeps it mapping back, when its end maps to `p`.
proof fn lemma_copy(b: Seq<u8>, out: Seq<u8>, es: Seq<OffsetEntry>, p: int, t: Seq<u8>)
    requires
        maps_back(b, out, es),
        out.len() + shift(es) == p,
        0 <= p,
        p + t.len() <= b.len(),
        t == b.subrange(p, p + t.len()),
    ensures
        maps_back(b, out + t, es),
        (out + t).len() + shift(es) == p + t.len(),
{
    let o2 = out + t;
    assert forall|rw: int| 0 <= rw < o2.len() && uncovered(es, rw) implies #[trigger] o2[rw]
        == b[map_back(rw, es, 0, 0)] by {
        if rw < out.len() {
            assert(o2[rw] == out[rw]);
        } else {
            lemma_map_back_past(rw, es);
            assert(o2[rw] == t[rw - out.len()]);
        }
    }
}

/// Recording rewrite `e`, which starts at the end of the rewritten text,
/// keeps the text before it mapping back.
proof fn lemma_record(b: Seq<u8>, out: Seq<u8>, es: Seq<OffsetEntry>, e: OffsetEntry)
    requires
        maps_back(b, out, es),
        e.rw_start == out.len(),
        e.rw_start <= e.rw_end,
        e.orig_start == e.rw_start + shift(es),
        e.orig_start <= e.orig_end,
    ensures
        sorted_entries(es.push(e)),
        anchored(es.push(e)),
        forall|rw: int|
            0 <= rw < out.len() && uncovered(es.push(e), rw) ==> #[trigger] out[rw] == b[map_back(
                rw,
                es.push(e),
                0,
                0,
            )],
{
    let es2 = es.push(e);
    assert forall|j: int, k: int| 0 <= j < k < es2.len() implies (#[trigger] es2[j]).rw_end
        <= (#[trigger] es2[k]).rw_start by {
        if k < es.len() {
            assert(es2[j] == es[j] && es2[k] == es[k]);
        } else {
            assert(es2[j] == es[j]);
            if j < es.len() - 1 {
                assert(es[j].rw_end <= es[es.len() - 1].rw_start);
            }
        }
    }
    assert forall|k: int| 0 <= k < es2.len() implies (#[trigger] es2[k]).orig_start == es2[k].rw_start
        + shift(es2.take(k)) && es2[k].orig_start <= es2[k].orig_end by {
        if k < es.len() {
            assert(es2.take(k) =~= es.take(k));
            assert(es2[k] == es[k]);
        } else {
            assert(es2.take(k) =~= es);
        }
    }
    assert forall|rw: int| 0 <= rw < out.len() && uncovered(es2, rw) implies #[trigger] out[rw]
        == b[map_back(rw, es2, 0, 0)] by {
        lemma_map_back_push(rw, es, e, 0, 0);
        assert forall|k: int| 0 <= k < es.len() implies !covers(#[trigger] es[k], rw) by {
            assert(es2[k] == es[k]);
        }
    }
}

/// Appending `piece` to the rewritten text as one rewrite `e` that covers it
/// keeps the text mapping back.
proof fn lemma_replace(b: Seq<u8>, out: Seq<u8>, es: Seq<OffsetEntry>, e: OffsetEntry, piece: Seq<u8>)
    requires
        maps_back(b, out, es),
        e.rw_start == out.len(),
        e.rw_end == out.len() + piece.len(),
        e.orig_start == e.rw_start + shift(es),
        e.orig_start <= e.orig_end,
    ensures
        maps_back(b, out + piece, es.push(e)),
        (out + piece).len() + shift(es.push(e)) == e.orig_end,
{
    lemma_record(b, out, es, e);
    let o2 = out + piece;
    let es2 = es.push(e);
    assert forall|rw: int| 0 <= rw < o2.len() && uncovered(es2, rw) implies #[trigger] o2[rw]
        == b[map_back(rw, es2, 0, 0)] by {
        if rw >= out.len() {
            assert(covers(es2[es.len() as int], rw));
        } else {
            assert(o2[rw] == out[rw]);
        }
    }
}

/// Lines of `b` from `i` on: none when `i` is past the text, and the last
/// one ends at the end of the text or just before its last byte.
proof fn lemma_lines_from_end(b: Seq<u8>, i: int)
    requires
        0 <= i,
        b.len() <= usize::MAX,
    ensures
        lines_from(b, i).len() == 0 ==> i >= b.len(),
        lines_from(b, i).len() > 0 ==> lines_from(b, i).last().end + 1 >= b.len(),
        lines_from(b, i).len() > 0 ==> lines_from(b, i).last().end <= b.len(),
    decreases b.len() + 1 - i,
{
    if i < b.len() {
        lemma_next_nl(b, i);
        let e = next_nl(b, i);
        lemma_lines_from_end(b, e + 1);
        let rest = lines_from(b, e + 1);
        assert(lines_from(b, i) == seq![line_at(b, i)] + rest);
        if rest.len() > 0 {
            assert(lines_from(b, i).last() == rest.last());
        } else {
            assert(lines_from(b, i).last() == line_at(b, i));
        }
    }
}

/// Where the pass stands after line `k`: the start of the next line, that
/// is the end of line `k` and its line break.
proof fn lemma_cur_pos_next(b: Seq<u8>, k: int)
    requires
        b.len() <= usize::MAX,
        0 <= k < spec_lines(b).len(),
    ensures
        cur_pos(b, spec_lines(b), k + 1) == spec_lines(b)[k].end + nl_after(b, spec_lines(b)[k]).len(),
        cur_pos(b, spec_lines(b), k) == spec_lines(b)[k].start,
        spec_lines(b)[k].end < b.len() ==> b[spec_lines(b)[k].end as int] == 10,
        spec_lines(b)[k].start <= spec_lines(b)[k].end <= b.len(),
{
    let ls = spec_lines(b);
    lemma_lines_from_wf(b, 0);
    lemma_lines_from_end(b, 0);
    reveal(lines_wf);
    assert(ls[k].start <= ls[k].end <= b.len());
    if k + 1 == ls.len() {
        assert(ls.last() == ls[k]);
    }
}

/// Later lines start no earlier.
proof fn lemma_line_starts_ordered(b: Seq<u8>, a: int, c: int)
    requires
        b.len() <= usize::MAX,
        0 <= a <= c < spec_lines(b).len(),
    ensures
        spec_lines(b)[a].start <= spec_lines(b)[c].start,
    decreases c - a,
{
    if a < c {
        lemma_line_starts_ordered(b, a, c - 1);
        lemma_lines_from_wf(b, 0);
        reveal(lines_wf);
        let ls = spec_lines(b);
        assert(ls[c - 1].start <= ls[c - 1].end);
        assert(ls[c].start == ls[c - 1].end + 1);
    }
}

/// The pass starts with its end at the start of the source.
proof fn lemma_pass_maps_init(b: Seq<u8>)
    requires
        b.len() <= usize::MAX,
    ensures
        pass_maps(b, spec_lines(b), 0, init_state()),
{
    lemma_lines_from_wf(b, 0);
    lemma_lines_from_end(b, 0);
}

proof fn lemma_blank_run_bounds(b: Seq<u8>, i: int, hi: int)
    requires
        i <= hi,
    ensures
        i <= blank_run(b, i, hi) <= hi,
    decreases hi - i,
{
    if i < hi && (b[i] == 32 || b[i] == 9) {
        lemma_blank_run_bounds(b, i + 1, hi);
    }
}

/// A line and its line break are the source bytes from the line's start.
proof fn lemma_line_with_break(b: Seq<u8>, k: int, from: int)
    requires
        b.len() <= usize::MAX,
        0 <= k < spec_lines(b).len(),
        spec_lines(b)[k].start <= from <= spec_lines(b)[k].end,
    ensures
        b.subrange(from, spec_lines(b)[k].end as int) + nl_after(b, spec_lines(b)[k]) == b.subrange(
            from,
            spec_lines(b)[k].end + nl_after(b, spec_lines(b)[k]).len(),
        ),
        spec_lines(b)[k].end + nl_after(b, spec_lines(b)[k]).len() <= b.len(),
{
    lemma_cur_pos_next(b, k);
    let l = spec_lines(b)[k];
    assert(b.subrange(from, l.end as int) + nl_after(b, l) =~= b.subrange(
        from,
        l.end + nl_after(b, l).len(),
    ));
}

/// One step of the pass keeps the rewritten text mapping back to the source.
proof fn lemma_step_maps(b: Seq<u8>, i: int, st: PState)
    requires
        b.len() <= usize::MAX,
        0 <= i < spec_lines(b).len(),
        pass_maps(b, spec_lines(b), i, st),
        step(b, spec_lines(b), i, st) is Ok,
        step(b, spec_lines(b), i, st)->Ok_0.1.out.len() <= usize::MAX,
    ensures
        pass_maps(b, spec_lines(b), step(b, spec_lines(b), i, st)->Ok_0.0, step(b, spec_lines(b), i, st)->Ok_0.1),
{
    reveal(step);
    let ls = spec_lines(b);
    let l = ls[i];
    let nl = nl_after(b, l);
    lemma_cur_pos_next(b, i);
    match st.fence {
        Some((c, n)) => {
            lemma_line_with_break(b, i, l.start as int);
            lemma_copy(b, st.out, st.entries, l.start as int, line_bytes(b, l) + nl);
            assert(st.out + line_bytes(b, l) + nl =~= st.out + (line_bytes(b, l) + nl));
        },
        None => {
            if l.blank {
                lemma_line_with_break(b, i, l.start as int);
                lemma_copy(b, st.out, st.entries, l.start as int, line_bytes(b, l) + nl);
                let out2 = st.out + line_bytes(b, l) + nl;
                assert(out2 =~= st.out + (line_bytes(b, l) + nl));
                if breaks_slide(ls, i) {
                    let at = (l.end + nl.len()) as usize;
                    let e = OffsetEntry {
                        rw_start: out2.len() as usize,
                        rw_end: (out2.len() + 29) as usize,
                        orig_start: at,
                        orig_end: at,
                    };
                    lemma_replace(b, out2, st.entries, e, sentinel_bytes());
                }
            } else if (i == 0 || ls[i - 1].blank) && spec_image_path_end(line_bytes(b, l)) is Some {
                let te = spec_image_path_end(line_bytes(b, l))->0;
                let j = meta_end(b, ls, i + 1);
                lemma_meta_end(b, ls, i + 1);
                match meta_from(b, ls, i + 1, j, ImageMetaV::empty()) {
                    Err(e) => {},
                    Ok(m) => {
                        let last = ls[j - 1];
                        let lnl = nl_after(b, last);
                        let img = seq![33u8, 91, 93, 40] + b.subrange(l.start as int, l.start + te)
                            + seq![41u8];
                        let piece = if m == ImageMetaV::empty() {
                            img + lnl
                        } else {
                            img + seq![10u8] + meta_comment_bytes() + lnl
                        };
                        lemma_cur_pos_next(b, j - 1);
                        lemma_line_starts_ordered(b, i, j - 1);
                        let e = OffsetEntry {
                            rw_start: st.out.len() as usize,
                            rw_end: (st.out.len() + piece.len()) as usize,
                            orig_start: l.start,
                            orig_end: (last.end + lnl.len()) as usize,
                        };
                        lemma_replace(b, st.out, st.entries, e, piece);
                    },
                }
            } else {
                let k = strip_len(b, l);
                lemma_blank_run_bounds(b, l.start as int, l.end as int);
                assert(0 <= k <= l.end - l.start);
                lemma_line_with_break(b, i, l.start + k);
                let t = b.subrange(l.start + k, l.end as int) + nl;
                assert(st.out + b.subrange(l.start + k, l.end as int) + nl =~= st.out + t);
                if k > 0 {
                    let e = OffsetEntry {
                        rw_start: st.out.len() as usize,
                        rw_end: st.out.len() as usize,
                        orig_start: l.start,
                        orig_end: (l.start + k) as usize,
                    };
                    lemma_record(b, st.out, st.entries, e);
                    lemma_copy(b, st.out, st.entries.push(e), l.start + k, t);
                } else {
                    lemma_copy(b, st.out, st.entries, l.start as int, t);
                }
            }
        },
    }
}

} // verus!
