//! What the renderer decides before it draws: the chrome rows, where an
//! image's file is, the styled runs of inline text, where each block of a
//! cell goes, and how a QR code fits its cell.

use crate::layout::engine::{rect_within, split, Constraint};
use crate::layout::Rect;
use crate::parser::ast::{lemma_spans_v_push, spans_v, span_v, Block, Cell, InlineSpan, InlineSpanV};
use crate::parser::text;
use crate::render::theme::{ChromeSpec, Style, Theme};
use vstd::prelude::*;
use vstd::string::{StringExecFns, StringSliceAdditionalSpecFns};
use vstd::utf8::*;

verus! {

/// What the chrome rows show: a rule under the content's columns on the
/// first row and, when there is a second row, the slide counter on it.
#[derive(Debug, Clone, PartialEq, Eq)]
pub struct ChromePlan {
    pub rule: Option<(Rect, String)>,
    pub counter: Option<(Rect, String)>,
}

/// The counter of slide `idx` (counted from zero) of `total`: `N / TOTAL`.
pub open spec fn counter_text(idx: nat, total: nat) -> Seq<char> {
    super::text::decimal_chars(idx + 1) + seq![' ', '/', ' '] + super::text::decimal_chars(total)
}

/// The rule and counter rows of chrome `spec` in `area` below content area
/// `inner`, or `None` for a row that is not drawn, with their texts: the
/// rule spans the content's columns only, the counter the whole row.
pub open spec fn spec_chrome(spec: ChromeSpec, area: Rect, inner: Rect, idx: nat, total: nat) -> (
    Option<(Rect, Seq<char>)>,
    Option<(Rect, Seq<char>)>,
) {
    if area.width == 0 || area.height == 0 || spec == ChromeSpec::NoChrome {
        (None, None)
    } else {
        (
            Some(
                (
                    Rect { x: inner.x, y: area.y, width: inner.width, height: 1 },
                    Seq::new(inner.width as nat, |k: int| '─'),
                ),
            ),
            if area.height >= 2 {
                Some(
                    (
                        Rect { x: area.x, y: (area.y + 1) as u16, width: area.width, height: 1 },
                        counter_text(idx, total),
                    ),
                )
            } else {
                None
            },
        )
    }
}

pub open spec fn opt_row_v(r: Option<(Rect, String)>) -> Option<(Rect, Seq<char>)> {
    match r {
        Some((a, t)) => Some((a, t@)),
        None => None,
    }
}

/// What chrome `spec` draws in `area`, below the content area `inner`, for
/// slide `slide_idx` (counted from zero) of `total`.
pub fn plan_chrome(spec: ChromeSpec, area: Rect, inner: Rect, slide_idx: usize, total: usize) -> (p: ChromePlan)
    requires
        area.y + area.height <= u16::MAX,
        slide_idx < usize::MAX,
    ensures
        (opt_row_v(p.rule), opt_row_v(p.counter)) == spec_chrome(
            spec,
            area,
            inner,
            slide_idx as nat,
            total as nat,
        ),
{
    if area.width == 0 || area.height == 0 {
        return ChromePlan { rule: None, counter: None };
    }
    match spec {
        ChromeSpec::NoChrome => ChromePlan { rule: None, counter: None },
        ChromeSpec::BottomRule => {
            let mut rule = String::new();
            let mut k: u16 = 0;
            while k < inner.width
                invariant
                    k <= inner.width,
                    rule@ =~= Seq::new(k as nat, |j: int| '─'),
                decreases inner.width - k,
            {
                text::push_char(&mut rule, '─');
                k = k + 1;
            }
            let counter = if area.height >= 2 {
                let mut c = super::text::decimal(slide_idx + 1);
                c.append(" / ");
                let total_text = super::text::decimal(total);
                c.append(total_text.as_str());
                proof {
                    reveal_strlit(" / ");
                }
                Some((Rect { x: area.x, y: area.y + 1, width: area.width, height: 1 }, c))
            } else {
                None
            };
            ChromePlan { rule: Some((Rect { x: inner.x, y: area.y, width: inner.width, height: 1 }, rule)), counter }
        },
    }
}

/// Whether `p` is an absolute path as Unix reads paths: it starts with `/`.
pub open spec fn is_absolute(p: Seq<char>) -> bool {
    p.len() > 0 && p[0] == '/'
}

/// `dir` joined with the relative path `p` as Unix joins paths, with a `/`
/// between them unless `dir` is empty or already ends with one.
pub open spec fn join(dir: Seq<char>, p: Seq<char>) -> Seq<char> {
    if dir.len() == 0 || dir.last() == '/' {
        dir + p
    } else {
        dir + seq!['/'] + p
    }
}

/// The path of image `src` of a deck in directory `deck_dir`: an absolute
/// path as it is, a relative one joined onto the deck's directory when it is
/// known, and unchanged otherwise. Paths are read and joined as on Unix
/// (`/`-separated); on Windows `std::path` would also take drive and
/// back-slash forms, which this does not.
pub fn resolve_image_path(src: &str, deck_dir: Option<&str>) -> (r: String)
    ensures
        r@ == if is_absolute(src@) {
            src@
        } else {
            match deck_dir {
                Some(d) => join(d@, src@),
                None => src@,
            }
        },
{
    let abs = match text::edge_chars(src).0 {
        Some(c) => c == '/',
        None => false,
    };
    if abs {
        return src.to_owned();
    }
    match deck_dir {
        None => src.to_owned(),
        Some(d) => {
            let mut out = d.to_owned();
            let sep = match text::edge_chars(d).1 {
                Some(c) => c != '/',
                None => false,
            };
            if sep {
                out.append("/");
            }
            out.append(src);
            proof {
                reveal_strlit("/");
            }
            out
        },
    }
}

// ---------------------------------------------------------------------------
// Styled runs of inline text
// ---------------------------------------------------------------------------

/// A piece of text in one style.
#[derive(Debug, Clone, PartialEq, Eq)]
pub struct StyledRun {
    pub text: String,
    pub style: Style,
}

pub open spec fn run_v(r: StyledRun) -> (Seq<char>, Style) {
    (r.text@, r.style)
}

pub open spec fn runs_v(rs: Seq<StyledRun>) -> Seq<(Seq<char>, Style)> {
    rs.map_values(|r: StyledRun| run_v(r))
}

/// `s` in bold.
pub open spec fn bold(s: Style) -> Style {
    Style { bold: true, ..s }
}

/// `s` in italics.
pub open spec fn italic(s: Style) -> Style {
    Style { italic: true, ..s }
}

/// The runs of the inline spans `sp` set in style `base`: strong emphasis
/// adds bold and emphasis italics to the style around them, code takes the
/// theme's code style, a link's text the link style, and an image shows as
/// `[img: ALT]` in the placeholder style.
pub open spec fn runs(sp: Seq<InlineSpanV>, theme: Theme, base: Style) -> Seq<(Seq<char>, Style)>
    decreases sp,
{
    if sp.len() == 0 {
        Seq::empty()
    } else {
        runs(sp.subrange(0, sp.len() - 1), theme, base) + run1(sp[sp.len() - 1], theme, base)
    }
}

/// The runs of one inline span set in style `base`.
pub open spec fn run1(s: InlineSpanV, theme: Theme, base: Style) -> Seq<(Seq<char>, Style)>
    decreases s,
{
    match s {
        InlineSpanV::Text(t) => seq![(t, base)],
        InlineSpanV::Strong(c) => runs(c, theme, bold(base)),
        InlineSpanV::Emphasis(c) => runs(c, theme, italic(base)),
        InlineSpanV::Code(t) => seq![(t, theme.code)],
        InlineSpanV::Link { text, .. } => runs(text, theme, theme.link),
        InlineSpanV::Image { alt, .. } => seq![
            (seq!['[', 'i', 'm', 'g', ':', ' '] + alt + seq![']'], theme.image_placeholder),
        ],
    }
}

/// Strong emphasis sets bold on the style around it and keeps its colour,
/// italics and underline; emphasis sets italics and keeps the rest likewise.
pub proof fn lemma_emphasis_keeps_style(c: Seq<InlineSpanV>, theme: Theme, base: Style)
    ensures
        runs(seq![InlineSpanV::Strong(c)], theme, base) == runs(
            c,
            theme,
            Style { fg: base.fg, bold: true, italic: base.italic, underlined: base.underlined },
        ),
        runs(seq![InlineSpanV::Emphasis(c)], theme, base) == runs(
            c,
            theme,
            Style { fg: base.fg, bold: base.bold, italic: true, underlined: base.underlined },
        ),
{
    lemma_runs_push(Seq::empty(), InlineSpanV::Strong(c), theme, base);
    lemma_runs_push(Seq::empty(), InlineSpanV::Emphasis(c), theme, base);
    assert(Seq::<InlineSpanV>::empty().push(InlineSpanV::Strong(c)) =~= seq![InlineSpanV::Strong(c)]);
    assert(Seq::<InlineSpanV>::empty().push(InlineSpanV::Emphasis(c)) =~= seq![InlineSpanV::Emphasis(c)]);
    assert(bold(base) == Style { fg: base.fg, bold: true, italic: base.italic, underlined: base.underlined });
    assert(italic(base) == Style { fg: base.fg, bold: base.bold, italic: true, underlined: base.underlined });
}

proof fn lemma_runs_push(sp: Seq<InlineSpanV>, x: InlineSpanV, theme: Theme, base: Style)
    ensures
        runs(sp.push(x), theme, base) == runs(sp, theme, base) + run1(x, theme, base),
{
    assert(sp.push(x).subrange(0, sp.len() as int) =~= sp);
}

/// The styled runs of `spans` set in style `base`.
pub fn inline_runs(spans: &Vec<InlineSpan>, theme: &Theme, base: Style) -> (r: Vec<StyledRun>)
    ensures
        runs_v(r@) == runs(spans_v(spans@), *theme, base),
    decreases spans,
{
    let mut out: Vec<StyledRun> = Vec::new();
    let mut k: usize = 0;
    proof {
        assert(spans@.take(0) =~= Seq::<InlineSpan>::empty());
        assert(runs_v(out@) =~= Seq::<(Seq<char>, Style)>::empty());
    }
    while k < spans.len()
        invariant
            k <= spans@.len(),
            runs_v(out@) == runs(spans_v(spans@.take(k as int)), *theme, base),
        decreases spans@.len() - k,
    {
        let ghost before = out@;
        proof {
            assert(spans@.take(k + 1) =~= spans@.take(k as int).push(spans@[k as int]));
            lemma_spans_v_push(spans@.take(k as int), spans@[k as int]);
            lemma_runs_push(spans_v(spans@.take(k as int)), span_v(spans@[k as int]), *theme, base);
        }
        match &spans[k] {
            InlineSpan::Text(t) => {
                out.push(StyledRun { text: t.clone(), style: base });
            },
            InlineSpan::Code(t) => {
                out.push(StyledRun { text: t.clone(), style: theme.code });
            },
            InlineSpan::Strong(children) => {
                proof {
                    assert(decreases_to!(spans => spans@));
                    assert(decreases_to!(spans@ => spans@[k as int]));
                }
                let mut sub = inline_runs(children, theme, Style { bold: true, ..base });
                out.append(&mut sub);
            },
            InlineSpan::Emphasis(children) => {
                proof {
                    assert(decreases_to!(spans => spans@));
                    assert(decreases_to!(spans@ => spans@[k as int]));
                }
                let mut sub = inline_runs(children, theme, Style { italic: true, ..base });
                out.append(&mut sub);
            },
            InlineSpan::Link { text, .. } => {
                proof {
                    assert(decreases_to!(spans => spans@));
                    assert(decreases_to!(spans@ => spans@[k as int]));
                }
                let mut sub = inline_runs(text, theme, theme.link);
                out.append(&mut sub);
            },
            InlineSpan::Image { alt, .. } => {
                let mut t = String::new();
                t.append("[img: ");
                t.append(alt.as_str());
                t.append("]");
                proof {
                    reveal_strlit("[img: ");
                    reveal_strlit("]");
                    assert("[img: "@ =~= seq!['[', 'i', 'm', 'g', ':', ' ']);
                    assert("]"@ =~= seq![']']);
                }
                out.push(StyledRun { text: t, style: theme.image_placeholder });
            },
        }
        proof {
            assert(runs_v(out@) =~= runs_v(before) + runs_v(out@.subrange(before.len() as int, out@.len() as int)));
        }
        k = k + 1;
    }
    proof {
        assert(spans@.take(spans@.len() as int) =~= spans@);
    }
    out
}

// ---------------------------------------------------------------------------
// The rows of a cell
// ---------------------------------------------------------------------------

/// The rows of a cell with blocks `bs` from block `i` on: each block in
/// order, with a blank row after a level-one heading that has a block after
/// it.
pub open spec fn rows_from(bs: Seq<Block>, i: int) -> Seq<Option<usize>>
    decreases bs.len() - i,
{
    if i < 0 || i >= bs.len() {
        Seq::empty()
    } else {
        seq![Some(i as usize)] + (if (bs[i] matches Block::Heading { level, .. } && level == 1) && i
            + 1 < bs.len() {
            seq![None::<usize>]
        } else {
            Seq::empty()
        }) + rows_from(bs, i + 1)
    }
}

/// The rows of `cell`: `Some(k)` for block `k`, `None` for a blank row.
pub fn cell_rows(cell: &Cell) -> (r: Vec<Option<usize>>)
    ensures
        r@ == rows_from(cell.blocks@, 0),
{
    let n = cell.blocks.len();
    let mut out: Vec<Option<usize>> = Vec::new();
    let mut i: usize = 0;
    while i < n
        invariant
            n == cell.blocks@.len(),
            i <= n,
            rows_from(cell.blocks@, 0) == out@ + rows_from(cell.blocks@, i as int),
        decreases n - i,
    {
        let ghost before = out@;
        out.push(Some(i));
        let h1 = match &cell.blocks[i] {
            Block::Heading { level, .. } => *level == 1,
            _ => false,
        };
        if h1 && i + 1 < n {
            out.push(None);
        }
        proof {
            let tail = if h1 && i + 1 < n {
                seq![None::<usize>]
            } else {
                Seq::empty()
            };
            assert(out@ =~= before + (seq![Some(i)] + tail));
            assert(rows_from(cell.blocks@, i as int) == seq![Some(i)] + tail + rows_from(
                cell.blocks@,
                i + 1,
            ));
            assert(before + (seq![Some(i)] + tail + rows_from(cell.blocks@, i + 1)) =~= out@
                + rows_from(cell.blocks@, i + 1));
        }
        i = i + 1;
    }
    assert(out@ + rows_from(cell.blocks@, n as int) =~= out@);
    out
}

/// The constraint of each row of a cell: a blank row is one row high, a
/// block's row at least one.
pub open spec fn row_constraints(rows: Seq<Option<usize>>) -> Seq<Constraint> {
    rows.map_values(
        |e: Option<usize>|
            if e is None {
                Constraint::Length(1)
            } else {
                Constraint::Min(1)
            },
    )
}

/// The constraint of each row of a cell, in order: a blank row (`None`) is
/// exactly one row high, a block's row at least one, so that the blocks
/// share what the blank rows leave.
pub fn constraints_of_rows(rows: &Vec<Option<usize>>) -> (cs: Vec<Constraint>)
    ensures
        cs@ == row_constraints(rows@),
        cs@.len() == rows@.len(),
        forall|j: int| 0 <= j < rows@.len() && rows@[j] is None ==> cs@[j] == Constraint::Length(1u16),
        forall|j: int| 0 <= j < rows@.len() && rows@[j] is Some ==> cs@[j] == Constraint::Min(1u16),
{
    let mut cs: Vec<Constraint> = Vec::new();
    let mut k: usize = 0;
    while k < rows.len()
        invariant
            k <= rows@.len(),
            cs@.len() == k,
            forall|j: int| 0 <= j < k && rows@[j] is None ==> cs@[j] == Constraint::Length(1u16),
            forall|j: int| 0 <= j < k && rows@[j] is Some ==> cs@[j] == Constraint::Min(1u16),
        decreases rows@.len() - k,
    {
        let c = match rows[k] {
            None => Constraint::Length(1),
            Some(_) => Constraint::Min(1),
        };
        cs.push(c);
        k = k + 1;
    }
    assert(cs@ =~= row_constraints(rows@));
    cs
}

/// The blocks named by rows `k` on of `rows`, each with the area `rects`
/// gives its row.
pub open spec fn placed(rows: Seq<Option<usize>>, rects: Seq<Rect>, k: int) -> Seq<(usize, Rect)>
    decreases rows.len() - k,
{
    if k < 0 || k >= rows.len() {
        Seq::empty()
    } else {
        (match rows[k] {
            Some(i) => seq![(i, rects[k])],
            None => Seq::empty(),
        }) + placed(rows, rects, k + 1)
    }
}

/// The blocks named by rows `k` on of `rows`, in order.
pub open spec fn named(rows: Seq<Option<usize>>, k: int) -> Seq<usize>
    decreases rows.len() - k,
{
    if k < 0 || k >= rows.len() {
        Seq::empty()
    } else {
        (match rows[k] {
            Some(i) => seq![i],
            None => Seq::empty(),
        }) + named(rows, k + 1)
    }
}

proof fn lemma_placed(rows: Seq<Option<usize>>, rects: Seq<Rect>, k: int, area: Rect)
    requires
        0 <= k <= rows.len(),
        rects.len() == rows.len(),
        forall|j: int| 0 <= j < rects.len() ==> rect_within(#[trigger] rects[j], area) && rects[j].x
            == area.x && rects[j].width == area.width,
    ensures
        placed(rows, rects, k).map_values(|p: (usize, Rect)| p.0) == named(rows, k),
        forall|j: int|
            0 <= j < placed(rows, rects, k).len() ==> {
                let r = (#[trigger] placed(rows, rects, k)[j]).1;
                rect_within(r, area) && r.x == area.x && r.width == area.width
            },
    decreases rows.len() - k,
{
    if k < rows.len() {
        lemma_placed(rows, rects, k + 1, area);
        let head = match rows[k] {
            Some(i) => seq![(i, rects[k])],
            None => Seq::<(usize, Rect)>::empty(),
        };
        let tail = placed(rows, rects, k + 1);
        assert((head + tail).map_values(|p: (usize, Rect)| p.0) =~= head.map_values(
            |p: (usize, Rect)| p.0,
        ) + tail.map_values(|p: (usize, Rect)| p.0));
        assert(head.map_values(|p: (usize, Rect)| p.0) =~= (match rows[k] {
            Some(i) => seq![i],
            None => Seq::<usize>::empty(),
        }));
        assert forall|j: int| 0 <= j < (head + tail).len() implies {
            let r = (#[trigger] (head + tail)[j]).1;
            rect_within(r, area) && r.x == area.x && r.width == area.width
        } by {
            if j < head.len() {
                assert((head + tail)[j] == head[j]);
            } else {
                assert((head + tail)[j] == tail[j - head.len()]);
            }
        }
    }
}

/// Each block named by `rows` with the area `rects` gives its row, given the
/// split of the cell's area into one area per row.
pub fn place_rows(rows: &Vec<Option<usize>>, rects: &Vec<Rect>) -> (r: Vec<(usize, Rect)>)
    requires
        rects@.len() == rows@.len(),
    ensures
        r@ == placed(rows@, rects@, 0),
{
    let mut out: Vec<(usize, Rect)> = Vec::new();
    let mut k: usize = 0;
    while k < rows.len()
        invariant
            k <= rows@.len(),
            rects@.len() == rows@.len(),
            placed(rows@, rects@, 0) == out@ + placed(rows@, rects@, k as int),
        decreases rows@.len() - k,
    {
        let ghost before = out@;
        match rows[k] {
            Some(i) => {
                out.push((i, rects[k]));
            },
            None => {},
        }
        proof {
            let head = match rows@[k as int] {
                Some(i) => seq![(i, rects@[k as int])],
                None => Seq::<(usize, Rect)>::empty(),
            };
            assert(out@ =~= before + head);
            assert(before + (head + placed(rows@, rects@, k + 1)) =~= out@ + placed(rows@, rects@, k + 1));
        }
        k = k + 1;
    }
    proof {
        assert(out@ + placed(rows@, rects@, rows@.len() as int) =~= out@);
    }
    out
}

/// Each block of `cell`, by its index, with the area it is drawn in within
/// `area`: the rows of the cell (see [`cell_rows`]) split down the area by
/// ratatui's layout solver, a blank row taking one row and each block at
/// least one. Whatever areas the solver gives, the blocks come in order,
/// each once, and each area lies within `area` and keeps its columns; an
/// empty cell or area gets none.
pub fn cell_areas(cell: &Cell, area: Rect) -> (r: Vec<(usize, Rect)>)
    ensures
        cell.blocks@.len() == 0 || area.width == 0 || area.height == 0 ==> r@.len() == 0,
        !(cell.blocks@.len() == 0 || area.width == 0 || area.height == 0) ==> r@.map_values(
            |p: (usize, Rect)| p.0,
        ) == named(rows_from(cell.blocks@, 0), 0),
        forall|j: int|
            0 <= j < r@.len() ==> {
                let a = (#[trigger] r@[j]).1;
                rect_within(a, area) && a.x == area.x && a.width == area.width
            },
{
    if cell.blocks.len() == 0 || area.width == 0 || area.height == 0 {
        return Vec::new();
    }
    let rows = cell_rows(cell);
    let cs = constraints_of_rows(&rows);
    let rects = split(area, true, &cs);
    proof {
        lemma_placed(rows@, rects@, 0, area);
    }
    place_rows(&rows, &rects)
}

// ---------------------------------------------------------------------------
// QR codes
// ---------------------------------------------------------------------------

/// Columns of light modules around a QR code, four on each side.
pub const QR_QUIET_MODULES: u16 = 8;

/// The width in modules of the QR code that `QrCode::new` of `qrcode` makes
/// of `data`, or `None` when the data does not fit in a QR code.
pub uninterp spec fn qr_code_width(data: Seq<u8>) -> Option<usize>;

/// Calls `QrCode::new` of `qrcode` and reads the new code's `width`. Its
/// source picks the smallest normal version, 1 to 40, whose capacity holds
/// the data, or fails when none does; a normal version's code is 17 plus four
/// times the version modules wide.
#[verifier::external_body]
fn qr_width(data: &[u8]) -> (r: Option<usize>)
    ensures
        r == qr_code_width(data@),
        r matches Some(w) ==> 21 <= w <= 177,
{
    match qrcode::QrCode::new(data) {
        Ok(code) => Some(code.width()),
        Err(_) => None,
    }
}

/// What keeps a QR code from being drawn.
#[derive(Debug, Clone, Copy, PartialEq, Eq, Structural)]
pub enum QrProblem {
    /// The URL is empty or only white space.
    EmptyUrl,
    /// The URL is too long for a QR code.
    CannotEncode,
    /// The cell is too small for the code.
    TooSmall,
}

/// How a QR block is drawn in its cell.
#[derive(Debug, Clone, PartialEq, Eq)]
pub enum QrPlan {
    /// Nothing: the cell is empty.
    Nothing,
    /// An error card about `problem`, showing `text`.
    Problem { problem: QrProblem, text: String },
    /// The code of `data` with its quiet zone, one module per column and two
    /// per row, in `at`; and the caption with its row.
    Code { data: String, at: Rect, caption: Option<(Rect, String)> },
}

/// The value of a [`QrPlan`].
pub enum QrPlanV {
    Nothing,
    Problem { problem: QrProblem, text: Seq<char> },
    Code { data: Seq<char>, at: Rect, caption: Option<(Rect, Seq<char>)> },
}

pub open spec fn qr_plan_v(p: QrPlan) -> QrPlanV {
    match p {
        QrPlan::Nothing => QrPlanV::Nothing,
        QrPlan::Problem { problem, text } => QrPlanV::Problem { problem, text: text@ },
        QrPlan::Code { data, at, caption } => QrPlanV::Code {
            data: data@,
            at,
            caption: match caption {
                Some((r, t)) => Some((r, t@)),
                None => None,
            },
        },
    }
}

/// The bytes of `url` with white space trimmed from both ends: the data a
/// QR code of `url` encodes.
pub open spec fn qr_data(url: Seq<char>) -> Seq<u8> {
    let b = encode_utf8(url);
    let lo = text::trim_start_pos(b, 0, b.len() as int);
    let hi = text::trim_end_pos(b, lo, b.len() as int);
    b.subrange(lo, hi)
}

/// How a QR block of `url` is drawn in `area`, when the code of its data is
/// `width` modules wide (`None` when the data does not fit in a code):
/// nothing in an empty area; an error card for a blank URL, a URL too long
/// to encode, or an area too small for the code with its quiet zone (a
/// caption row kept free when the area is two rows or more high); else the
/// code of the trimmed URL centered in the area above the caption row, and
/// the trimmed URL, truncated to the width, as caption.
pub open spec fn spec_qr_plan_for(url: Seq<char>, area: Rect, width: Option<usize>) -> QrPlanV {
    let t = qr_data(url);
    if area.width == 0 || area.height == 0 {
        QrPlanV::Nothing
    } else if t.len() == 0 {
        QrPlanV::Problem { problem: QrProblem::EmptyUrl, text: url }
    } else {
        match width {
            None => QrPlanV::Problem { problem: QrProblem::CannotEncode, text: decode_utf8(t) },
            Some(w) => {
                let cap: int = if area.height >= 2 {
                    1
                } else {
                    0
                };
                let qh = area.height - cap;
                let modules = w + QR_QUIET_MODULES;
                let mh = (modules + 1) / 2;
                if area.width < modules || qh < mh {
                    QrPlanV::Problem { problem: QrProblem::TooSmall, text: decode_utf8(t) }
                } else {
                    QrPlanV::Code {
                        data: decode_utf8(t),
                        at: Rect {
                            x: (area.x + (area.width - modules) / 2) as u16,
                            y: (area.y + (qh - mh) / 2) as u16,
                            width: modules as u16,
                            height: mh as u16,
                        },
                        caption: if cap == 0 {
                            None
                        } else {
                            Some(
                                (
                                    Rect {
                                        x: area.x,
                                        y: (area.y + area.height - 1) as u16,
                                        width: area.width,
                                        height: 1,
                                    },
                                    super::text::spec_truncate(decode_utf8(t), area.width as nat),
                                ),
                            )
                        },
                    }
                }
            },
        }
    }
}

/// How a QR block of `url` is drawn in `area`: as [`spec_qr_plan_for`] has
/// it, with the width of the code that `qrcode` makes of the trimmed URL.
pub open spec fn spec_qr_plan(url: Seq<char>, area: Rect) -> QrPlanV {
    spec_qr_plan_for(url, area, qr_code_width(qr_data(url)))
}

/// How a QR block of `url` is drawn in `area`, given the width in modules of
/// the code of its trimmed data (`None` when it does not fit in a code).
pub fn plan_qr_for(url: &str, area: Rect, width: Option<usize>) -> (p: QrPlan)
    requires
        area.x + area.width <= u16::MAX,
        area.y + area.height <= u16::MAX,
    ensures
        qr_plan_v(p) == spec_qr_plan_for(url@, area, width),
        // A cell with room always shows either a code or an error card, and
        // a code lies within the cell, above the caption row.
        (p is Nothing) == (area.width == 0 || area.height == 0),
        p matches QrPlan::Code { at, caption, .. } ==> {
            &&& area.x <= at.x && at.x + at.width <= area.x + area.width
            &&& area.y <= at.y && at.y + at.height <= area.y + area.height
            &&& (caption matches Some((r, _)) ==> r.y == area.y + area.height - 1 && at.y + at.height <= r.y)
        },
{
    if area.width == 0 || area.height == 0 {
        return QrPlan::Nothing;
    }
    let (lo, hi) = trimmed_range(url);
    if lo == hi {
        return QrPlan::Problem { problem: QrProblem::EmptyUrl, text: url.to_owned() };
    }
    let trimmed = text::str_slice(url, lo, hi);
    proof {
        encode_utf8_decode_utf8(trimmed@);
    }
    let cap: u16 = if area.height >= 2 {
        1
    } else {
        0
    };
    let qh = area.height - cap;
    match width {
        None => QrPlan::Problem { problem: QrProblem::CannotEncode, text: trimmed.to_owned() },
        Some(w) => {
            if w >= area.width as usize {
                return QrPlan::Problem { problem: QrProblem::TooSmall, text: trimmed.to_owned() };
            }
            let modules = w + QR_QUIET_MODULES as usize;
            let mh = (modules + 1) / 2;
            if (area.width as usize) < modules || (qh as usize) < mh {
                return QrPlan::Problem { problem: QrProblem::TooSmall, text: trimmed.to_owned() };
            }
            let at = Rect {
                x: area.x + (area.width - modules as u16) / 2,
                y: area.y + (qh - mh as u16) / 2,
                width: modules as u16,
                height: mh as u16,
            };
            let caption = if cap == 0 {
                None
            } else {
                Some(
                    (
                        Rect { x: area.x, y: area.y + area.height - 1, width: area.width, height: 1 },
                        super::text::truncate_to_width(trimmed, area.width as usize),
                    ),
                )
            };
            QrPlan::Code { data: trimmed.to_owned(), at, caption }
        },
    }
}

/// Where the trimmed data of `url` lies in its bytes.
fn trimmed_range(url: &str) -> (r: (usize, usize))
    ensures
        ({
            let b = encode_utf8(url@);
            &&& r.0 == text::trim_start_pos(b, 0, b.len() as int)
            &&& r.1 == text::trim_end_pos(b, r.0 as int, b.len() as int)
            &&& r.0 <= r.1 <= b.len()
            &&& text::boundary(b, r.0 as int)
            &&& text::boundary(b, r.1 as int)
            &&& url.spec_bytes() == b
        }),
{
    let bytes = url.as_bytes();
    let ghost b = bytes@;
    let n = bytes.len();
    proof {
        encode_utf8_valid_utf8(url@);
        super::super::parser::prepass::lemma_trim_start_boundary(b, 0, n as int);
    }
    let lo = text::trim_start_at(bytes, 0, n);
    proof {
        super::super::parser::prepass::lemma_trim_end_boundary(b, lo as int, n as int);
    }
    let hi = text::trim_end_at(bytes, lo, n);
    (lo, hi)
}

/// How a QR block of `url` is drawn in `area`.
pub fn plan_qr(url: &str, area: Rect) -> (p: QrPlan)
    requires
        area.x + area.width <= u16::MAX,
        area.y + area.height <= u16::MAX,
    ensures
        qr_plan_v(p) == spec_qr_plan(url@, area),
        (p is Nothing) == (area.width == 0 || area.height == 0),
        p matches QrPlan::Code { at, caption, .. } ==> {
            &&& area.x <= at.x && at.x + at.width <= area.x + area.width
            &&& area.y <= at.y && at.y + at.height <= area.y + area.height
            &&& (caption matches Some((r, _)) ==> r.y == area.y + area.height - 1 && at.y + at.height <= r.y)
        },
{
    let (lo, hi) = trimmed_range(url);
    let width = if area.width == 0 || area.height == 0 || lo == hi {
        None
    } else {
        let trimmed = text::str_slice(url, lo, hi);
        proof {
            encode_utf8_decode_utf8(trimmed@);
        }
        qr_width(trimmed.as_bytes())
    };
    plan_qr_for(url, area, width)
}

} // verus!
