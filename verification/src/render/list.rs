//! Where the rows of a list go: each item's marker and the lines of its
//! paragraphs and headings, nested lists indented below their item.

use crate::layout::Rect;
use crate::parser::ast::{Block, InlineSpan, ListItem};
use crate::parser::text::push_char;
use crate::render::text::{decimal, decimal_chars};
use vstd::prelude::*;
use vstd::string::StringExecFns;

verus! {

/// One thing a list draws on one row.
#[derive(Debug)]
pub enum ListDraw<'a> {
    /// An item's marker, in the marker style.
    Marker { at: Rect, text: String },
    /// The inline text of a paragraph or heading of an item, in prose style.
    Line { at: Rect, spans: &'a Vec<InlineSpan> },
}

/// The value of a [`ListDraw`].
pub enum ListDrawV {
    Marker { at: Rect, text: Seq<char> },
    Line { at: Rect, spans: Seq<InlineSpan> },
}

pub open spec fn draw_v(d: ListDraw) -> ListDrawV {
    match d {
        ListDraw::Marker { at, text } => ListDrawV::Marker { at, text: text@ },
        ListDraw::Line { at, spans } => ListDrawV::Line { at, spans: spans@ },
    }
}

pub open spec fn draws_v(ds: Seq<ListDraw>) -> Seq<ListDrawV> {
    ds.map_values(|d: ListDraw| draw_v(d))
}

/// `x`, or the largest `u16` when it is larger.
pub open spec fn sat(x: int) -> int {
    if x > u16::MAX {
        u16::MAX as int
    } else {
        x
    }
}

/// The marker of item `idx` (counted from zero): `N. ` in an ordered list,
/// a bullet and a space otherwise.
pub open spec fn marker_text(ordered: bool, idx: nat) -> Seq<char> {
    if ordered {
        decimal_chars(idx + 1) + seq!['.', ' ']
    } else {
        seq!['•', ' ']
    }
}

/// The columns a list nested `depth` deep is indented: two per level.
pub open spec fn indent(depth: int) -> int {
    sat(2 * depth)
}

/// What a paragraph or heading with inline spans `spans` draws on row `y`
/// of `area`, in an item with marker `marker` at nesting `depth`: the marker
/// when it is the item's first block, and the text right of the marker;
/// nothing when the marker leaves no room.
pub open spec fn line_draws(
    spans: Seq<InlineSpan>,
    first: bool,
    marker: Seq<char>,
    depth: int,
    area: Rect,
    y: int,
) -> Seq<ListDrawV> {
    let prefix = sat(indent(depth) + marker.len());
    if prefix >= area.width {
        Seq::empty()
    } else {
        (if first {
            seq![
                ListDrawV::Marker {
                    at: Rect {
                        x: (area.x + indent(depth)) as u16,
                        y: (area.y + y) as u16,
                        width: marker.len() as u16,
                        height: 1,
                    },
                    text: marker,
                },
            ]
        } else {
            Seq::empty()
        }) + seq![
            ListDrawV::Line {
                at: Rect {
                    x: (area.x + prefix) as u16,
                    y: (area.y + y) as u16,
                    width: (area.width - prefix) as u16,
                    height: 1,
                },
                spans,
            },
        ]
    }
}

/// What a list draws in `area`, and how many rows it takes: nothing in an
/// empty area or for no item; else its items from the top.
pub open spec fn list_draws(ordered: bool, items: Seq<ListItem>, depth: int, area: Rect) -> (
    Seq<ListDrawV>,
    int,
)
    decreases items, items.len() + 1,
{
    if items.len() == 0 || area.width == 0 || area.height == 0 {
        (Seq::empty(), 0)
    } else {
        items_from(ordered, items, 0, depth, area, 0)
    }
}

/// What items `i` on draw from row `y` on, and the row after them: they stop
/// at the bottom of the area.
pub open spec fn items_from(ordered: bool, items: Seq<ListItem>, i: int, depth: int, area: Rect, y: int) -> (
    Seq<ListDrawV>,
    int,
)
    decreases items, items.len() - i,
{
    if i < 0 || i >= items.len() || y >= area.height {
        (Seq::empty(), y)
    } else {
        let (d1, y1) = blocks_from(items[i].blocks@, 0, marker_text(ordered, i as nat), depth, area, y);
        let (d2, y2) = items_from(ordered, items, i + 1, depth, area, y1);
        (d1 + d2, y2)
    }
}

/// What block `b` of an item with marker `marker` draws on row `y` on, and
/// the row after it: a nested list one level deeper below, a paragraph or
/// heading one line, any other block one blank row.
pub open spec fn block_step(b: Block, first: bool, marker: Seq<char>, depth: int, area: Rect, y: int) -> (
    Seq<ListDrawV>,
    int,
)
    decreases b, 0int,
{
    match b {
        Block::List { ordered, items, .. } => {
            let (d, used) = list_draws(
                ordered,
                items@,
                sat(depth + 1),
                Rect { x: area.x, y: (area.y + y) as u16, width: area.width, height: (area.height - y) as u16 },
            );
            (d, sat(y + used))
        },
        Block::Paragraph { spans, .. } => (line_draws(spans@, first, marker, depth, area, y), sat(y + 1)),
        Block::Heading { spans, .. } => (line_draws(spans@, first, marker, depth, area, y), sat(y + 1)),
        _ => (Seq::empty(), sat(y + 1)),
    }
}

/// What blocks `j` on of an item with marker `marker` draw from row `y` on,
/// and the row after them; they stop at the bottom of the area.
pub open spec fn blocks_from(bs: Seq<Block>, j: int, marker: Seq<char>, depth: int, area: Rect, y: int) -> (
    Seq<ListDrawV>,
    int,
)
    decreases bs, bs.len() - j,
{
    if j < 0 || j >= bs.len() || y >= area.height {
        (Seq::empty(), y)
    } else {
        let (d1, y1) = block_step(bs[j], j == 0, marker, depth, area, y);
        let (d2, y2) = blocks_from(bs, j + 1, marker, depth, area, y1);
        (d1 + d2, y2)
    }
}

/// `10` to the power `k`.
pub open spec fn pow10(k: nat) -> nat
    decreases k,
{
    if k == 0 {
        1
    } else {
        10 * pow10((k - 1) as nat)
    }
}

proof fn lemma_decimal_len(n: nat, k: nat)
    requires
        1 <= k,
        n < pow10(k),
    ensures
        1 <= decimal_chars(n).len() <= k,
    decreases n,
{
    if n >= 10 {
        assert(n / 10 < pow10((k - 1) as nat)) by (nonlinear_arith)
            requires
                n < pow10(k),
                pow10(k) == 10 * pow10((k - 1) as nat),
        ;
        if k == 1 {
            assert(pow10(1) == 10) by {
                reveal_with_fuel(pow10, 2);
            }
        } else {
            lemma_decimal_len(n / 10, (k - 1) as nat);
        }
    }
}

proof fn lemma_pow10_20()
    ensures
        pow10(20) == 100_000_000_000_000_000_000nat,
{
    reveal_with_fuel(pow10, 21);
}

/// The area that draw `d` covers.
pub open spec fn draw_at(d: ListDrawV) -> Rect {
    match d {
        ListDrawV::Marker { at, .. } => at,
        ListDrawV::Line { at, .. } => at,
    }
}

/// `r` lies within `area`.
pub open spec fn within(r: Rect, area: Rect) -> bool {
    &&& area.x <= r.x
    &&& r.x + r.width <= area.x + area.width
    &&& area.y <= r.y
    &&& r.y + r.height <= area.y + area.height
}

/// Every draw of `ds` lies within `area`.
pub open spec fn all_within(ds: Seq<ListDrawV>, area: Rect) -> bool {
    forall|k: int| 0 <= k < ds.len() ==> within(#[trigger] draw_at(ds[k]), area)
}

/// `area` ends within the terminal's coordinates.
pub open spec fn fits(area: Rect) -> bool {
    area.x + area.width <= u16::MAX && area.y + area.height <= u16::MAX
}

proof fn lemma_all_within_concat(a: Seq<ListDrawV>, b: Seq<ListDrawV>, area: Rect)
    requires
        all_within(a, area),
        all_within(b, area),
    ensures
        all_within(a + b, area),
{
    assert forall|k: int| 0 <= k < (a + b).len() implies within(#[trigger] draw_at((a + b)[k]), area) by {
        if k < a.len() {
            assert((a + b)[k] == a[k]);
        } else {
            assert((a + b)[k] == b[k - a.len()]);
        }
    }
}

proof fn lemma_line_within(spans: Seq<InlineSpan>, first: bool, marker: Seq<char>, depth: int, area: Rect, y: int)
    requires
        fits(area),
        0 <= depth,
        0 <= y < area.height,
        marker.len() <= u16::MAX,
    ensures
        all_within(line_draws(spans, first, marker, depth, area, y), area),
{
    let ds = line_draws(spans, first, marker, depth, area, y);
    assert forall|k: int| 0 <= k < ds.len() implies within(#[trigger] draw_at(ds[k]), area) by {}
}

/// Everything a list draws in `area` lies within it, and the list takes no
/// more rows than the area has.
pub proof fn lemma_list_draws_within(ordered: bool, items: Seq<ListItem>, depth: int, area: Rect)
    requires
        fits(area),
        0 <= depth,
        items.len() <= usize::MAX,
    ensures
        all_within(list_draws(ordered, items, depth, area).0, area),
        0 <= list_draws(ordered, items, depth, area).1 <= area.height,
    decreases items, items.len() + 1,
{
    if !(items.len() == 0 || area.width == 0 || area.height == 0) {
        lemma_items_within(ordered, items, 0, depth, area, 0);
    }
}

proof fn lemma_items_within(ordered: bool, items: Seq<ListItem>, i: int, depth: int, area: Rect, y: int)
    requires
        fits(area),
        0 <= depth,
        0 <= i,
        0 <= y <= area.height,
        items.len() <= usize::MAX,
    ensures
        all_within(items_from(ordered, items, i, depth, area, y).0, area),
        y <= items_from(ordered, items, i, depth, area, y).1 <= area.height,
    decreases items, items.len() - i,
{
    if !(i >= items.len() || y >= area.height) {
        let m = marker_text(ordered, i as nat);
        lemma_pow10_20();
        lemma_decimal_len(i as nat + 1, 20);
        assert(decreases_to!(items => items[i]));
        assert(decreases_to!(items[i] => items[i].blocks));
        assert(decreases_to!(items[i].blocks => items[i].blocks@));
        lemma_blocks_within(items[i].blocks@, 0, m, depth, area, y);
        let (d1, y1) = blocks_from(items[i].blocks@, 0, m, depth, area, y);
        lemma_items_within(ordered, items, i + 1, depth, area, y1);
        let (d2, y2) = items_from(ordered, items, i + 1, depth, area, y1);
        lemma_all_within_concat(d1, d2, area);
    }
}

proof fn lemma_blocks_within(bs: Seq<Block>, j: int, marker: Seq<char>, depth: int, area: Rect, y: int)
    requires
        fits(area),
        0 <= depth,
        0 <= j,
        0 <= y <= area.height,
        marker.len() <= u16::MAX,
    ensures
        all_within(blocks_from(bs, j, marker, depth, area, y).0, area),
        y <= blocks_from(bs, j, marker, depth, area, y).1 <= area.height,
    decreases bs, bs.len() - j,
{
    if !(j >= bs.len() || y >= area.height) {
        assert(decreases_to!(bs => bs[j]));
        lemma_step_within(bs[j], j == 0, marker, depth, area, y);
        let (d1, y1) = block_step(bs[j], j == 0, marker, depth, area, y);
        lemma_blocks_within(bs, j + 1, marker, depth, area, y1);
        let (d2, y2) = blocks_from(bs, j + 1, marker, depth, area, y1);
        lemma_all_within_concat(d1, d2, area);
    }
}

proof fn lemma_step_within(b: Block, first: bool, marker: Seq<char>, depth: int, area: Rect, y: int)
    requires
        fits(area),
        0 <= depth,
        0 <= y < area.height,
        marker.len() <= u16::MAX,
    ensures
        all_within(block_step(b, first, marker, depth, area, y).0, area),
        y <= block_step(b, first, marker, depth, area, y).1 <= area.height,
    decreases b, 0int,
{
    match b {
        Block::List { ordered, items, .. } => {
            let nested = Rect {
                x: area.x,
                y: (area.y + y) as u16,
                width: area.width,
                height: (area.height - y) as u16,
            };
            assert(items.len() == items@.len());
            lemma_list_draws_within(ordered, items@, sat(depth + 1), nested);
            let (d, used) = list_draws(ordered, items@, sat(depth + 1), nested);
            assert forall|k: int| 0 <= k < d.len() implies within(#[trigger] draw_at(d[k]), area) by {
                assert(within(draw_at(d[k]), nested));
            }
        },
        Block::Paragraph { spans, .. } => {
            lemma_line_within(spans@, first, marker, depth, area, y);
        },
        Block::Heading { spans, .. } => {
            lemma_line_within(spans@, first, marker, depth, area, y);
        },
        _ => {},
    }
}

fn marker_string(ordered: bool, idx: usize) -> (s: String)
    requires
        idx < usize::MAX,
    ensures
        s@ == marker_text(ordered, idx as nat),
        s@.len() <= 22,
{
    proof {
        lemma_pow10_20();
        lemma_decimal_len(idx as nat + 1, 20);
    }
    if ordered {
        let mut s = decimal(idx + 1);
        s.append(". ");
        proof {
            reveal_strlit(". ");
        }
        s
    } else {
        let mut s = String::new();
        push_char(&mut s, '•');
        push_char(&mut s, ' ');
        proof {
            assert(s@ =~= seq!['•', ' ']);
        }
        s
    }
}

fn line_draws_exec<'a>(
    spans: &'a Vec<InlineSpan>,
    first: bool,
    marker: &String,
    depth: u16,
    area: Rect,
    y: u16,
    out: &mut Vec<ListDraw<'a>>,
)
    requires
        area.x + area.width <= u16::MAX,
        area.y + area.height <= u16::MAX,
        y < area.height,
        marker@.len() <= u16::MAX,
    ensures
        draws_v(final(out)@) == draws_v(old(out)@) + line_draws(spans@, first, marker@, depth as int, area, y as int),
{
    let ind: u16 = if depth > 32767 {
        u16::MAX
    } else {
        depth * 2
    };
    let mw = marker.unicode_len() as u16;
    let prefix = ind.saturating_add(mw);
    let ghost before = out@;
    if prefix >= area.width {
        proof {
            assert(draws_v(out@) =~= draws_v(before) + Seq::<ListDrawV>::empty());
        }
        return;
    }
    let row = area.y + y;
    if first {
        out.push(ListDraw::Marker { at: Rect { x: area.x + ind, y: row, width: mw, height: 1 }, text: marker.clone() });
    }
    out.push(ListDraw::Line { at: Rect { x: area.x + prefix, y: row, width: area.width - prefix, height: 1 }, spans });
    proof {
        assert(draws_v(out@) =~= draws_v(before) + line_draws(spans@, first, marker@, depth as int, area, y as int));
    }
}

/// What a list with items `items`, ordered or not and nested `depth` deep,
/// draws in `area`, and how many rows it takes.
pub fn list_layout<'a>(ordered: bool, items: &'a Vec<ListItem>, depth: u16, area: Rect) -> (r: (
    Vec<ListDraw<'a>>,
    u16,
))
    requires
        area.x + area.width <= u16::MAX,
        area.y + area.height <= u16::MAX,
    ensures
        (draws_v(r.0@), r.1 as int) == list_draws(ordered, items@, depth as int, area),
        // What a list draws stays within its area.
        all_within(draws_v(r.0@), area),
        r.1 <= area.height,
    decreases items@, items@.len() + 1,
{
    proof {
        assert(items.len() == items@.len());
        lemma_list_draws_within(ordered, items@, depth as int, area);
    }
    let mut out: Vec<ListDraw<'a>> = Vec::new();
    if items.len() == 0 || area.width == 0 || area.height == 0 {
        proof {
            assert(draws_v(out@) =~= Seq::<ListDrawV>::empty());
        }
        return (out, 0);
    }
    let n = items.len();
    let mut i: usize = 0;
    let mut y: u16 = 0;
    proof {
        assert(draws_v(out@) =~= Seq::<ListDrawV>::empty());
    }
    while i < n && y < area.height
        invariant
            n == items@.len(),
            0 < n,
            area.width > 0,
            area.height > 0,
            area.x + area.width <= u16::MAX,
            area.y + area.height <= u16::MAX,
            i <= n,
            (draws_v(out@) + items_from(ordered, items@, i as int, depth as int, area, y as int).0,
             items_from(ordered, items@, i as int, depth as int, area, y as int).1)
                == list_draws(ordered, items@, depth as int, area),
        decreases n - i,
    {
        let marker = marker_string(ordered, i);
        proof {
            assert(decreases_to!(items@ => items@[i as int]));
            assert(decreases_to!(items@[i as int] => items@[i as int].blocks));
            assert(decreases_to!(items@[i as int].blocks => items@[i as int].blocks@));
        }
        let item = &items[i];
        let ghost y0 = y as int;
        let ghost mid = draws_v(out@);
        let y1 = blocks_layout(&item.blocks, &marker, depth, area, y, &mut out);
        proof {
            let (d1, e1) = blocks_from(items@[i as int].blocks@, 0, marker@, depth as int, area, y0);
            let (d2, e2) = items_from(ordered, items@, i + 1, depth as int, area, e1);
            assert(items_from(ordered, items@, i as int, depth as int, area, y0) == (d1 + d2, e2));
            assert(draws_v(out@) == mid + d1);
            assert(mid + (d1 + d2) =~= (mid + d1) + d2);
        }
        y = y1;
        i = i + 1;
    }
    proof {
        assert(draws_v(out@) + Seq::<ListDrawV>::empty() =~= draws_v(out@));
    }
    (out, y)
}

/// Lays out the blocks of one item from row `y` on, adding what they draw
/// to `out`, and answers the row after them.
fn blocks_layout<'a>(
    bs: &'a Vec<Block>,
    marker: &String,
    depth: u16,
    area: Rect,
    y0: u16,
    out: &mut Vec<ListDraw<'a>>,
) -> (r: u16)
    requires
        area.x + area.width <= u16::MAX,
        area.y + area.height <= u16::MAX,
        area.width > 0,
        marker@.len() <= u16::MAX,
    ensures
        draws_v(final(out)@) == draws_v(old(out)@) + blocks_from(bs@, 0, marker@, depth as int, area, y0 as int).0,
        r as int == blocks_from(bs@, 0, marker@, depth as int, area, y0 as int).1,
    decreases bs@, bs@.len(),
{
    let n = bs.len();
    let mut j: usize = 0;
    let mut y: u16 = y0;
    let ghost start = draws_v(out@);
    while j < n && y < area.height
        invariant
            n == bs@.len(),
            area.x + area.width <= u16::MAX,
            area.y + area.height <= u16::MAX,
            area.width > 0,
            marker@.len() <= u16::MAX,
            j <= n,
            start + blocks_from(bs@, 0, marker@, depth as int, area, y0 as int).0
                == draws_v(out@) + blocks_from(bs@, j as int, marker@, depth as int, area, y as int).0,
            blocks_from(bs@, j as int, marker@, depth as int, area, y as int).1
                == blocks_from(bs@, 0, marker@, depth as int, area, y0 as int).1,
        decreases n - j,
    {
        let ghost mid = draws_v(out@);
        let ghost yj = y as int;
        let y1: u16 = match &bs[j] {
            Block::List { ordered, items, .. } => {
                proof {
                    assert(decreases_to!(bs@ => bs@[j as int]));
                }
                let nested = Rect { x: area.x, y: area.y + y, width: area.width, height: area.height - y };
                let (mut d, used) = list_layout(*ordered, items, depth.saturating_add(1), nested);
                let ghost dv = draws_v(d@);
                out.append(&mut d);
                proof {
                    assert(draws_v(out@) =~= mid + dv);
                }
                y.saturating_add(used)
            },
            Block::Paragraph { spans, .. } => {
                line_draws_exec(spans, j == 0, marker, depth, area, y, out);
                y.saturating_add(1)
            },
            Block::Heading { spans, .. } => {
                line_draws_exec(spans, j == 0, marker, depth, area, y, out);
                y.saturating_add(1)
            },
            _ => {
                proof {
                    assert(draws_v(out@) =~= mid + Seq::<ListDrawV>::empty());
                }
                y.saturating_add(1)
            },
        };
        proof {
            let (d1, e1) = block_step(bs@[j as int], j == 0, marker@, depth as int, area, yj);
            let (d2, e2) = blocks_from(bs@, j + 1, marker@, depth as int, area, e1);
            assert(draws_v(out@) == mid + d1);
            assert(y1 == e1);
            assert(blocks_from(bs@, j as int, marker@, depth as int, area, yj) == (d1 + d2, e2));
            assert(mid + (d1 + d2) =~= draws_v(out@) + d2);
        }
        y = y1;
        j = j + 1;
    }
    proof {
        assert(draws_v(out@) + Seq::<ListDrawV>::empty() =~= draws_v(out@));
    }
    y
}

} // verus!
