//! The grid that a slide's cells are laid out on: how many cells share each
//! row, how two cells share a row by the weight of their content, and when a
//! narrow area stacks them instead.

use crate::parser::ast::{Block, Cell, Slide};
use vstd::prelude::*;

verus! {

/// Minimum width for any column in a multi-cell layout. When a proposed
/// column would be narrower than this, the whole slide falls back to a
/// vertical stack.
pub const MIN_COL_WIDTH: u16 = 40;

/// A rectangle of terminal cells.
#[derive(Debug, Clone, Copy, PartialEq, Eq, Structural)]
pub struct Rect {
    pub x: u16,
    pub y: u16,
    pub width: u16,
    pub height: u16,
}

impl Rect {
    /// The rectangle at column `x`, row `y`, `width` cells wide and `height`
    /// rows high.
    pub fn new(x: u16, y: u16, width: u16, height: u16) -> (r: Rect)
        ensures
            r == (Rect { x, y, width, height }),
    {
        Rect { x, y, width, height }
    }
}

/// What a cell mostly holds, which decides its share of a two-cell row.
#[derive(Debug, Clone, Copy, PartialEq, Eq, Structural)]
pub enum CellType {
    Image,
    Qr,
    Code,
    List,
    Prose,
    Heading,
    Empty,
}

impl CellType {
    pub open spec fn spec_rank(self) -> u8 {
        match self {
            CellType::Image | CellType::Qr => 5,
            CellType::Code => 4,
            CellType::List | CellType::Prose | CellType::Heading => 3,
            CellType::Empty => 0,
        }
    }

    /// The weight of a cell type: media outweighs code, code outweighs text,
    /// and an empty cell weighs nothing.
    pub fn rank(self) -> (r: u8)
        ensures
            r == self.spec_rank(),
            (self is Image || self is Qr) ==> r == 5,
            self is Code ==> r == 4,
            (self is List || self is Prose || self is Heading) ==> r == 3,
            self is Empty ==> r == 0,
    {
        match self {
            CellType::Image | CellType::Qr => 5,
            CellType::Code => 4,
            CellType::List | CellType::Prose | CellType::Heading => 3,
            CellType::Empty => 0,
        }
    }
}

/// The type of the first image or QR block at or after `i`, if any.
pub open spec fn first_media(bs: Seq<Block>, i: int) -> Option<CellType>
    decreases bs.len() - i,
{
    if i < 0 || i >= bs.len() {
        None
    } else {
        match bs[i] {
            Block::Image { .. } => Some(CellType::Image),
            Block::Qr { .. } => Some(CellType::Qr),
            _ => first_media(bs, i + 1),
        }
    }
}

/// The type of a cell with blocks `bs`: the first image or QR block decides;
/// without one, code wins over a list, a list over prose, prose over a
/// heading.
pub open spec fn spec_cell_type(bs: Seq<Block>) -> CellType {
    match first_media(bs, 0) {
        Some(t) => t,
        None => if exists|i: int| 0 <= i < bs.len() && bs[i] is CodeBlock {
            CellType::Code
        } else if exists|i: int| 0 <= i < bs.len() && bs[i] is List {
            CellType::List
        } else if exists|i: int| 0 <= i < bs.len() && bs[i] is Paragraph {
            CellType::Prose
        } else if exists|i: int| 0 <= i < bs.len() && bs[i] is Heading {
            CellType::Heading
        } else {
            CellType::Empty
        },
    }
}

/// The type of `cell`.
pub fn cell_type(cell: &Cell) -> (t: CellType)
    ensures
        t == spec_cell_type(cell.blocks@),
{
    let ghost bs = cell.blocks@;
    let n = cell.blocks.len();
    let mut has_code = false;
    let mut has_list = false;
    let mut has_prose = false;
    let mut has_heading = false;
    let mut i: usize = 0;
    while i < n
        invariant
            bs == cell.blocks@,
            n == bs.len(),
            i <= n,
            first_media(bs, 0) == first_media(bs, i as int),
            has_code == exists|k: int| 0 <= k < i && bs[k] is CodeBlock,
            has_list == exists|k: int| 0 <= k < i && bs[k] is List,
            has_prose == exists|k: int| 0 <= k < i && bs[k] is Paragraph,
            has_heading == exists|k: int| 0 <= k < i && bs[k] is Heading,
        decreases n - i,
    {
        match &cell.blocks[i] {
            Block::Image { .. } => {
                return CellType::Image;
            },
            Block::Qr { .. } => {
                return CellType::Qr;
            },
            Block::CodeBlock { .. } => {
                has_code = true;
            },
            Block::List { .. } => {
                has_list = true;
            },
            Block::Paragraph { .. } => {
                has_prose = true;
            },
            Block::Heading { .. } => {
                has_heading = true;
            },
        }
        i = i + 1;
    }
    if has_code {
        CellType::Code
    } else if has_list {
        CellType::List
    } else if has_prose {
        CellType::Prose
    } else if has_heading {
        CellType::Heading
    } else {
        CellType::Empty
    }
}

/// The number of cells on each row of a grid of `n` cells: rows of three,
/// with a last row of two, or two rows of two in place of a last row of one.
pub open spec fn spec_rows(n: nat) -> Seq<usize> {
    if n == 0 {
        Seq::empty()
    } else if n == 1 {
        seq![1usize]
    } else if n % 3 == 0 {
        Seq::new(n / 3, |k: int| 3usize)
    } else if n % 3 == 2 {
        Seq::new(n / 3, |k: int| 3usize).push(2)
    } else {
        Seq::new((n / 3 - 1) as nat, |k: int| 3usize).push(2).push(2)
    }
}

/// The sum of a sequence of row sizes.
pub open spec fn seq_sum(s: Seq<usize>) -> int
    decreases s.len(),
{
    if s.len() == 0 {
        0
    } else {
        seq_sum(s.drop_last()) + s.last()
    }
}

proof fn lemma_sum_threes(k: nat)
    ensures
        seq_sum(Seq::new(k, |j: int| 3usize)) == 3 * k,
    decreases k,
{
    if k > 0 {
        assert(Seq::new(k, |j: int| 3usize).drop_last() =~= Seq::new((k - 1) as nat, |j: int| 3usize));
        lemma_sum_threes((k - 1) as nat);
    }
}

/// Every cell of a grid gets exactly one place: the rows of `spec_rows(n)`
/// add up to `n`, no row holds more than three cells, and no row of a grid
/// of two or more cells is left with a single cell.
pub proof fn lemma_rows_place_every_cell(n: nat)
    ensures
        seq_sum(spec_rows(n)) == n,
        forall|k: int| 0 <= k < spec_rows(n).len() ==> 1 <= #[trigger] spec_rows(n)[k] <= 3,
        n >= 2 ==> forall|k: int| 0 <= k < spec_rows(n).len() ==> #[trigger] spec_rows(n)[k] >= 2,
{
    let q = n / 3;
    if n == 1 {
        assert(seq![1usize].drop_last() =~= Seq::<usize>::empty());
        assert(seq_sum(Seq::<usize>::empty()) == 0);
        assert(seq_sum(seq![1usize]) == 1);
    } else if n >= 2 && n % 3 == 0 {
        lemma_sum_threes(q);
        assert(seq_sum(spec_rows(n)) == n);
    } else if n >= 2 && n % 3 == 2 {
        let t = Seq::new(q, |k: int| 3usize);
        lemma_sum_threes(q);
        assert(t.push(2).drop_last() =~= t);
        assert(seq_sum(t.push(2)) == seq_sum(t) + 2);
        assert(seq_sum(spec_rows(n)) == n);
    } else if n >= 2 {
        let t = Seq::new((q - 1) as nat, |k: int| 3usize);
        lemma_sum_threes((q - 1) as nat);
        assert(t.push(2).push(2).drop_last() =~= t.push(2));
        assert(t.push(2).drop_last() =~= t);
        assert(seq_sum(t.push(2)) == seq_sum(t) + 2);
        assert(seq_sum(t.push(2).push(2)) == seq_sum(t) + 4);
        assert(seq_sum(spec_rows(n)) == n);
    }
}

/// The number of cells on each row of a grid of `n` cells.
pub fn row_distribution(n: usize) -> (rows: Vec<usize>)
    ensures
        rows@ == spec_rows(n as nat),
{
    if n == 0 {
        return Vec::new();
    } else if n == 1 {
        return vec![1];
    } else if n == 2 {
        return vec![2];
    } else if n == 3 {
        return vec![3];
    } else if n == 4 {
        let rows = vec![2, 2];
        assert(rows@ =~= spec_rows(4));
        return rows;
    }
    let mut rows: Vec<usize> = Vec::new();
    let mut remaining = n;
    while remaining >= 3
        invariant
            remaining <= n,
            (n - remaining) % 3 == 0,
            rows@ =~= Seq::new(((n - remaining) / 3) as nat, |k: int| 3usize),
        decreases remaining,
    {
        rows.push(3);
        remaining = remaining - 3;
    }
    if remaining > 0 {
        rows.push(remaining);
    }
    let last = rows.len() - 1;
    if rows[last] == 1 {
        rows.set(last, 2);
        rows.set(last - 1, 2);
    }
    proof {
        let q = (n / 3) as nat;
        if n % 3 == 1 {
            assert(rows@ =~= Seq::new((q - 1) as nat, |k: int| 3usize).push(2).push(2));
        } else if n % 3 == 2 {
            assert(rows@ =~= Seq::new(q, |k: int| 3usize).push(2));
        } else {
            assert(rows@ =~= Seq::new(q, |k: int| 3usize));
        }
    }
    rows
}

/// A rule for the size of one part of a split area.
#[derive(Debug, Clone, Copy, PartialEq, Eq, Structural)]
pub enum Constraint {
    /// This fraction (numerator, denominator) of the area.
    Ratio(u32, u32),
    /// At least this many cells.
    Min(u16),
    /// Exactly this many cells.
    Length(u16),
}

/// `r` lies within `area`.
pub open spec fn rect_within(r: Rect, area: Rect) -> bool {
    &&& area.x <= r.x
    &&& r.x + r.width <= area.x + area.width
    &&& area.y <= r.y
    &&& r.y + r.height <= area.y + area.height
}

/// Splits `area` by ratatui's `Layout::split`, one ratatui `Constraint` per
/// entry of `cs`, down the area when `vertical`, across it otherwise. The
/// solver picks its pivots in the order of hash maps that each process seeds
/// afresh, so which areas come out is not stated; what holds of every outcome
/// is. The solver gives one area per constraint; each area keeps the columns
/// of `area` in a vertical split and its rows in a horizontal one
/// (`changes_to_rects` copies them; the default margin is zero); and each
/// lies within `area`, since the solver is required to keep every split
/// point inside the area and the points are rounded to whole cells. The
/// order of the areas is left unsaid: the gaps between them are held at zero
/// by a constraint that the solver may give up, not by a required one.
#[verifier::external_body]
pub(crate) fn split(area: Rect, vertical: bool, cs: &Vec<Constraint>) -> (r: Vec<Rect>)
    requires
        forall|k: int| 0 <= k < cs@.len() ==> (#[trigger] cs@[k] matches Constraint::Ratio(_, d) ==> d > 0),
    ensures
        r@.len() == cs@.len(),
        forall|k: int| 0 <= k < r@.len() ==> rect_within(#[trigger] r@[k], area),
        forall|k: int| 0 <= k < r@.len() ==> {
            if vertical {
                #[trigger] r@[k].x == area.x && r@[k].width == area.width
            } else {
                r@[k].y == area.y && r@[k].height == area.height
            }
        },
{
    let cs = cs.iter().map(|c| match *c {
        Constraint::Ratio(a, b) => ratatui::layout::Constraint::Ratio(a, b),
        Constraint::Min(n) => ratatui::layout::Constraint::Min(n),
        Constraint::Length(n) => ratatui::layout::Constraint::Length(n),
    });
    let l = if vertical { ratatui::layout::Layout::vertical(cs) } else { ratatui::layout::Layout::horizontal(cs) };
    let a = ratatui::layout::Rect { x: area.x, y: area.y, width: area.width, height: area.height };
    l.split(a).iter().map(|r| Rect { x: r.x, y: r.y, width: r.width, height: r.height }).collect()
}

/// `n` equal shares.
pub open spec fn equal_ratios(n: nat) -> Seq<Constraint> {
    Seq::new(n, |k: int| Constraint::Ratio(1u32, n as u32))
}

/// The shares of a row of two cells: equal when they weigh the same, three
/// fifths to the heavier one otherwise.
pub open spec fn two_cell_ratios(left: CellType, right: CellType) -> Seq<Constraint> {
    if left.spec_rank() == right.spec_rank() {
        seq![Constraint::Ratio(1u32, 2u32), Constraint::Ratio(1u32, 2u32)]
    } else if left.spec_rank() > right.spec_rank() {
        seq![Constraint::Ratio(3u32, 5u32), Constraint::Ratio(2u32, 5u32)]
    } else {
        seq![Constraint::Ratio(2u32, 5u32), Constraint::Ratio(3u32, 5u32)]
    }
}

/// Cell weights: an image weighs as much as a QR code, and more than code;
/// code weighs more than a list; a list, prose and a heading weigh the same,
/// and more than an empty cell, which weighs nothing.
pub proof fn lemma_rank_order()
    ensures
        CellType::Image.spec_rank() == CellType::Qr.spec_rank(),
        CellType::Qr.spec_rank() > CellType::Code.spec_rank(),
        CellType::Code.spec_rank() > CellType::List.spec_rank(),
        CellType::List.spec_rank() == CellType::Prose.spec_rank(),
        CellType::Prose.spec_rank() == CellType::Heading.spec_rank(),
        CellType::Heading.spec_rank() > CellType::Empty.spec_rank(),
        CellType::Image.spec_rank() == 5 && CellType::Code.spec_rank() == 4,
        CellType::List.spec_rank() == 3 && CellType::Empty.spec_rank() == 0,
{
}

/// Of two cells side by side, one of a heavier kind takes three fifths of
/// the row and the other two fifths (an image or QR code over code, code
/// over a list, prose or heading, any of these over an empty cell); two of
/// equally heavy kinds take half each.
pub proof fn lemma_two_cell_shares(left: CellType, right: CellType)
    ensures
        kind_class(left) > kind_class(right) ==> two_cell_ratios(left, right) == seq![
            Constraint::Ratio(3u32, 5u32),
            Constraint::Ratio(2u32, 5u32),
        ],
        kind_class(left) < kind_class(right) ==> two_cell_ratios(left, right) == seq![
            Constraint::Ratio(2u32, 5u32),
            Constraint::Ratio(3u32, 5u32),
        ],
        kind_class(left) == kind_class(right) ==> two_cell_ratios(left, right) == seq![
            Constraint::Ratio(1u32, 2u32),
            Constraint::Ratio(1u32, 2u32),
        ],
{
}

/// The kinds of cell from the lightest: empty; list, prose or heading; code;
/// image or QR code.
pub open spec fn kind_class(t: CellType) -> int {
    match t {
        CellType::Empty => 0,
        CellType::List | CellType::Prose | CellType::Heading => 1,
        CellType::Code => 2,
        CellType::Image | CellType::Qr => 3,
    }
}

/// The largest entry of `s` (0 for an empty sequence).
pub open spec fn seq_max(s: Seq<usize>) -> usize
    decreases s.len(),
{
    if s.len() == 0 {
        0
    } else if seq_max(s.drop_last()) >= s.last() {
        seq_max(s.drop_last())
    } else {
        s.last()
    }
}

/// How the cells of a slide are to be placed, before any area is split.
#[derive(Debug, Clone, PartialEq, Eq)]
pub enum LayoutPlan {
    /// No cell.
    Empty,
    /// One cell, which takes the whole area.
    Whole,
    /// The cells one above the other, the area split down by these shares.
    Stack(Vec<Constraint>),
    /// Rows of cells: the area split down by `rows`, then row `k` split
    /// across by `cols[k]`, one share per cell of the row.
    Grid { rows: Vec<Constraint>, cols: Vec<Vec<Constraint>> },
}

/// The value of a [`LayoutPlan`].
pub enum LayoutPlanV {
    Empty,
    Whole,
    Stack(Seq<Constraint>),
    Grid { rows: Seq<Constraint>, cols: Seq<Seq<Constraint>> },
}

pub open spec fn plan_v(p: LayoutPlan) -> LayoutPlanV {
    match p {
        LayoutPlan::Empty => LayoutPlanV::Empty,
        LayoutPlan::Whole => LayoutPlanV::Whole,
        LayoutPlan::Stack(cs) => LayoutPlanV::Stack(cs@),
        LayoutPlan::Grid { rows, cols } => LayoutPlanV::Grid {
            rows: rows@,
            cols: cols@.map_values(|c: Vec<Constraint>| c@),
        },
    }
}

/// The shares across row `k` of a grid of `cells` with `rows` cells per row:
/// weighted by content for two cells, equal otherwise.
pub open spec fn row_shares(cells: Seq<Cell>, rows: Seq<usize>, k: int) -> Seq<Constraint> {
    if cells.len() == 2 {
        two_cell_ratios(spec_cell_type(cells[0].blocks@), spec_cell_type(cells[1].blocks@))
    } else {
        equal_ratios(rows[k] as nat)
    }
}

/// How the cells `cells` are placed on `area`: nothing for no cell, the
/// whole area for one; otherwise the rows of `spec_rows`, or a stack of equal
/// shares when a column of the widest row would be narrower than
/// `MIN_COL_WIDTH`.
pub open spec fn spec_plan(cells: Seq<Cell>, area: Rect) -> LayoutPlanV {
    let n = cells.len();
    if n == 0 {
        LayoutPlanV::Empty
    } else if n == 1 {
        LayoutPlanV::Whole
    } else {
        let rows = spec_rows(n);
        let max_cols = seq_max(rows);
        if max_cols > 0 && (area.width as int) / (max_cols as int) < MIN_COL_WIDTH as int {
            LayoutPlanV::Stack(equal_ratios(n))
        } else {
            LayoutPlanV::Grid {
                rows: equal_ratios(rows.len()),
                cols: Seq::new(rows.len(), |k: int| row_shares(cells, rows, k)),
            }
        }
    }
}

/// The rectangles of `parts`, one after the other.
pub open spec fn flatten(parts: Seq<Seq<Rect>>) -> Seq<Rect>
    decreases parts.len(),
{
    if parts.len() == 0 {
        Seq::empty()
    } else {
        flatten(parts.drop_last()) + parts.last()
    }
}

/// The areas of the cells under plan `p` on `area`: none for no cell, the
/// area for one, the stack's split `stack` for a stack, and the splits
/// `per_row` of the rows, row after row, for a grid.
pub open spec fn spec_place(p: LayoutPlanV, area: Rect, stack: Seq<Rect>, per_row: Seq<Seq<Rect>>) -> Seq<Rect> {
    match p {
        LayoutPlanV::Empty => Seq::empty(),
        LayoutPlanV::Whole => seq![area],
        LayoutPlanV::Stack(_) => stack,
        LayoutPlanV::Grid { .. } => flatten(per_row),
    }
}

fn equal_ratio_vec(n: usize) -> (v: Vec<Constraint>)
    requires
        0 < n <= u32::MAX,
    ensures
        v@ == equal_ratios(n as nat),
{
    let mut v: Vec<Constraint> = Vec::new();
    let d = n as u32;
    let mut k: usize = 0;
    while k < n
        invariant
            k <= n,
            d == n,
            v@ =~= Seq::new(k as nat, |j: int| Constraint::Ratio(1u32, n as u32)),
        decreases n - k,
    {
        v.push(Constraint::Ratio(1, d));
        k = k + 1;
    }
    v
}

fn two_cell_constraints(left: &Cell, right: &Cell) -> (v: Vec<Constraint>)
    ensures
        v@ == two_cell_ratios(spec_cell_type(left.blocks@), spec_cell_type(right.blocks@)),
{
    let r_left = cell_type(left).rank();
    let r_right = cell_type(right).rank();
    let v = if r_left == r_right {
        vec![Constraint::Ratio(1, 2), Constraint::Ratio(1, 2)]
    } else if r_left > r_right {
        vec![Constraint::Ratio(3, 5), Constraint::Ratio(2, 5)]
    } else {
        vec![Constraint::Ratio(2, 5), Constraint::Ratio(3, 5)]
    };
    assert(v@ =~= two_cell_ratios(spec_cell_type(left.blocks@), spec_cell_type(right.blocks@)));
    v
}

/// How the cells of `slide` are to be placed on `area`.
pub fn plan_layout(slide: &Slide, area: Rect) -> (p: LayoutPlan)
    requires
        slide.cells@.len() <= u32::MAX,
    ensures
        plan_v(p) == spec_plan(slide.cells@, area),
        p matches LayoutPlan::Grid { rows, cols } ==> {
            &&& rows@.len() == cols@.len()
            &&& seq_sum(cols@.map_values(|c: Vec<Constraint>| c@.len() as usize)) == slide.cells@.len()
        },
{
    let n = slide.cells.len();
    if n == 0 {
        return LayoutPlan::Empty;
    } else if n == 1 {
        return LayoutPlan::Whole;
    }
    let rows = row_distribution(n);
    proof {
        lemma_rows_place_every_cell(n as nat);
    }
    let mut max_cols: usize = 0;
    let mut k: usize = 0;
    while k < rows.len()
        invariant
            k <= rows@.len(),
            max_cols == seq_max(rows@.take(k as int)),
            forall|j: int| 0 <= j < rows@.len() ==> 1 <= #[trigger] rows@[j] <= 3,
        decreases rows@.len() - k,
    {
        assert(rows@.take(k + 1).drop_last() =~= rows@.take(k as int));
        if rows[k] > max_cols {
            max_cols = rows[k];
        }
        k = k + 1;
    }
    assert(rows@.take(rows@.len() as int) =~= rows@);
    proof {
        lemma_seq_max_bound(rows@);
    }
    let mc = max_cols as u16;
    if mc > 0 && area.width / mc < MIN_COL_WIDTH {
        return LayoutPlan::Stack(equal_ratio_vec(n));
    }
    let row_count = rows.len();
    let mut cols: Vec<Vec<Constraint>> = Vec::new();
    let mut idx: usize = 0;
    while idx < row_count
        invariant
            n == slide.cells@.len(),
            2 <= n <= u32::MAX,
            rows@ == spec_rows(n as nat),
            row_count == rows@.len(),
            idx <= row_count,
            forall|j: int| 0 <= j < rows@.len() ==> 1 <= #[trigger] rows@[j] <= 3,
            cols@.map_values(|c: Vec<Constraint>| c@) =~= Seq::new(
                idx as nat,
                |k: int| row_shares(slide.cells@, rows@, k),
            ),
            seq_sum(cols@.map_values(|c: Vec<Constraint>| c@.len() as usize)) == seq_sum(
                rows@.take(idx as int),
            ),
        decreases row_count - idx,
    {
        let cols_here = rows[idx];
        let shares = if n == 2 {
            two_cell_constraints(&slide.cells[0], &slide.cells[1])
        } else {
            equal_ratio_vec(cols_here)
        };
        proof {
            if n == 2 {
                assert(rows@ == spec_rows(2));
                assert(spec_rows(2) =~= Seq::new(0, |k: int| 3usize).push(2usize));
                assert(rows@[idx as int] == 2);
            }
            assert(shares@.len() == rows@[idx as int]);
        }
        let ghost before = cols@;
        cols.push(shares);
        proof {
            assert(cols@.map_values(|c: Vec<Constraint>| c@) =~= before.map_values(
                |c: Vec<Constraint>| c@,
            ).push(shares@));
            assert(cols@.map_values(|c: Vec<Constraint>| c@.len() as usize) =~= before.map_values(
                |c: Vec<Constraint>| c@.len() as usize,
            ).push(rows@[idx as int]));
            assert(rows@.take(idx + 1).drop_last() =~= rows@.take(idx as int));
            assert(before.map_values(|c: Vec<Constraint>| c@.len() as usize).push(
                rows@[idx as int],
            ).drop_last() =~= before.map_values(|c: Vec<Constraint>| c@.len() as usize));
        }
        idx = idx + 1;
    }
    assert(rows@.take(row_count as int) =~= rows@);
    LayoutPlan::Grid { rows: equal_ratio_vec(row_count), cols }
}

/// The areas of the cells under plan `plan` on `area`, given the splits the
/// plan asks for: `stack` for a stack, `per_row` for the rows of a grid.
pub fn place_cells(plan: &LayoutPlan, area: Rect, stack: Vec<Rect>, per_row: Vec<Vec<Rect>>) -> (r: Vec<
    Rect,
>)
    ensures
        r@ == spec_place(plan_v(*plan), area, stack@, per_row@.map_values(|v: Vec<Rect>| v@)),
{
    match plan {
        LayoutPlan::Empty => Vec::new(),
        LayoutPlan::Whole => {
            let v = vec![area];
            assert(v@ =~= seq![area]);
            v
        },
        LayoutPlan::Stack(_) => stack,
        LayoutPlan::Grid { .. } => {
            let ghost parts = per_row@.map_values(|v: Vec<Rect>| v@);
            let mut out: Vec<Rect> = Vec::new();
            let mut k: usize = 0;
            while k < per_row.len()
                invariant
                    parts == per_row@.map_values(|v: Vec<Rect>| v@),
                    k <= per_row@.len(),
                    out@ == flatten(parts.take(k as int)),
                decreases per_row@.len() - k,
            {
                let row = &per_row[k];
                let ghost before = out@;
                let mut c: usize = 0;
                while c < row.len()
                    invariant
                        c <= row@.len(),
                        out@ =~= before + row@.take(c as int),
                    decreases row@.len() - c,
                {
                    out.push(row[c]);
                    c = c + 1;
                }
                proof {
                    assert(row@.take(row@.len() as int) =~= row@);
                    assert(parts.take(k + 1).drop_last() =~= parts.take(k as int));
                    assert(parts.take(k + 1).last() == row@);
                }
                k = k + 1;
            }
            assert(parts.take(per_row@.len() as int) =~= parts);
            out
        },
    }
}

proof fn lemma_flatten_within(parts: Seq<Seq<Rect>>, area: Rect)
    requires
        forall|k: int, j: int|
            0 <= k < parts.len() && 0 <= j < parts[k].len() ==> rect_within(#[trigger] parts[k][j], area),
    ensures
        forall|j: int| 0 <= j < flatten(parts).len() ==> rect_within(#[trigger] flatten(parts)[j], area),
    decreases parts.len(),
{
    if parts.len() > 0 {
        lemma_flatten_within(parts.drop_last(), area);
        let a = flatten(parts.drop_last());
        let b = parts.last();
        assert forall|j: int| 0 <= j < (a + b).len() implies rect_within(#[trigger] (a + b)[j], area) by {
            if j < a.len() {
                assert((a + b)[j] == a[j]);
            } else {
                assert((a + b)[j] == b[j - a.len()]);
                assert(b == parts[parts.len() - 1]);
            }
        }
    }
}

proof fn lemma_flatten_len(parts: Seq<Seq<Rect>>, lens: Seq<usize>)
    requires
        parts.len() == lens.len(),
        forall|k: int| 0 <= k < parts.len() ==> #[trigger] parts[k].len() == lens[k],
    ensures
        flatten(parts).len() == seq_sum(lens),
    decreases parts.len(),
{
    if parts.len() > 0 {
        lemma_flatten_len(parts.drop_last(), lens.drop_last());
    }
}

/// The area of each cell of `slide` within `area`, in reading order: the
/// plan of [`plan_layout`] carried out by ratatui's layout solver. Whatever
/// areas the solver gives, there is one per cell, a single cell takes the
/// whole area, every area lies within `area`, and a stack's areas keep the
/// area's columns.
pub fn layout(slide: &Slide, area: Rect) -> (rects: Vec<Rect>)
    requires
        slide.cells@.len() <= u32::MAX,
    ensures
        rects@.len() == slide.cells@.len(),
        slide.cells@.len() == 1 ==> rects@ == seq![area],
        forall|k: int| 0 <= k < rects@.len() ==> rect_within(#[trigger] rects@[k], area),
        spec_plan(slide.cells@, area) is Stack ==> forall|k: int|
            0 <= k < rects@.len() ==> #[trigger] rects@[k].x == area.x && rects@[k].width == area.width,
{
    let plan = plan_layout(slide, area);
    let ghost n = slide.cells@.len();
    proof {
        lemma_rows_place_every_cell(n);
    }
    match &plan {
        LayoutPlan::Empty => place_cells(&plan, area, Vec::new(), Vec::new()),
        LayoutPlan::Whole => {
            let r = place_cells(&plan, area, Vec::new(), Vec::new());
            assert(rect_within(r@[0], area));
            r
        },
        LayoutPlan::Stack(cs) => {
            let stack = split(area, true, cs);
            place_cells(&plan, area, stack, Vec::new())
        },
        LayoutPlan::Grid { rows, cols } => {
            let ghost rs = spec_rows(n);
            let row_rects = split(area, true, rows);
            let mut per_row: Vec<Vec<Rect>> = Vec::new();
            let mut k: usize = 0;
            while k < cols.len()
                invariant
                    k <= cols@.len(),
                    n == slide.cells@.len(),
                    n >= 2,
                    rs == spec_rows(n),
                    forall|j: int| 0 <= j < rs.len() ==> 1 <= #[trigger] rs[j] <= 3,
                    cols@.map_values(|c: Vec<Constraint>| c@) == Seq::new(
                        rs.len(),
                        |j: int| row_shares(slide.cells@, rs, j),
                    ),
                    row_rects@.len() == cols@.len(),
                    forall|j: int| 0 <= j < row_rects@.len() ==> rect_within(#[trigger] row_rects@[j], area),
                    per_row@.len() == k,
                    forall|i: int, j: int|
                        0 <= i < k && 0 <= j < per_row@[i]@.len() ==> rect_within(
                            #[trigger] per_row@[i]@[j],
                            area,
                        ),
                    forall|i: int| 0 <= i < k ==> #[trigger] per_row@[i]@.len() == cols@[i]@.len(),
                decreases cols@.len() - k,
            {
                proof {
                    assert(cols@.map_values(|c: Vec<Constraint>| c@).len() == cols@.len());
                    assert(k < rs.len());
                    assert(cols@.map_values(|c: Vec<Constraint>| c@)[k as int] == cols@[k as int]@);
                    let sh = row_shares(slide.cells@, rs, k as int);
                    assert(Seq::new(rs.len(), |j: int| row_shares(slide.cells@, rs, j))[k as int] == sh);
                    assert(cols@[k as int]@ == sh);
                    assert forall|j: int| 0 <= j < sh.len() implies (#[trigger] sh[j] matches Constraint::Ratio(_, d) ==> d > 0) by {
                        assert(rs[k as int] >= 1);
                    }
                }
                let row = split(row_rects[k], false, &cols[k]);
                proof {
                    assert forall|j: int| 0 <= j < row@.len() implies rect_within(#[trigger] row@[j], area) by {
                        assert(rect_within(row@[j], row_rects@[k as int]));
                        assert(rect_within(row_rects@[k as int], area));
                    }
                }
                let ghost before = per_row@;
                per_row.push(row);
                proof {
                    assert forall|i: int| 0 <= i < k + 1 implies #[trigger] per_row@[i]@.len() == cols@[i]@.len() by {
                        if i < k {
                            assert(per_row@[i] == before[i]);
                        }
                    }
                    assert forall|i: int, j: int|
                        0 <= i < k + 1 && 0 <= j < per_row@[i]@.len() implies rect_within(
                            #[trigger] per_row@[i]@[j],
                            area,
                        ) by {
                        if i < k {
                            assert(per_row@[i] == before[i]);
                        }
                    }
                }
                k = k + 1;
            }
            let ghost parts = per_row@.map_values(|v: Vec<Rect>| v@);
            let ghost lens = cols@.map_values(|c: Vec<Constraint>| c@.len() as usize);
            proof {
                assert forall|i: int, j: int| 0 <= i < parts.len() && 0 <= j < parts[i].len() implies rect_within(
                    #[trigger] parts[i][j],
                    area,
                ) by {
                    assert(parts[i] == per_row@[i]@);
                }
                lemma_flatten_within(parts, area);
                assert forall|i: int| 0 <= i < parts.len() implies #[trigger] parts[i].len() == lens[i] by {
                    assert(parts[i] == per_row@[i]@);
                    assert(cols@[i].len() == cols@[i]@.len());
                    assert(lens[i] == cols@[i]@.len());
                }
                lemma_flatten_len(parts, lens);
            }
            place_cells(&plan, area, row_rects, per_row)
        },
    }
}

proof fn lemma_seq_max_bound(s: Seq<usize>)
    requires
        forall|j: int| 0 <= j < s.len() ==> #[trigger] s[j] <= 3,
    ensures
        seq_max(s) <= 3,
    decreases s.len(),
{
    if s.len() > 0 {
        lemma_seq_max_bound(s.drop_last());
    }
}

} // verus!
