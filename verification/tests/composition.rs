use oxlide::layout::Rect;
use oxlide::parser::{Block, Cell, InlineSpan, ListItem, Slide, SourceSpan};
use oxlide::render::composition::{compute_inner_area, is_hero_slide};
use oxlide::render::theme::{ChromeSpec, Theme};

fn src_span() -> SourceSpan {
    SourceSpan { start: 0, end: 0 }
}

fn heading_block(level: u8, text: &str) -> Block {
    Block::Heading { level, spans: vec![InlineSpan::Text(text.into())], span: src_span() }
}

fn paragraph_block(text: &str) -> Block {
    Block::Paragraph { spans: vec![InlineSpan::Text(text.into())], span: src_span() }
}

fn list_block() -> Block {
    Block::List {
        ordered: false,
        items: vec![ListItem { blocks: vec![paragraph_block("item")], span: src_span() }],
        span: src_span(),
    }
}

fn code_block() -> Block {
    Block::CodeBlock { lang: None, source: "x".into(), span: src_span() }
}

fn image_block() -> Block {
    Block::Image { src: "x.png".into(), alt: String::new(), meta: None, span: src_span() }
}

fn cell_of(blocks: Vec<Block>) -> Cell {
    Cell { blocks, directives: vec![], span: src_span() }
}

fn slide_of(cells: Vec<Cell>) -> Slide {
    Slide { cells, notes: vec![], directives: vec![], span: src_span() }
}

#[test]
fn padding_at_120_is_8_percent_clamped() {
    let theme = Theme::paper_white();
    let outer = Rect::new(0, 0, 120, 40);
    let (inner, _) = compute_inner_area(outer, &theme);
    assert_eq!(inner.x, 9);
    assert_eq!(inner.width, 102);
    assert_eq!(inner.x + inner.width - 1, 110);
    assert_eq!(inner.y, 0);
}

#[test]
fn padding_clamp_low_at_40() {
    let theme = Theme::paper_white();
    let (inner, _) = compute_inner_area(Rect::new(0, 0, 40, 10), &theme);
    assert_eq!(inner.x, 3);
    assert_eq!(inner.width, 34);
}

#[test]
fn padding_at_80_cols() {
    let theme = Theme::paper_white();
    let (inner, _) = compute_inner_area(Rect::new(0, 0, 80, 24), &theme);
    assert_eq!(inner.x, 6);
    assert_eq!(inner.width, 68);
}

#[test]
fn padding_clamp_high_at_200() {
    let theme = Theme::paper_white();
    let (inner, _) = compute_inner_area(Rect::new(0, 0, 200, 40), &theme);
    assert_eq!(inner.x, 12);
    assert_eq!(inner.width, 176);
}

#[test]
fn narrow_fallback_disables_padding_below_20() {
    let theme = Theme::paper_white();
    let (inner, _) = compute_inner_area(Rect::new(0, 0, 15, 8), &theme);
    assert_eq!(inner.x, 0);
    assert_eq!(inner.width, 15);
}

#[test]
fn boundary_exactly_20_cols_applies_padding() {
    let theme = Theme::paper_white();
    let (inner, _) = compute_inner_area(Rect::new(0, 0, 20, 8), &theme);
    assert_eq!(inner.x, 3);
    assert_eq!(inner.width, 14);
}

#[test]
fn paper_white_reserves_two_chrome_rows_by_default() {
    let area = Rect::new(0, 0, 120, 40);
    let theme = Theme::paper_white();
    assert_eq!(theme.chrome_rows, 2, "paper-white reserves 2 chrome rows");
    assert!(matches!(theme.chrome, ChromeSpec::BottomRule));
    let (inner, chrome) = compute_inner_area(area, &theme);
    assert_eq!(inner.height, 38);
    assert_eq!(chrome.height, 2);
}

#[test]
fn padding_at_120_cols_matches_acceptance_range() {
    let area = Rect::new(0, 0, 120, 40);
    let (inner, _) = compute_inner_area(area, &Theme::paper_white());
    assert_eq!(inner.x, 9);
    assert_eq!(inner.x + inner.width - 1, 110);
}

#[test]
fn chrome_rows_reduce_inner_height() {
    let theme = Theme { chrome_rows: 2, ..Theme::paper_white() };
    let (inner, chrome) = compute_inner_area(Rect::new(0, 0, 80, 24), &theme);
    assert_eq!(inner.height, 22);
    assert_eq!(chrome.height, 2);
    assert_eq!(chrome.y, inner.y + inner.height);
}

#[test]
fn chrome_rows_clamped_to_one_third_of_height() {
    let theme = Theme { chrome_rows: 100, ..Theme::paper_white() };
    let (inner, chrome) = compute_inner_area(Rect::new(0, 0, 80, 30), &theme);
    assert_eq!(chrome.height, 10);
    assert_eq!(inner.height, 20);
}

#[test]
fn honors_nonzero_outer_origin() {
    let theme = Theme::paper_white();
    let (inner, _) = compute_inner_area(Rect::new(5, 7, 80, 24), &theme);
    assert_eq!(inner.x, 11);
    assert_eq!(inner.y, 7);
}

#[test]
fn zero_area_is_safe() {
    let theme = Theme::paper_white();
    let (inner, chrome) = compute_inner_area(Rect::new(0, 0, 0, 0), &theme);
    assert_eq!(inner.width, 0);
    assert_eq!(inner.height, 0);
    assert_eq!(chrome.height, 0);
}

#[test]
fn hero_h1_only() {
    let slide = slide_of(vec![cell_of(vec![heading_block(1, "Title")])]);
    assert!(is_hero_slide(&slide));
}

#[test]
fn hero_h1_plus_paragraph() {
    let slide = slide_of(vec![cell_of(vec![heading_block(1, "Title"), paragraph_block("subtitle")])]);
    assert!(is_hero_slide(&slide));
}

#[test]
fn not_hero_h1_plus_list() {
    let slide = slide_of(vec![cell_of(vec![heading_block(1, "T"), list_block()])]);
    assert!(!is_hero_slide(&slide));
}

#[test]
fn not_hero_h1_plus_code() {
    let slide = slide_of(vec![cell_of(vec![heading_block(1, "T"), code_block()])]);
    assert!(!is_hero_slide(&slide));
}

#[test]
fn not_hero_h1_plus_image() {
    let slide = slide_of(vec![cell_of(vec![heading_block(1, "T"), image_block()])]);
    assert!(!is_hero_slide(&slide));
}

#[test]
fn not_hero_paragraph_only() {
    let slide = slide_of(vec![cell_of(vec![paragraph_block("p")])]);
    assert!(!is_hero_slide(&slide));
}

#[test]
fn not_hero_two_lists() {
    let slide = slide_of(vec![cell_of(vec![list_block(), list_block()])]);
    assert!(!is_hero_slide(&slide));
}

#[test]
fn not_hero_h2_only() {
    let slide = slide_of(vec![cell_of(vec![heading_block(2, "Subtitle")])]);
    assert!(!is_hero_slide(&slide));
}

#[test]
fn not_hero_paragraph_before_h1() {
    let slide = slide_of(vec![cell_of(vec![paragraph_block("intro"), heading_block(1, "Late")])]);
    assert!(!is_hero_slide(&slide));
}

#[test]
fn not_hero_h1_plus_paragraph_plus_more() {
    let slide = slide_of(vec![cell_of(vec![
        heading_block(1, "T"),
        paragraph_block("p"),
        paragraph_block("p2"),
    ])]);
    assert!(!is_hero_slide(&slide));
}

#[test]
fn not_hero_multi_cell_even_if_each_looks_hero() {
    let slide = slide_of(vec![cell_of(vec![heading_block(1, "A")]), cell_of(vec![heading_block(1, "B")])]);
    assert!(!is_hero_slide(&slide));
}

#[test]
fn not_hero_empty_slide() {
    let slide = slide_of(vec![]);
    assert!(!is_hero_slide(&slide));
}

#[test]
fn not_hero_empty_cell() {
    let slide = slide_of(vec![cell_of(vec![])]);
    assert!(!is_hero_slide(&slide));
}
