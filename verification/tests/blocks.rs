//! Slides of one cell holding one block, followed from the screen area down
//! to what the library plans for the block: the padded content area, the
//! cell's area, the block's area, then the block's own plan.

use oxlide::layout::{layout, Rect};
use qrcode::QrCode;
use ratatui::buffer::Buffer;
use ratatui::widgets::Widget;
use tui_qrcode::{Colors, QrCodeWidget, QuietZone, Scaling};
use oxlide::parser::{Block, Cell, InlineSpan, ListItem, Slide, SourceSpan};
use oxlide::render::composition::{compute_inner_area, hero_rows};
use oxlide::render::engine::{cell_areas, inline_runs, plan_qr, QrPlan, QrProblem};
use oxlide::render::list::{list_layout, ListDraw};
use oxlide::render::text::truncate_to_width;
use oxlide::render::theme::{Style, Theme};

fn span() -> SourceSpan {
    SourceSpan { start: 0, end: 0 }
}

fn slide_with_cell(blocks: Vec<Block>) -> Slide {
    Slide {
        cells: vec![Cell { blocks, directives: vec![], span: span() }],
        notes: vec![],
        directives: vec![],
        span: span(),
    }
}

fn qr_block(url: &str) -> Block {
    Block::Qr { url: url.into(), span: span() }
}

fn paragraph(spans: Vec<InlineSpan>) -> Block {
    Block::Paragraph { spans, span: span() }
}

fn list_item(blocks: Vec<Block>) -> ListItem {
    ListItem { blocks, span: span() }
}

fn simple_item(text: &str) -> ListItem {
    list_item(vec![paragraph(vec![InlineSpan::Text(text.into())])])
}

fn list(ordered: bool, items: Vec<ListItem>) -> Block {
    Block::List { ordered, items, span: span() }
}

/// The area of the first block of the slide's only cell on a screen `area`.
fn block_area(slide: &Slide, area: Rect) -> Rect {
    let theme = Theme::paper_white();
    let (inner, _) = compute_inner_area(area, &theme);
    let cell_rect = layout(slide, inner)[0];
    cell_areas(&slide.cells[0], cell_rect)[0].1
}

fn qr_plan_of(url: &str, w: u16, h: u16) -> QrPlan {
    let slide = slide_with_cell(vec![qr_block(url)]);
    let area = block_area(&slide, Rect::new(0, 0, w, h));
    plan_qr(url, area)
}

/// Whether the code of `data`, drawn in `at` as the program draws it, shows
/// half-block glyphs.
fn has_block_char(data: &str, at: Rect) -> bool {
    let area = ratatui::layout::Rect { x: at.x, y: at.y, width: at.width, height: at.height };
    let mut buf = Buffer::empty(area);
    let qr = QrCode::new(data.as_bytes()).expect("the planned code encodes");
    QrCodeWidget::new(qr)
        .colors(Colors::Normal)
        .quiet_zone(QuietZone::Enabled)
        .scaling(Scaling::Min)
        .render(area, &mut buf);
    buf.content().iter().any(|c| matches!(c.symbol(), "▀" | "▄" | "█"))
}

/// The markers of a list's plan as (x, y, text), and its lines as (x, y).
fn markers_and_lines(draws: &[ListDraw]) -> (Vec<(u16, u16, String)>, Vec<(u16, u16)>) {
    let mut markers = Vec::new();
    let mut lines = Vec::new();
    for d in draws {
        match d {
            ListDraw::Marker { at, text } => markers.push((at.x, at.y, text.clone())),
            ListDraw::Line { at, .. } => lines.push((at.x, at.y)),
        }
    }
    (markers, lines)
}

#[test]
fn renders_qr_block_with_url_caption() {
    match qr_plan_of("https://github.com/cmoel/oxlide", 80, 30) {
        QrPlan::Code { data, at, caption } => {
            assert!(has_block_char(&data, at), "expected QR block glyphs");
            let (_, text) = caption.expect("caption");
            assert_eq!(text, "https://github.com/cmoel/oxlide");
        }
        other => panic!("expected a code, got {:?}", other),
    }
}

#[test]
fn qr_caption_truncates_to_cell_width_with_ellipsis() {
    let url = "https://github.com/cmoel/oxlide/issues/42/very/long";
    match qr_plan_of(url, 16, 16) {
        QrPlan::Problem { problem, text } => {
            assert_eq!(problem, QrProblem::TooSmall);
            // The error card shows the URL within its borders.
            assert_ne!(truncate_to_width(&text, 14), url);
        }
        QrPlan::Code { caption, .. } => {
            assert_ne!(caption.map(|c| c.1), Some(url.to_string()));
        }
        QrPlan::Nothing => panic!("a 16x16 cell is not empty"),
    }
}

#[test]
fn qr_empty_url_renders_error_card() {
    assert_eq!(
        qr_plan_of("", 40, 10),
        QrPlan::Problem { problem: QrProblem::EmptyUrl, text: String::new() }
    );
}

#[test]
fn qr_whitespace_only_url_renders_error_card() {
    match qr_plan_of("   ", 40, 10) {
        QrPlan::Problem { problem, .. } => assert_eq!(problem, QrProblem::EmptyUrl),
        other => panic!("expected an error card, got {:?}", other),
    }
}

#[test]
fn qr_too_small_renders_error_card() {
    match qr_plan_of("https://x.com", 30, 10) {
        QrPlan::Problem { problem, .. } => assert_eq!(problem, QrProblem::TooSmall),
        other => panic!("expected a size error, got {:?}", other),
    }
}

#[test]
fn qr_zero_sized_area_does_not_panic() {
    assert_eq!(plan_qr("https://x.com", Rect::new(0, 0, 0, 0)), QrPlan::Nothing);
}

#[test]
fn qr_unicode_url_does_not_panic_and_truncates_cleanly() {
    match qr_plan_of("https://例え.jp/path/with/中文", 80, 30) {
        QrPlan::Code { caption, .. } => {
            let (_, text) = caption.expect("caption");
            assert!(text.contains("https://") || text.contains("例え"), "caption {:?}", text);
        }
        QrPlan::Problem { text, .. } => {
            assert!(text.contains("https://") || text.contains("例え"), "text {:?}", text);
        }
        QrPlan::Nothing => panic!("an 80x30 cell is not empty"),
    }
}

#[test]
fn qr_resize_rerenders_cleanly_at_different_widths() {
    for (w, h) in [(60u16, 24u16), (120, 40), (40, 16), (200, 60), (80, 30)] {
        match qr_plan_of("https://github.com/cmoel/oxlide", w, h) {
            QrPlan::Code { data, at, .. } => assert!(has_block_char(&data, at), "size {}x{}", w, h),
            QrPlan::Problem { problem, .. } => assert_eq!(problem, QrProblem::TooSmall, "size {}x{}", w, h),
            QrPlan::Nothing => panic!("size {}x{} planned nothing", w, h),
        }
    }
}

#[test]
fn empty_list_does_not_panic() {
    let items: Vec<ListItem> = vec![];
    let (draws, used) = list_layout(false, &items, 0, Rect::new(0, 0, 40, 10));
    assert!(draws.is_empty());
    assert_eq!(used, 0);
}

#[test]
fn renders_unordered_list_with_bullet_markers() {
    let slide = slide_with_cell(vec![list(
        false,
        vec![simple_item("alpha"), simple_item("beta"), simple_item("gamma")],
    )]);
    let area = block_area(&slide, Rect::new(0, 0, 40, 5));
    let Block::List { ordered, items, .. } = &slide.cells[0].blocks[0] else { unreachable!() };
    let (draws, _) = list_layout(*ordered, items, 0, area);
    let (markers, lines) = markers_and_lines(&draws);
    let x = area.x;
    assert_eq!(
        markers,
        vec![(x, 0, "• ".to_string()), (x, 1, "• ".to_string()), (x, 2, "• ".to_string())]
    );
    assert_eq!(lines, vec![(x + 2, 0), (x + 2, 1), (x + 2, 2)]);
}

#[test]
fn renders_ordered_list_with_numbered_markers() {
    let slide = slide_with_cell(vec![list(
        true,
        vec![simple_item("first"), simple_item("second"), simple_item("third")],
    )]);
    let area = block_area(&slide, Rect::new(0, 0, 40, 5));
    let Block::List { ordered, items, .. } = &slide.cells[0].blocks[0] else { unreachable!() };
    let (draws, _) = list_layout(*ordered, items, 0, area);
    let (markers, lines) = markers_and_lines(&draws);
    let x = area.x;
    assert_eq!(
        markers,
        vec![(x, 0, "1. ".to_string()), (x, 1, "2. ".to_string()), (x, 2, "3. ".to_string())]
    );
    assert_eq!(lines, vec![(x + 3, 0), (x + 3, 1), (x + 3, 2)]);
}

#[test]
fn renders_nested_list_indented() {
    let inner = list(false, vec![simple_item("inner")]);
    let outer_item = list_item(vec![paragraph(vec![InlineSpan::Text("outer".into())]), inner]);
    let slide = slide_with_cell(vec![list(false, vec![outer_item])]);
    let area = block_area(&slide, Rect::new(0, 0, 40, 5));
    let Block::List { ordered, items, .. } = &slide.cells[0].blocks[0] else { unreachable!() };
    let (draws, _) = list_layout(*ordered, items, 0, area);
    let (markers, _) = markers_and_lines(&draws);
    assert_eq!(markers.len(), 2);
    let (outer_x, outer_y, _) = markers[0];
    let (inner_x, inner_y, _) = markers[1];
    assert_eq!((outer_y, inner_y), (0, 1));
    assert_eq!(inner_x, outer_x + 2, "inner bullet indented by 2 cells");
}

#[test]
fn renders_list_items_with_inline_styles() {
    let theme = Theme::paper_white();
    let spans = vec![
        InlineSpan::Strong(vec![InlineSpan::Text("bold".into())]),
        InlineSpan::Text(" ".into()),
        InlineSpan::Emphasis(vec![InlineSpan::Text("italic".into())]),
        InlineSpan::Text(" ".into()),
        InlineSpan::Code("code".into()),
        InlineSpan::Text(" ".into()),
        InlineSpan::Link { url: "https://example.com".into(), text: vec![InlineSpan::Text("link".into())] },
    ];
    let slide = slide_with_cell(vec![list(false, vec![list_item(vec![paragraph(spans)])])]);
    let area = block_area(&slide, Rect::new(0, 0, 60, 3));
    let Block::List { ordered, items, .. } = &slide.cells[0].blocks[0] else { unreachable!() };
    let (draws, _) = list_layout(*ordered, items, 0, area);
    let line = draws
        .iter()
        .find_map(|d| match d {
            ListDraw::Line { at, spans } => Some((*at, *spans)),
            _ => None,
        })
        .expect("a line of text");
    assert_eq!(line.0.y, 0);
    let plain = Style { fg: None, bold: false, italic: false, underlined: false };
    let runs = inline_runs(line.1, &theme, plain);
    let style_of = |t: &str| runs.iter().find(|r| r.text == t).map(|r| r.style).unwrap();
    assert!(style_of("bold").bold);
    assert!(style_of("italic").italic);
    assert_eq!(style_of("code").fg, theme.code.fg);
    assert_eq!(style_of("link").fg, theme.link.fg);
    assert!(style_of("link").underlined);
}

#[test]
fn render_hero_centers_vertically_on_short_content() {
    let theme = Theme::paper_white();
    let (inner, _) = compute_inner_area(Rect::new(0, 0, 80, 24), &theme);
    let rows = hero_rows(inner, false).expect("rows");
    // Expected top offset (24 - 1) / 2 = 11.
    assert!((10..=12).contains(&rows.heading.y), "heading row was {}", rows.heading.y);
}

#[test]
fn render_hero_anchors_top_when_short() {
    let theme = Theme::paper_white();
    let (inner, _) = compute_inner_area(Rect::new(0, 0, 40, 4), &theme);
    let rows = hero_rows(inner, false).expect("rows");
    assert_eq!(rows.heading.y, 0, "short area should anchor heading at top");
}
