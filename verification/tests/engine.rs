use oxlide::layout::Rect;
use oxlide::parser::{Block, Cell, InlineSpan, SourceSpan};
use oxlide::render::engine::{
    cell_areas, cell_rows, inline_runs, place_rows, plan_chrome, plan_qr, plan_qr_for, QrPlan, QrProblem,
    StyledRun,
};
use oxlide::render::text::truncate_with_widths;
use oxlide::render::composition::{compute_inner_area, hero_rows};
use oxlide::render::text::decimal;
use oxlide::render::theme::{ChromeSpec, Style, Theme};
use unicode_width::UnicodeWidthStr;

fn sp() -> SourceSpan {
    SourceSpan { start: 0, end: 0 }
}

fn text(s: &str) -> InlineSpan {
    InlineSpan::Text(s.to_string())
}

fn heading(level: u8) -> Block {
    Block::Heading { level, spans: vec![text("h")], span: sp() }
}

fn para() -> Block {
    Block::Paragraph { spans: vec![text("p")], span: sp() }
}

fn cell(blocks: Vec<Block>) -> Cell {
    Cell { blocks, directives: vec![], span: sp() }
}

fn plain() -> Style {
    Style { fg: None, bold: false, italic: false, underlined: false }
}

#[test]
fn inline_runs_style_each_kind_of_span() {
    let theme = Theme::paper_white();
    let spans = vec![
        text("a"),
        InlineSpan::Strong(vec![text("b"), InlineSpan::Emphasis(vec![text("c")])]),
        InlineSpan::Code("d".to_string()),
        InlineSpan::Link { url: "https://x.com".to_string(), text: vec![text("e")] },
        InlineSpan::Image { src: "cat.png".to_string(), alt: "f".to_string() },
    ];
    let runs = inline_runs(&spans, &theme, plain());
    let bold = Style { bold: true, ..plain() };
    let bold_italic = Style { bold: true, italic: true, ..plain() };
    let expected = vec![
        StyledRun { text: "a".to_string(), style: plain() },
        StyledRun { text: "b".to_string(), style: bold },
        StyledRun { text: "c".to_string(), style: bold_italic },
        StyledRun { text: "d".to_string(), style: theme.code },
        StyledRun { text: "e".to_string(), style: theme.link },
        StyledRun { text: "[img: f]".to_string(), style: theme.image_placeholder },
    ];
    assert_eq!(runs, expected);
}

#[test]
fn inline_runs_of_no_spans_is_empty() {
    let theme = Theme::paper_white();
    assert!(inline_runs(&vec![], &theme, plain()).is_empty());
}

#[test]
fn cell_rows_leave_a_blank_row_after_a_top_heading() {
    let rows = cell_rows(&cell(vec![heading(1), para()]));
    assert_eq!(rows, vec![Some(0), None, Some(1)]);
}

#[test]
fn cell_rows_no_blank_row_after_a_last_heading() {
    assert_eq!(cell_rows(&cell(vec![para(), heading(1)])), vec![Some(0), Some(1)]);
}

#[test]
fn cell_rows_no_blank_row_after_a_lower_heading() {
    assert_eq!(cell_rows(&cell(vec![heading(2), para()])), vec![Some(0), Some(1)]);
}

#[test]
fn hero_rows_center_heading_and_subtitle() {
    let r = hero_rows(Rect::new(2, 1, 80, 20), true).unwrap();
    assert_eq!(r.heading, Rect::new(2, 9, 80, 1));
    assert_eq!(r.subtitle, Some(Rect::new(2, 11, 80, 1)));
}

#[test]
fn hero_rows_center_a_lone_heading() {
    let r = hero_rows(Rect::new(0, 0, 80, 20), false).unwrap();
    assert_eq!(r.heading, Rect::new(0, 9, 80, 1));
    assert_eq!(r.subtitle, None);
}

#[test]
fn hero_rows_start_at_the_top_of_a_short_area() {
    let r = hero_rows(Rect::new(0, 0, 40, 4), true).unwrap();
    assert_eq!(r.heading, Rect::new(0, 0, 40, 1));
    assert_eq!(r.subtitle, Some(Rect::new(0, 2, 40, 1)));
    let r = hero_rows(Rect::new(0, 0, 40, 2), true).unwrap();
    assert_eq!(r.subtitle, None);
}

#[test]
fn hero_rows_of_an_empty_area_is_none() {
    assert_eq!(hero_rows(Rect::new(0, 0, 0, 10), true), None);
}

#[test]
fn plan_qr_zero_sized_area_is_nothing() {
    assert_eq!(plan_qr("https://x.com", Rect::new(0, 0, 0, 0)), QrPlan::Nothing);
    assert_eq!(plan_qr("https://x.com", Rect::new(0, 0, 40, 0)), QrPlan::Nothing);
}

#[test]
fn plan_qr_empty_url_is_an_error() {
    assert_eq!(
        plan_qr("", Rect::new(0, 0, 80, 40)),
        QrPlan::Problem { problem: QrProblem::EmptyUrl, text: String::new() }
    );
    assert_eq!(
        plan_qr("   ", Rect::new(0, 0, 80, 40)),
        QrPlan::Problem { problem: QrProblem::EmptyUrl, text: "   ".to_string() }
    );
}

#[test]
fn plan_qr_too_small_is_an_error() {
    assert_eq!(
        plan_qr(" https://x.com ", Rect::new(0, 0, 30, 10)),
        QrPlan::Problem { problem: QrProblem::TooSmall, text: "https://x.com".to_string() }
    );
}

#[test]
fn plan_qr_too_long_cannot_be_encoded() {
    let url = "a".repeat(3000);
    assert_eq!(
        plan_qr(&url, Rect::new(0, 0, 200, 200)),
        QrPlan::Problem { problem: QrProblem::CannotEncode, text: url.clone() }
    );
}

#[test]
fn plan_qr_centers_the_code_above_its_caption() {
    match plan_qr("  https://x.com\t", Rect::new(0, 0, 80, 40)) {
        QrPlan::Code { data, at, caption } => {
            // A version 1 code is 21 modules wide, 29 with its quiet zone,
            // drawn two module rows per character row.
            assert_eq!(data, "https://x.com");
            assert_eq!(at, Rect::new(25, 12, 29, 15));
            assert_eq!(caption, Some((Rect::new(0, 39, 80, 1), "https://x.com".to_string())));
        }
        other => panic!("expected a code, got {:?}", other),
    }
}

#[test]
fn plan_qr_one_row_area_has_no_caption() {
    match plan_qr("https://x.com", Rect::new(0, 0, 40, 1)) {
        QrPlan::Problem { problem, .. } => assert_eq!(problem, QrProblem::TooSmall),
        other => panic!("expected an error, got {:?}", other),
    }
}

#[test]
fn plan_qr_caption_is_truncated_to_the_cell() {
    let url = "https://example.com/a/rather/long/path/to/somewhere/else";
    let width = match plan_qr(url, Rect::new(0, 0, 200, 100)) {
        QrPlan::Code { at, .. } => at.width,
        other => panic!("expected a code, got {:?}", other),
    };
    match plan_qr(url, Rect::new(0, 0, width, 100)) {
        QrPlan::Code { caption: Some((rect, cap)), .. } => {
            assert_eq!(rect, Rect::new(0, 99, width, 1));
            assert!(cap.ends_with('…'), "caption {:?}", cap);
            assert!(UnicodeWidthStr::width(cap.as_str()) <= width as usize);
            assert!(url.starts_with(cap.trim_end_matches('…')));
        }
        other => panic!("expected a code with caption, got {:?}", other),
    }
}

#[test]
fn plan_chrome_draws_rule_and_counter() {
    let p = plan_chrome(ChromeSpec::BottomRule, Rect::new(0, 38, 80, 2), Rect::new(6, 0, 68, 38), 2, 10);
    assert_eq!(p.rule, Some((Rect::new(6, 38, 68, 1), "─".repeat(68))));
    assert_eq!(p.counter, Some((Rect::new(0, 39, 80, 1), "3 / 10".to_string())));
}

#[test]
fn plan_chrome_one_row_has_no_counter() {
    let p = plan_chrome(ChromeSpec::BottomRule, Rect::new(1, 5, 3, 1), Rect::new(1, 0, 3, 5), 0, 1);
    assert_eq!(p.rule, Some((Rect::new(1, 5, 3, 1), "───".to_string())));
    assert_eq!(p.counter, None);
}

#[test]
fn plan_chrome_draws_nothing_without_chrome_or_area() {
    let inner = Rect::new(6, 0, 68, 38);
    let p = plan_chrome(ChromeSpec::NoChrome, Rect::new(0, 38, 80, 2), inner, 0, 3);
    assert_eq!((p.rule, p.counter), (None, None));
    let p = plan_chrome(ChromeSpec::BottomRule, Rect::new(0, 38, 80, 0), inner, 0, 3);
    assert_eq!((p.rule, p.counter), (None, None));
    let p = plan_chrome(ChromeSpec::BottomRule, Rect::new(0, 38, 0, 2), inner, 0, 3);
    assert_eq!((p.rule, p.counter), (None, None));
}

#[test]
fn paper_white_bottom_rule_spans_inner_width_at_area_height_minus_two() {
    let area = Rect::new(0, 0, 80, 24);
    let theme = Theme::paper_white();
    let (inner, chrome) = compute_inner_area(area, &theme);
    let p = plan_chrome(theme.chrome, chrome, inner, 0, 1);
    let (rule_rect, rule) = p.rule.expect("a rule");
    assert_eq!(rule_rect.y, area.height - 2);
    // The rule covers exactly the content's columns, not the left pad.
    assert_eq!((rule_rect.x, rule_rect.width), (inner.x, inner.width));
    assert_eq!(rule, "─".repeat(inner.width as usize));
}

#[test]
fn paper_white_counter_centered_on_final_row_single_slide() {
    let area = Rect::new(0, 0, 80, 24);
    let theme = Theme::paper_white();
    let (inner, chrome) = compute_inner_area(area, &theme);
    let (rect, text) = plan_chrome(theme.chrome, chrome, inner, 0, 1).counter.expect("a counter");
    assert_eq!(rect.y, area.height - 1);
    assert!(text.contains("1 / 1"), "counter was {:?}", text);
}

#[test]
fn paper_white_counter_reflects_slide_index_and_total() {
    let area = Rect::new(0, 0, 80, 24);
    let theme = Theme::paper_white();
    let src = "# A\n\n---\n\n# B\n\n---\n\n# C\n\n---\n\n# D\n\n---\n\n# E\n";
    let deck = oxlide::parse_deck(src).unwrap();
    assert_eq!(deck.slides.len(), 5);
    let (inner, chrome) = compute_inner_area(area, &theme);
    let (_, text) = plan_chrome(theme.chrome, chrome, inner, 2, 5).counter.expect("a counter");
    assert!(text.contains("3 / 5"), "counter was {:?}", text);
}

#[test]
fn decimal_writes_numbers() {
    assert_eq!(decimal(0), "0");
    assert_eq!(decimal(7), "7");
    assert_eq!(decimal(10), "10");
    assert_eq!(decimal(1234567890), "1234567890");
    assert_eq!(decimal(usize::MAX), usize::MAX.to_string());
}

#[test]
fn cell_areas_place_blocks_around_the_blank_row() {
    let areas = cell_areas(&cell(vec![heading(1), para()]), Rect::new(3, 2, 40, 10));
    assert_eq!(areas.len(), 2);
    assert_eq!(areas[0].0, 0);
    assert_eq!(areas[1].0, 1);
    let (a, b) = (areas[0].1, areas[1].1);
    assert_eq!((a.x, a.width, b.x, b.width), (3, 40, 3, 40));
    assert_eq!(a.y, 2);
    // One blank row between the heading and the paragraph, all ten rows used.
    assert_eq!(b.y, a.y + a.height + 1);
    assert_eq!(a.height + 1 + b.height, 10);
    assert!(a.height >= 1 && b.height >= 1);
}

#[test]
fn cell_areas_of_an_empty_cell_or_area_are_none() {
    assert!(cell_areas(&cell(vec![]), Rect::new(0, 0, 40, 10)).is_empty());
    assert!(cell_areas(&cell(vec![para()]), Rect::new(0, 0, 0, 10)).is_empty());
}

#[test]
fn cell_areas_one_block_takes_the_area() {
    assert_eq!(cell_areas(&cell(vec![para()]), Rect::new(1, 1, 20, 5)), vec![(0, Rect::new(1, 1, 20, 5))]);
}

#[test]
fn place_rows_names_each_block_with_its_row() {
    let r0 = Rect::new(0, 0, 10, 3);
    let r1 = Rect::new(0, 3, 10, 1);
    let r2 = Rect::new(0, 4, 10, 6);
    assert_eq!(place_rows(&vec![Some(0), None, Some(1)], &vec![r0, r1, r2]), vec![(0, r0), (1, r2)]);
}

#[test]
fn plan_qr_for_given_widths() {
    let area = Rect::new(0, 0, 80, 40);
    match plan_qr_for(" https://x.com ", area, Some(21)) {
        QrPlan::Code { data, at, caption } => {
            assert_eq!(data, "https://x.com");
            assert_eq!(at, Rect::new(25, 12, 29, 15));
            assert_eq!(caption, Some((Rect::new(0, 39, 80, 1), "https://x.com".to_string())));
        }
        other => panic!("expected a code, got {:?}", other),
    }
    assert_eq!(
        plan_qr_for("https://x.com", area, None),
        QrPlan::Problem { problem: QrProblem::CannotEncode, text: "https://x.com".to_string() }
    );
    assert_eq!(
        plan_qr_for("https://x.com", area, Some(100)),
        QrPlan::Problem { problem: QrProblem::TooSmall, text: "https://x.com".to_string() }
    );
    assert_eq!(
        plan_qr_for("https://x.com", area, Some(usize::MAX)),
        QrPlan::Problem { problem: QrProblem::TooSmall, text: "https://x.com".to_string() }
    );
    assert_eq!(plan_qr_for("", area, Some(21)), QrPlan::Problem { problem: QrProblem::EmptyUrl, text: String::new() });
    assert_eq!(plan_qr_for("https://x.com", Rect::new(0, 0, 0, 5), Some(21)), QrPlan::Nothing);
}

#[test]
fn truncate_with_given_widths() {
    assert_eq!(truncate_with_widths("abc", &vec![1, 2, 1], 1, 4), "abc");
    assert_eq!(truncate_with_widths("abc", &vec![1, 2, 1], 1, 3), "a…");
    assert_eq!(truncate_with_widths("abc", &vec![1, 2, 1], 2, 2), "…");
    assert_eq!(truncate_with_widths("abc", &vec![1, 2, 1], 1, 0), "");
    assert_eq!(truncate_with_widths("a\u{301}bc", &vec![1, 0, 1, 1], 1, 2), "a\u{301}…");
}
