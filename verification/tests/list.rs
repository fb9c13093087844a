use oxlide::layout::Rect;
use oxlide::parser::{Block, InlineSpan, ListItem, SourceSpan};
use oxlide::render::list::{list_layout, ListDraw};

fn sp() -> SourceSpan {
    SourceSpan { start: 0, end: 0 }
}

fn para(s: &str) -> Block {
    Block::Paragraph { spans: vec![InlineSpan::Text(s.to_string())], span: sp() }
}

fn item(blocks: Vec<Block>) -> ListItem {
    ListItem { blocks, span: sp() }
}

fn list(ordered: bool, items: Vec<ListItem>) -> Block {
    Block::List { ordered, items, span: sp() }
}

/// Each draw as its kind, area and text (a line's first text span).
fn describe(draws: &[ListDraw]) -> Vec<(&'static str, Rect, String)> {
    draws
        .iter()
        .map(|d| match d {
            ListDraw::Marker { at, text } => ("marker", *at, text.clone()),
            ListDraw::Line { at, spans } => {
                let t = match spans.first() {
                    Some(InlineSpan::Text(t)) => t.clone(),
                    _ => String::new(),
                };
                ("line", *at, t)
            }
        })
        .collect()
}

#[test]
fn list_layout_bullets_one_row_per_item() {
    let items = vec![item(vec![para("a")]), item(vec![para("b")])];
    let (draws, used) = list_layout(false, &items, 0, Rect::new(1, 2, 40, 10));
    assert_eq!(used, 2);
    assert_eq!(
        describe(&draws),
        vec![
            ("marker", Rect::new(1, 2, 2, 1), "• ".to_string()),
            ("line", Rect::new(3, 2, 38, 1), "a".to_string()),
            ("marker", Rect::new(1, 3, 2, 1), "• ".to_string()),
            ("line", Rect::new(3, 3, 38, 1), "b".to_string()),
        ]
    );
}

#[test]
fn list_layout_numbers_and_indents_nested_lists() {
    let items = vec![
        item(vec![para("one"), list(false, vec![item(vec![para("inner")])])]),
        item(vec![para("two"), para("more")]),
    ];
    let (draws, used) = list_layout(true, &items, 0, Rect::new(0, 0, 40, 10));
    assert_eq!(used, 4);
    assert_eq!(
        describe(&draws),
        vec![
            ("marker", Rect::new(0, 0, 3, 1), "1. ".to_string()),
            ("line", Rect::new(3, 0, 37, 1), "one".to_string()),
            ("marker", Rect::new(2, 1, 2, 1), "• ".to_string()),
            ("line", Rect::new(4, 1, 36, 1), "inner".to_string()),
            ("marker", Rect::new(0, 2, 3, 1), "2. ".to_string()),
            ("line", Rect::new(3, 2, 37, 1), "two".to_string()),
            ("line", Rect::new(3, 3, 37, 1), "more".to_string()),
        ]
    );
}

#[test]
fn list_layout_stops_at_the_bottom_of_the_area() {
    let items = vec![item(vec![para("a")]), item(vec![para("b")])];
    let (draws, used) = list_layout(false, &items, 0, Rect::new(0, 0, 40, 1));
    assert_eq!(used, 1);
    assert_eq!(describe(&draws).len(), 2);
}

#[test]
fn list_layout_skips_text_when_the_marker_fills_the_width() {
    let items = vec![item(vec![para("a")])];
    let (draws, used) = list_layout(true, &items, 0, Rect::new(0, 0, 3, 5));
    assert_eq!(used, 1);
    assert!(draws.is_empty());
}

#[test]
fn list_layout_other_blocks_take_a_blank_row() {
    let items = vec![item(vec![
        Block::Qr { url: "https://x.com".to_string(), span: sp() },
        para("after"),
    ])];
    let (draws, used) = list_layout(false, &items, 0, Rect::new(0, 0, 40, 5));
    assert_eq!(used, 2);
    assert_eq!(describe(&draws), vec![("line", Rect::new(2, 1, 38, 1), "after".to_string())]);
}

#[test]
fn list_layout_of_no_items_or_area_is_empty() {
    let none: Vec<ListItem> = vec![];
    let (draws, used) = list_layout(false, &none, 0, Rect::new(0, 0, 40, 5));
    assert!(draws.is_empty() && used == 0);
    let items = vec![item(vec![para("a")])];
    let (draws, used) = list_layout(false, &items, 0, Rect::new(0, 0, 40, 0));
    assert!(draws.is_empty() && used == 0);
}
