use oxlide::parser::{
    directive_args, directive_name, parse_deck, Block, Directive, ImageAlign, ImageSize,
    InlineSpan, ParseError, SlideDeck,
};

fn deck(source: &str) -> SlideDeck {
    parse_deck(source).expect("parse_deck should not fail")
}

fn opacity(meta: &oxlide::parser::ImageMeta) -> Option<f32> {
    meta.opacity.map(|o| o.parts_per_billion as f32 / 1_000_000_000.0)
}

const MULTI_SLIDE_RULE: &str = "# One\n\n\tFirst slide.\n\n---\n\n# Two\n\n\tSecond slide.\n";
const MULTI_SLIDE_DOUBLE_BLANK: &str = "# One\n\n\tFirst slide.\n\n\n# Two\n";
const CELL_BREAK_SINGLE_BLANK: &str = "\tCell one.\n\n\tCell two.\n";
const SINGLE_SLIDE_PARAGRAPH: &str = "\tJust one paragraph.\n";
const SINGLE_SLIDE_HEADING: &str = "# Only a heading\n";
const NESTED_LIST: &str = "\t- outer\n\t  - inner\n";
const ORDERED_LIST: &str = "\t1. first\n\t2. second\n";
const EMPTY_INPUT: &str = "";
const LEADING_TRAILING_RULE: &str = "---\n\n# Middle\n\n---\n";
const DIRECTIVE_ON_SLIDE: &str = "<!-- oxlide-fx: fade duration=300 -->\n\n# Slide\n";
const DIRECTIVE_ON_CELL: &str = "# Title\n<!-- oxlide-layout: title-ascii -->\n";
const DIRECTIVE_EMPTY_ARGS: &str = "<!-- oxlide-fx: -->\n\n# Slide\n";
const DIRECTIVE_MULTIPLE: &str =
    "<!-- oxlide-fx: fade -->\n\n# Title\n<!-- oxlide-layout: title-ascii -->\n";
const NON_OXLIDE_COMMENT_IGNORED: &str = "<!-- just a note to self -->\n\n# Slide\n";
const INTERNAL_SENTINEL_NOT_LEAKED: &str = "# One\n\n\tText.\n\n\n\n# Two\n";
const DIRECTIVE_WHITESPACE_TOLERANCE: &str =
    "<!--oxlide-fx:fade-->\n<!--   oxlide-fx   :   fade   -->\n\n# Slide\n";
const DIRECTIVE_WITH_HYPHENS: &str = "<!-- oxlide-image-meta-disable: true -->\n\n# Slide\n";
const INLINE_BOLD: &str = "\t**hello**\n";
const INLINE_ITALIC: &str = "\t*italic*\n";
const INLINE_CODE: &str = "\tplain `code` here\n";
const INLINE_LINK: &str = "\t[click](https://x.com)\n";
const NESTED_BOLD_ITALIC: &str = "\t**_a_**\n";
const AUTOLINK: &str = "\t<https://example.com>\n";
const LINK_WITH_CODE_TEXT: &str = "\t[`code`](https://x.com)\n";
const HARD_BREAK: &str = "\tfoo  \n\tbar\n";
const SOFT_BREAK_COALESCED: &str = "\tfoo\n\tbar\n";
const ADJACENT_TEXT_COALESCED: &str = "\tfoo\\*bar\n";
const BLOCK_IMAGE: &str = "![logo](logo.png)\n";
const INLINE_IMAGE: &str = "\tLook at ![this](pic.png) thing\n";
const IMAGE_NO_ALT: &str = "![](logo.png)\n";
const IMAGE_WITH_TITLE_IGNORED: &str = "![alt](path.png \"title\")\n";
const MULTIPLE_IMAGES_INLINE: &str = "\t![a](a.png) ![b](b.png)\n";
const IMAGE_IN_HEADING: &str = "# Title ![logo](logo.png)\n";
const IMAGE_WITH_SURROUNDING_WHITESPACE: &str = "\t ![logo](logo.png) and some words \n";
const IA_IMAGE_WITH_ALL_KEYS: &str = "hero.png\n\tsize: contain\n\tx: right\n\ty: top\n\tbackground: \"#fff\"\n\topacity: 0.5\n";
const IA_IMAGE_NO_METADATA: &str = "hero.png\n";
const IA_IMAGE_QUOTED_VALUES: &str = "hero.png\n\tbackground: '#fff'\n\tsize: \"contain\"\n";
const IA_IMAGE_UNKNOWN_KEY_IGNORED: &str = "hero.png\n\tsize: contain\n\tflavor: vanilla\n";
const IA_IMAGE_INVALID_OPACITY: &str = "hero.png\n\topacity: 1.5\n";
const IA_IMAGE_NON_IMAGE_EXTENSION: &str = "notes.txt\n";
const IA_IMAGE_KEBAB_CASE_SIZE: &str = "hero.png\n    size: fit-width\n";
const CODE_WITH_LANG: &str = "```rust\nfn main() {}\n```\n";
const CODE_NO_LANG: &str = "```\nplain text\n```\n";
const EMPTY_CODE: &str = "```rust\n```\n";
const CODE_WITH_METADATA_SUFFIX: &str = "```rust title=\"main.rs\"\nfn main() {}\n```\n";
const TILDE_FENCES: &str = "~~~rust\nfn main() {}\n~~~\n";
const CODE_WITH_BLANK_LINES_INSIDE: &str = "```\nline 1\n\nline 3\n---\nline 5\n```\n";
const INDENTED_BLOCK_ERRORS: &str = "    let x = 1;\n";
const NOTES_ONLY_SLIDE: &str = "First note.\n\nSecond note.\n";
const MIXED_NOTES_AND_VISIBLE: &str = "# Title\n\nA note for the speaker.\n\n\tVisible text.\n";
const ALL_VISIBLE_TAB_INDENT: &str = "\tOne.\n\n\tTwo.\n\n\tThree.\n";
const FENCED_CODE_NOT_INVERTED: &str = "```\nlet x = 1;\n```\n";
const LIST_TAB_INDENT: &str = "\t- a\n\t- b\n\t- c\n";
const LIST_MIXED_INDENT: &str = "\t- a\n\t- b\n\n* c\n* d\n";
const EDGE_MIXED_LEADING_WHITESPACE: &str = " \tMixed indentation.\n";
const SPAN_POINTS_TO_ORIGINAL_SOURCE: &str =
    "# Heading\n\nThe quick brown fox is a note.\n\n\tVisible paragraph.\n";

#[test]
fn acceptance_two_slides_with_rule() {
    let src = "# Hello\n\n\tWorld\n\n---\n\n# Two";
    let d = deck(src);
    assert_eq!(d.slides.len(), 2);
    assert_eq!(d.slides[0].cells.len(), 2, "heading + paragraph as 2 cells");
    assert!(matches!(d.slides[0].cells[0].blocks[0], Block::Heading { level: 1, .. }));
    assert!(matches!(d.slides[0].cells[1].blocks[0], Block::Paragraph { .. }));
    assert_eq!(d.slides[1].cells.len(), 1);
    assert!(matches!(d.slides[1].cells[0].blocks[0], Block::Heading { level: 1, .. }));
}

#[test]
fn acceptance_two_slides_double_blank() {
    let d = deck("# A\n\n\n\n# B");
    assert_eq!(d.slides.len(), 2);
}

#[test]
fn acceptance_cell_break_single_blank() {
    let d = deck("\tPara A\n\n\tPara B");
    assert_eq!(d.slides.len(), 1);
    assert_eq!(d.slides[0].cells.len(), 2);
}

#[test]
fn empty_input_produces_empty_deck() {
    let d = deck("");
    assert!(d.slides.is_empty());
    assert_eq!(d.source, "");
}

#[test]
fn only_blank_lines_produces_empty_deck() {
    let d = deck("\n\n\n");
    assert!(d.slides.is_empty());
}

#[test]
fn source_preserved_on_deck() {
    let src = "# Hello";
    let d = deck(src);
    assert_eq!(d.source, src);
}

#[test]
fn heading_levels_one_to_six() {
    for (i, prefix) in ["#", "##", "###", "####", "#####", "######"].iter().enumerate() {
        let src = format!("{} heading", prefix);
        let d = deck(&src);
        match &d.slides[0].cells[0].blocks[0] {
            Block::Heading { level, .. } => assert_eq!(*level as usize, i + 1),
            other => panic!("expected heading, got {:?}", other),
        }
    }
}

#[test]
fn spans_reference_original_source_byte_offsets() {
    let src = "# A\n\n\n\n# B";
    let d = deck(src);
    assert_eq!(d.slides.len(), 2);
    let h1 = &d.slides[0].cells[0].blocks[0];
    if let Block::Heading { span, .. } = h1 {
        assert_eq!(&src[span.start..span.end].trim_end(), &"# A");
    } else {
        panic!("expected heading");
    }
    let h2 = &d.slides[1].cells[0].blocks[0];
    if let Block::Heading { span, .. } = h2 {
        assert_eq!(&src[span.start..span.end].trim_end(), &"# B");
    } else {
        panic!("expected heading");
    }
}

#[test]
fn nested_list_preserves_structure() {
    let src = "\t- outer\n\t  - inner\n";
    let d = deck(src);
    let outer = &d.slides[0].cells[0].blocks[0];
    if let Block::List { ordered: false, items, .. } = outer {
        assert_eq!(items.len(), 1);
        let outer_item = &items[0];
        let inner = outer_item.blocks.iter().find(|b| matches!(b, Block::List { .. }));
        assert!(inner.is_some(), "outer item should contain nested list");
    } else {
        panic!("expected outer unordered list, got {:?}", outer);
    }
}

#[test]
fn single_slide_when_no_break() {
    let d = deck("# heading\n\n\tpara\n\n\tpara2\n");
    assert_eq!(d.slides.len(), 1);
    assert_eq!(d.slides[0].cells.len(), 3);
}

#[test]
fn consecutive_rules_do_not_emit_empty_slides() {
    let d = deck("# A\n\n---\n\n---\n\n# B");
    assert_eq!(d.slides.len(), 2);
}

#[test]
fn fixture_multi_slide_rule() {
    let d = deck(MULTI_SLIDE_RULE);
    assert_eq!(d.slides.len(), 2);
}

#[test]
fn fixture_multi_slide_double_blank() {
    let d = deck(MULTI_SLIDE_DOUBLE_BLANK);
    assert_eq!(d.slides.len(), 2);
}

#[test]
fn fixture_cell_break_single_blank() {
    let d = deck(CELL_BREAK_SINGLE_BLANK);
    assert_eq!(d.slides.len(), 1);
    assert_eq!(d.slides[0].cells.len(), 2);
}

#[test]
fn fixture_single_slide_paragraph() {
    let d = deck(SINGLE_SLIDE_PARAGRAPH);
    assert_eq!(d.slides.len(), 1);
    assert_eq!(d.slides[0].cells.len(), 1);
}

#[test]
fn fixture_single_slide_heading() {
    let d = deck(SINGLE_SLIDE_HEADING);
    assert_eq!(d.slides.len(), 1);
    assert!(matches!(d.slides[0].cells[0].blocks[0], Block::Heading { .. }));
}

#[test]
fn fixture_nested_list() {
    let d = deck(NESTED_LIST);
    assert!(matches!(d.slides[0].cells[0].blocks[0], Block::List { .. }));
}

#[test]
fn fixture_ordered_list() {
    let d = deck(ORDERED_LIST);
    if let Block::List { ordered, .. } = &d.slides[0].cells[0].blocks[0] {
        assert!(ordered);
    } else {
        panic!("expected ordered list");
    }
}

#[test]
fn fixture_empty_input() {
    let d = deck(EMPTY_INPUT);
    assert!(d.slides.is_empty());
}

#[test]
fn fixture_leading_trailing_rule() {
    let d = deck(LEADING_TRAILING_RULE);
    assert_eq!(d.slides.len(), 1);
}

#[test]
fn fixture_directive_on_slide() {
    // Directive at the top of the file is captured as deck-level.
    let d = deck(DIRECTIVE_ON_SLIDE);
    assert_eq!(d.slides.len(), 1);
    assert_eq!(d.directives.len(), 1);
    assert_eq!(directive_name(&d.directives[0]), "fx");
    assert_eq!(directive_args(&d.directives[0]), "fade duration=300");
    assert!(d.slides[0].directives.is_empty());
    for cell in &d.slides[0].cells {
        assert!(cell.directives.is_empty());
    }
}

#[test]
fn fixture_directive_on_cell() {
    let d = deck(DIRECTIVE_ON_CELL);
    assert_eq!(d.slides.len(), 1);
    assert!(d.slides[0].directives.is_empty());
    let with_directive = d.slides[0]
        .cells
        .iter()
        .find(|c| !c.directives.is_empty())
        .expect("expected a cell with a directive");
    assert_eq!(with_directive.directives.len(), 1);
    assert_eq!(directive_name(&with_directive.directives[0]), "layout");
    assert_eq!(directive_args(&with_directive.directives[0]), "title-ascii");
}

#[test]
fn fixture_directive_empty_args() {
    let d = deck(DIRECTIVE_EMPTY_ARGS);
    assert_eq!(d.directives.len(), 1);
    assert_eq!(directive_name(&d.directives[0]), "fx");
    assert_eq!(directive_args(&d.directives[0]), "");
}

#[test]
fn fixture_directive_multiple_in_source_order() {
    let d = deck(DIRECTIVE_MULTIPLE);
    let all: Vec<&Directive> = d
        .directives
        .iter()
        .chain(d.slides[0].directives.iter())
        .chain(d.slides[0].cells.iter().flat_map(|c| c.directives.iter()))
        .collect();
    assert_eq!(all.len(), 2);
    let names: Vec<&str> = all.iter().map(|d| directive_name(d)).collect();
    assert_eq!(names, vec!["fx", "layout"]);
}

#[test]
fn fixture_non_oxlide_comment_ignored() {
    let d = deck(NON_OXLIDE_COMMENT_IGNORED);
    assert!(d.slides[0].directives.is_empty());
    for cell in &d.slides[0].cells {
        assert!(cell.directives.is_empty());
    }
}

#[test]
fn fixture_internal_sentinel_not_leaked() {
    let d = deck(INTERNAL_SENTINEL_NOT_LEAKED);
    assert!(d.slides[0].directives.is_empty());
    for cell in &d.slides[0].cells {
        assert!(cell.directives.is_empty());
    }
}

#[test]
fn fixture_directive_whitespace_tolerance() {
    let d = deck(DIRECTIVE_WHITESPACE_TOLERANCE);
    let all: Vec<&Directive> = d
        .directives
        .iter()
        .chain(d.slides[0].directives.iter())
        .chain(d.slides[0].cells.iter().flat_map(|c| c.directives.iter()))
        .collect();
    assert_eq!(all.len(), 2);
    for directive in &all {
        assert_eq!(directive_name(directive), "fx");
        assert_eq!(directive_args(directive), "fade");
    }
}

#[test]
fn fixture_directive_with_hyphens() {
    let d = deck(DIRECTIVE_WITH_HYPHENS);
    assert_eq!(d.directives.len(), 1);
    assert_eq!(directive_name(&d.directives[0]), "image-meta-disable");
    assert_eq!(directive_args(&d.directives[0]), "true");
}

#[test]
fn directive_span_points_into_original_source() {
    let src = "<!-- oxlide-fx: fade -->\n\n# Slide";
    let d = deck(src);
    let dir = &d.directives[0];
    let Directive::Raw { span, .. } = dir;
    let slice = &src[span.start..span.end];
    assert!(slice.contains("oxlide-fx"), "expected span to cover comment, got {:?}", slice);
}

fn first_paragraph_spans(d: &SlideDeck) -> &[InlineSpan] {
    match &d.slides[0].cells[0].blocks[0] {
        Block::Paragraph { spans, .. } => spans,
        other => panic!("expected first block to be paragraph, got {:?}", other),
    }
}

#[test]
fn fixture_inline_bold() {
    let d = deck(INLINE_BOLD);
    let spans = first_paragraph_spans(&d);
    assert_eq!(spans, &[InlineSpan::Strong(vec![InlineSpan::Text("hello".into())])]);
}

#[test]
fn fixture_inline_italic() {
    let d = deck(INLINE_ITALIC);
    let spans = first_paragraph_spans(&d);
    assert_eq!(spans, &[InlineSpan::Emphasis(vec![InlineSpan::Text("italic".into())])]);
}

#[test]
fn fixture_inline_code() {
    let d = deck(INLINE_CODE);
    let spans = first_paragraph_spans(&d);
    assert_eq!(
        spans,
        &[
            InlineSpan::Text("plain ".into()),
            InlineSpan::Code("code".into()),
            InlineSpan::Text(" here".into()),
        ]
    );
}

#[test]
fn fixture_inline_link() {
    let d = deck(INLINE_LINK);
    let spans = first_paragraph_spans(&d);
    assert_eq!(
        spans,
        &[InlineSpan::Link {
            url: "https://x.com".into(),
            text: vec![InlineSpan::Text("click".into())],
        }]
    );
}

#[test]
fn fixture_nested_bold_italic() {
    let d = deck(NESTED_BOLD_ITALIC);
    let spans = first_paragraph_spans(&d);
    assert_eq!(
        spans,
        &[InlineSpan::Strong(vec![InlineSpan::Emphasis(vec![InlineSpan::Text("a".into())])])]
    );
}

#[test]
fn fixture_autolink() {
    let d = deck(AUTOLINK);
    let spans = first_paragraph_spans(&d);
    assert_eq!(
        spans,
        &[InlineSpan::Link {
            url: "https://example.com".into(),
            text: vec![InlineSpan::Text("https://example.com".into())],
        }]
    );
}

#[test]
fn fixture_link_with_code_text() {
    let d = deck(LINK_WITH_CODE_TEXT);
    let spans = first_paragraph_spans(&d);
    assert_eq!(
        spans,
        &[InlineSpan::Link {
            url: "https://x.com".into(),
            text: vec![InlineSpan::Code("code".into())],
        }]
    );
}

#[test]
fn fixture_hard_break() {
    let d = deck(HARD_BREAK);
    let spans = first_paragraph_spans(&d);
    assert_eq!(spans, &[InlineSpan::Text("foo\nbar".into())]);
}

#[test]
fn fixture_soft_break_coalesced() {
    let d = deck(SOFT_BREAK_COALESCED);
    let spans = first_paragraph_spans(&d);
    assert_eq!(spans, &[InlineSpan::Text("foo bar".into())]);
}

#[test]
fn fixture_adjacent_text_coalesced() {
    let d = deck(ADJACENT_TEXT_COALESCED);
    let spans = first_paragraph_spans(&d);
    assert_eq!(spans, &[InlineSpan::Text("foo*bar".into())]);
}

#[test]
fn fixture_block_image() {
    let d = deck(BLOCK_IMAGE);
    match &d.slides[0].cells[0].blocks[0] {
        Block::Image { src, alt, .. } => {
            assert_eq!(src, "logo.png");
            assert_eq!(alt, "logo");
        }
        other => panic!("expected Block::Image, got {:?}", other),
    }
}

#[test]
fn fixture_inline_image() {
    let d = deck(INLINE_IMAGE);
    let spans = first_paragraph_spans(&d);
    assert_eq!(
        spans,
        &[
            InlineSpan::Text("Look at ".into()),
            InlineSpan::Image { src: "pic.png".into(), alt: "this".into() },
            InlineSpan::Text(" thing".into()),
        ]
    );
}

#[test]
fn fixture_image_no_alt() {
    let d = deck(IMAGE_NO_ALT);
    match &d.slides[0].cells[0].blocks[0] {
        Block::Image { src, alt, .. } => {
            assert_eq!(src, "logo.png");
            assert_eq!(alt, "");
        }
        other => panic!("expected Block::Image, got {:?}", other),
    }
}

#[test]
fn fixture_image_with_title_ignored() {
    let d = deck(IMAGE_WITH_TITLE_IGNORED);
    match &d.slides[0].cells[0].blocks[0] {
        Block::Image { src, alt, .. } => {
            assert_eq!(src, "path.png");
            assert_eq!(alt, "alt");
        }
        other => panic!("expected Block::Image, got {:?}", other),
    }
}

#[test]
fn fixture_multiple_images_inline() {
    let d = deck(MULTIPLE_IMAGES_INLINE);
    let spans = first_paragraph_spans(&d);
    assert_eq!(
        spans,
        &[
            InlineSpan::Image { src: "a.png".into(), alt: "a".into() },
            InlineSpan::Text(" ".into()),
            InlineSpan::Image { src: "b.png".into(), alt: "b".into() },
        ]
    );
}

#[test]
fn fixture_image_in_heading() {
    let d = deck(IMAGE_IN_HEADING);
    match &d.slides[0].cells[0].blocks[0] {
        Block::Heading { level, spans, .. } => {
            assert_eq!(*level, 1);
            assert_eq!(
                spans,
                &[
                    InlineSpan::Text("Title ".into()),
                    InlineSpan::Image { src: "logo.png".into(), alt: "logo".into() },
                ]
            );
        }
        other => panic!("expected heading, got {:?}", other),
    }
}

#[test]
fn fixture_image_with_surrounding_whitespace_stays_paragraph() {
    let d = deck(IMAGE_WITH_SURROUNDING_WHITESPACE);
    match &d.slides[0].cells[0].blocks[0] {
        Block::Paragraph { spans, .. } => {
            let has_image = spans.iter().any(|s| matches!(s, InlineSpan::Image { .. }));
            assert!(has_image, "expected an inline image span");
            assert!(spans.len() > 1, "expected paragraph to have multiple spans, got {:?}", spans);
        }
        other => panic!("expected Block::Paragraph (not promoted), got {:?}", other),
    }
}

#[test]
fn heading_preserves_inline_spans() {
    let d = deck("## **bold** heading");
    match &d.slides[0].cells[0].blocks[0] {
        Block::Heading { level, spans, .. } => {
            assert_eq!(*level, 2);
            assert_eq!(
                spans,
                &[
                    InlineSpan::Strong(vec![InlineSpan::Text("bold".into())]),
                    InlineSpan::Text(" heading".into()),
                ]
            );
        }
        other => panic!("expected heading, got {:?}", other),
    }
}

#[test]
fn list_item_preserves_inline_spans() {
    let d = deck("\t- plain `code` text");
    match &d.slides[0].cells[0].blocks[0] {
        Block::List { items, .. } => {
            let item = &items[0];
            match &item.blocks[0] {
                Block::Paragraph { spans, .. } => {
                    assert_eq!(
                        spans,
                        &[
                            InlineSpan::Text("plain ".into()),
                            InlineSpan::Code("code".into()),
                            InlineSpan::Text(" text".into()),
                        ]
                    );
                }
                other => panic!("expected paragraph in item, got {:?}", other),
            }
        }
        other => panic!("expected list, got {:?}", other),
    }
}

#[test]
fn fixture_ia_image_with_all_keys() {
    let d = deck(IA_IMAGE_WITH_ALL_KEYS);
    match &d.slides[0].cells[0].blocks[0] {
        Block::Image { src, alt, meta, .. } => {
            assert_eq!(src, "hero.png");
            assert_eq!(alt, "");
            let meta = meta.as_ref().expect("meta should be attached");
            assert_eq!(meta.size, Some(ImageSize::Contain));
            assert_eq!(meta.x, Some(ImageAlign::End));
            assert_eq!(meta.y, Some(ImageAlign::Start));
            assert_eq!(meta.background.as_deref(), Some("#fff"));
            assert_eq!(opacity(meta), Some(0.5));
        }
        other => panic!("expected Block::Image, got {:?}", other),
    }
}

#[test]
fn fixture_ia_image_no_metadata() {
    let d = deck(IA_IMAGE_NO_METADATA);
    match &d.slides[0].cells[0].blocks[0] {
        Block::Image { src, alt, meta, .. } => {
            assert_eq!(src, "hero.png");
            assert_eq!(alt, "");
            assert!(meta.is_none());
        }
        other => panic!("expected Block::Image, got {:?}", other),
    }
}

#[test]
fn fixture_ia_image_quoted_values() {
    let d = deck(IA_IMAGE_QUOTED_VALUES);
    match &d.slides[0].cells[0].blocks[0] {
        Block::Image { meta, .. } => {
            let meta = meta.as_ref().expect("meta should be attached");
            assert_eq!(meta.background.as_deref(), Some("#fff"));
            assert_eq!(meta.size, Some(ImageSize::Contain));
        }
        other => panic!("expected Block::Image, got {:?}", other),
    }
}

#[test]
fn fixture_ia_image_unknown_key_ignored() {
    let d = deck(IA_IMAGE_UNKNOWN_KEY_IGNORED);
    match &d.slides[0].cells[0].blocks[0] {
        Block::Image { meta, .. } => {
            let meta = meta.as_ref().expect("meta should be attached");
            assert_eq!(meta.size, Some(ImageSize::Contain));
        }
        other => panic!("expected Block::Image, got {:?}", other),
    }
}

#[test]
fn fixture_ia_image_invalid_opacity_errors() {
    let err = parse_deck(IA_IMAGE_INVALID_OPACITY).expect_err("should error on invalid opacity");
    match err {
        ParseError::InvalidImageMeta { key, value, .. } => {
            assert_eq!(key, "opacity");
            assert_eq!(value, "1.5");
        }
        other => panic!("expected InvalidImageMeta, got {:?}", other),
    }
}

#[test]
fn fixture_ia_image_non_image_extension_falls_through() {
    let d = deck(IA_IMAGE_NON_IMAGE_EXTENSION);
    let has_image_block = d.slides[0]
        .cells
        .iter()
        .flat_map(|c| &c.blocks)
        .any(|b| matches!(b, Block::Image { .. }));
    assert!(!has_image_block, "non-image extension should not produce Block::Image");
}

#[test]
fn fixture_ia_image_kebab_case_size() {
    let d = deck(IA_IMAGE_KEBAB_CASE_SIZE);
    match &d.slides[0].cells[0].blocks[0] {
        Block::Image { meta, .. } => {
            let meta = meta.as_ref().expect("meta should be attached");
            assert_eq!(meta.size, Some(ImageSize::FitWidth));
        }
        other => panic!("expected Block::Image, got {:?}", other),
    }
}

#[test]
fn fixture_code_with_lang() {
    let src = CODE_WITH_LANG;
    let d = deck(src);
    match &d.slides[0].cells[0].blocks[0] {
        Block::CodeBlock { lang, source, span } => {
            assert_eq!(lang.as_deref(), Some("rust"));
            assert_eq!(source, "fn main() {}\n");
            let slice = &src[span.start..span.end];
            assert!(slice.starts_with("```rust"), "span should start at opening fence, got {:?}", slice);
            assert!(
                slice.contains("```\n") || slice.ends_with("```"),
                "span should cover closing fence, got {:?}",
                slice
            );
        }
        other => panic!("expected Block::CodeBlock, got {:?}", other),
    }
}

#[test]
fn fixture_code_no_lang() {
    let d = deck(CODE_NO_LANG);
    match &d.slides[0].cells[0].blocks[0] {
        Block::CodeBlock { lang, source, .. } => {
            assert!(lang.is_none());
            assert_eq!(source, "plain text\n");
        }
        other => panic!("expected Block::CodeBlock, got {:?}", other),
    }
}

#[test]
fn fixture_empty_code() {
    let d = deck(EMPTY_CODE);
    match &d.slides[0].cells[0].blocks[0] {
        Block::CodeBlock { lang, source, .. } => {
            assert_eq!(lang.as_deref(), Some("rust"));
            assert_eq!(source, "");
        }
        other => panic!("expected Block::CodeBlock, got {:?}", other),
    }
}

#[test]
fn fixture_code_with_metadata_suffix() {
    let d = deck(CODE_WITH_METADATA_SUFFIX);
    match &d.slides[0].cells[0].blocks[0] {
        Block::CodeBlock { lang, source, .. } => {
            assert_eq!(lang.as_deref(), Some("rust"));
            assert_eq!(source, "fn main() {}\n");
        }
        other => panic!("expected Block::CodeBlock, got {:?}", other),
    }
}

#[test]
fn fixture_tilde_fences() {
    let d = deck(TILDE_FENCES);
    match &d.slides[0].cells[0].blocks[0] {
        Block::CodeBlock { lang, source, .. } => {
            assert_eq!(lang.as_deref(), Some("rust"));
            assert_eq!(source, "fn main() {}\n");
        }
        other => panic!("expected Block::CodeBlock, got {:?}", other),
    }
}

#[test]
fn fixture_code_with_blank_lines_inside() {
    let d = deck(CODE_WITH_BLANK_LINES_INSIDE);
    assert_eq!(d.slides.len(), 1, "blank line and --- inside fence must not split slides");
    assert_eq!(d.slides[0].cells.len(), 1);
    match &d.slides[0].cells[0].blocks[0] {
        Block::CodeBlock { source, .. } => {
            assert_eq!(source, "line 1\n\nline 3\n---\nline 5\n");
        }
        other => panic!("expected Block::CodeBlock, got {:?}", other),
    }
}

#[test]
fn fixture_indented_block_errors() {
    let err = parse_deck(INDENTED_BLOCK_ERRORS).expect_err("indented code block should error");
    assert!(matches!(err, ParseError::UnsupportedIndentedCodeBlock { .. }));
}

#[test]
fn slide_break_sentinel_does_not_appear_as_directive() {
    let d = deck("# A\n\n\n\n# B");
    assert_eq!(d.slides.len(), 2);
    for slide in &d.slides {
        assert!(slide.directives.is_empty());
        for cell in &slide.cells {
            assert!(cell.directives.is_empty());
        }
    }
}

#[test]
fn acceptance_notes_inversion_mixed() {
    let src = "# Title\n\nThis is speaker notes.\n\n\tThis is a visible paragraph.\n";
    let d = deck(src);
    assert_eq!(d.slides.len(), 1);
    let slide = &d.slides[0];
    assert_eq!(slide.cells.len(), 2);
    match &slide.cells[0].blocks[0] {
        Block::Heading { level, spans, .. } => {
            assert_eq!(*level, 1);
            assert_eq!(spans, &[InlineSpan::Text("Title".into())]);
        }
        other => panic!("expected heading, got {:?}", other),
    }
    match &slide.cells[1].blocks[0] {
        Block::Paragraph { spans, .. } => {
            assert_eq!(spans, &[InlineSpan::Text("This is a visible paragraph.".into())]);
        }
        other => panic!("expected visible paragraph, got {:?}", other),
    }
    assert_eq!(slide.notes.len(), 1);
    match &slide.notes[0] {
        Block::Paragraph { spans, .. } => {
            assert_eq!(spans, &[InlineSpan::Text("This is speaker notes.".into())]);
        }
        other => panic!("expected notes paragraph, got {:?}", other),
    }
}

#[test]
fn fixture_notes_only_slide() {
    let d = deck(NOTES_ONLY_SLIDE);
    assert_eq!(d.slides.len(), 1);
    assert!(d.slides[0].cells.is_empty());
    assert_eq!(d.slides[0].notes.len(), 2);
}

#[test]
fn fixture_mixed_notes_and_visible() {
    let d = deck(MIXED_NOTES_AND_VISIBLE);
    assert_eq!(d.slides.len(), 1);
    let slide = &d.slides[0];
    assert_eq!(slide.cells.len(), 2);
    assert!(matches!(slide.cells[0].blocks[0], Block::Heading { level: 1, .. }));
    assert!(matches!(slide.cells[1].blocks[0], Block::Paragraph { .. }));
    assert_eq!(slide.notes.len(), 1);
}

#[test]
fn fixture_all_visible_tab_indent() {
    let d = deck(ALL_VISIBLE_TAB_INDENT);
    assert_eq!(d.slides.len(), 1);
    assert_eq!(d.slides[0].cells.len(), 3);
    assert!(d.slides[0].notes.is_empty());
}

#[test]
fn fixture_fenced_code_not_inverted() {
    let d = deck(FENCED_CODE_NOT_INVERTED);
    assert_eq!(d.slides.len(), 1);
    assert_eq!(d.slides[0].cells.len(), 1);
    assert!(matches!(d.slides[0].cells[0].blocks[0], Block::CodeBlock { .. }));
    assert!(d.slides[0].notes.is_empty());
}

#[test]
fn fixture_list_tab_indent() {
    let d = deck(LIST_TAB_INDENT);
    assert_eq!(d.slides.len(), 1);
    assert_eq!(d.slides[0].cells.len(), 1);
    match &d.slides[0].cells[0].blocks[0] {
        Block::List { items, ordered, .. } => {
            assert!(!ordered);
            assert_eq!(items.len(), 3);
        }
        other => panic!("expected visible list, got {:?}", other),
    }
    assert!(d.slides[0].notes.is_empty());
}

#[test]
fn fixture_list_mixed_indent() {
    let d = deck(LIST_MIXED_INDENT);
    assert_eq!(d.slides.len(), 1);
    assert_eq!(d.slides[0].cells.len(), 1);
    match &d.slides[0].cells[0].blocks[0] {
        Block::List { items, .. } => assert_eq!(items.len(), 2),
        other => panic!("expected visible list, got {:?}", other),
    }
    assert_eq!(d.slides[0].notes.len(), 1);
    match &d.slides[0].notes[0] {
        Block::List { items, .. } => assert_eq!(items.len(), 2),
        other => panic!("expected notes list, got {:?}", other),
    }
}

#[test]
fn fixture_edge_mixed_leading_whitespace() {
    let d = deck(EDGE_MIXED_LEADING_WHITESPACE);
    assert_eq!(d.slides.len(), 1);
    assert!(d.slides[0].cells.is_empty());
    assert_eq!(d.slides[0].notes.len(), 1);
}

#[test]
fn fixture_span_points_to_original_source() {
    let src = SPAN_POINTS_TO_ORIGINAL_SOURCE;
    let d = deck(src);
    let slide = &d.slides[0];
    let heading = &slide.cells[0].blocks[0];
    if let Block::Heading { span, .. } = heading {
        assert!(src[span.start..span.end].contains("Heading"));
    } else {
        panic!("expected heading");
    }
    assert_eq!(slide.notes.len(), 1);
    let note = &slide.notes[0];
    if let Block::Paragraph { span, .. } = note {
        assert!(src[span.start..span.end].contains("quick brown fox"));
    } else {
        panic!("expected notes paragraph");
    }
    let visible = &slide.cells[1].blocks[0];
    if let Block::Paragraph { span, .. } = visible {
        assert!(src[span.start..span.end].contains("Visible paragraph"));
    } else {
        panic!("expected visible paragraph");
    }
}

fn fold_source(source: &str) -> SlideDeck {
    let out = oxlide::parser::prepass::prepass(source).unwrap();
    oxlide::parser::fold::fold(&out, source).unwrap()
}

#[test]
fn rule_produces_two_slides() {
    let deck = fold_source("A\n\n---\n\nB");
    assert_eq!(deck.slides.len(), 2);
}

#[test]
fn leading_rule_does_not_produce_empty_slide() {
    let deck = fold_source("---\n\nhello");
    assert_eq!(deck.slides.len(), 1);
}

#[test]
fn trailing_rule_does_not_produce_empty_slide() {
    let deck = fold_source("hello\n\n---\n");
    assert_eq!(deck.slides.len(), 1);
}

#[test]
fn heading_level_preserved() {
    let deck = fold_source("### three");
    if let Block::Heading { level, .. } = &deck.slides[0].cells[0].blocks[0] {
        assert_eq!(*level, 3);
    } else {
        panic!("expected heading");
    }
}

#[test]
fn engineering_note_groups_contiguous_blocks_into_one_cell() {
    let source = "<!-- fixture: one cell containing multiple blocks (heading + prose + list + code, no blank lines between) -->\n\n# Parser Usage\n\tParse a deck from a Markdown source string, then walk slides.\n\t- call `parse_deck(source)` once per load\n\t- iterate `deck.slides` for render\n\t- forward keys to the navigator\n```rust\nlet deck = parse_deck(&source)?;\nfor slide in &deck.slides {\n    render_slide(slide);\n}\n```\n";
    let deck = deck(source);
    assert_eq!(deck.slides.len(), 1);
    assert_eq!(deck.slides[0].cells.len(), 1);
    let blocks = &deck.slides[0].cells[0].blocks;
    assert_eq!(blocks.len(), 4);
    assert!(matches!(blocks[0], Block::Heading { .. }));
    assert!(matches!(blocks[1], Block::Paragraph { .. }));
    assert!(matches!(blocks[2], Block::List { .. }));
    assert!(matches!(blocks[3], Block::CodeBlock { .. }));
}

#[test]
fn directive_after_a_slide_break_goes_to_the_slide() {
    let d = deck("# A\n\n---\n\n<!-- oxlide-layout: wide -->\n\n# B\n");
    assert!(d.directives.is_empty());
    assert_eq!(d.slides[1].directives.len(), 1);
    assert_eq!(directive_name(&d.slides[1].directives[0]), "layout");
    assert_eq!(directive_args(&d.slides[1].directives[0]), "wide");
}

#[test]
fn reserved_names_are_not_directives() {
    let d = deck("<!-- oxlide-slide-break: x -->\n<!-- oxlide-image-meta: y -->\n\n# A\n");
    assert!(d.directives.is_empty());
}

#[test]
fn slide_and_cell_spans_cover_their_blocks() {
    let src = "# Title\n\n\tBody text.\n";
    let d = deck(src);
    let slide = &d.slides[0];
    assert_eq!(&src[slide.span.start..slide.span.start + 7], "# Title");
    assert!(src[slide.cells[1].span.start..slide.cells[1].span.end].contains("Body text."));
    assert!(slide.span.end >= slide.cells[1].span.end);
}

#[test]
fn block_quotes_are_passed_over() {
    let d = deck("> quoted\n\n# Kept\n");
    assert_eq!(d.slides.len(), 1);
    assert_eq!(d.slides[0].cells.len(), 1);
    assert!(matches!(d.slides[0].cells[0].blocks[0], Block::Heading { .. }));
    assert!(d.slides[0].notes.is_empty());
}

#[test]
fn loose_list_items_keep_their_paragraphs() {
    let d = deck("\t- one\n\n\t- two\n");
    match &d.slides[0].cells[0].blocks[0] {
        Block::List { items, .. } => {
            assert_eq!(items.len(), 2);
            assert!(matches!(items[1].blocks[0], Block::Paragraph { .. }));
        }
        other => panic!("expected list, got {:?}", other),
    }
}

#[test]
fn cells_and_slides_span_their_blocks() {
    let src = "# A\n## B\n\n```\ncode\n```\n\n---\n\n# C\n";
    let deck = parse_deck(src).expect("parses");
    assert_eq!(deck.slides.len(), 2);
    for slide in &deck.slides {
        for cell in &slide.cells {
            assert_eq!(cell.span.start, cell.blocks[0].span().start);
            assert_eq!(cell.span.end, cell.blocks.last().unwrap().span().end);
        }
        if slide.notes.is_empty() {
            assert_eq!(slide.span.start, slide.cells[0].span.start);
            assert_eq!(slide.span.end, slide.cells.last().unwrap().span.end);
        }
    }
    assert_eq!(deck.slides[0].cells.len(), 2);
}

fn assert_blocks_within(blocks: &[Block], n: usize) {
    for b in blocks {
        let sp = b.span();
        assert!(sp.start <= sp.end && sp.end <= n, "block span {:?} past {}", sp, n);
        if let Block::List { items, .. } = b {
            for item in items {
                assert!(item.span.start <= item.span.end && item.span.end <= n);
                assert_blocks_within(&item.blocks, n);
            }
        }
    }
}

#[test]
fn every_span_lies_within_the_source() {
    let sources = [
        MULTI_SLIDE_RULE,
        NESTED_LIST,
        LIST_MIXED_INDENT,
        MIXED_NOTES_AND_VISIBLE,
        NOTES_ONLY_SLIDE,
        IA_IMAGE_WITH_ALL_KEYS,
        CODE_WITH_BLANK_LINES_INSIDE,
        EDGE_MIXED_LEADING_WHITESPACE,
        "# One\n\n\t- a\n\t- b\n\n\n# Two\n\n\tText.\n\n\t1. x\n\t   - y\n",
    ];
    for src in sources {
        let d = deck(src);
        let n = src.len();
        for slide in &d.slides {
            assert!(slide.span.start <= slide.span.end && slide.span.end <= n);
            assert_blocks_within(&slide.notes, n);
            for cell in &slide.cells {
                assert!(cell.span.start <= cell.span.end && cell.span.end <= n);
                assert_blocks_within(&cell.blocks, n);
            }
        }
    }
}
