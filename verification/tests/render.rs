use oxlide::parser::{parse_deck, Directive, SourceSpan};
use oxlide::render::engine::resolve_image_path;
use oxlide::render::text::truncate_to_width;
use oxlide::render::theme::registry::{cycle, get, names};
use oxlide::render::theme::{theme_from_deck, ChromeSpec, Theme};
use std::path::Path;
use unicode_width::UnicodeWidthStr;

fn width(s: &str) -> usize {
    UnicodeWidthStr::width(s)
}

#[test]
fn resolve_image_path_honors_absolute_paths() {
    let abs = "/img/cat.png";
    let resolved = resolve_image_path(abs, Some("/tmp/deck"));
    assert_eq!(Path::new(&resolved), Path::new(abs));
}

#[test]
fn resolve_image_path_joins_relative_to_deck_dir() {
    let resolved = resolve_image_path("pics/cat.png", Some("/tmp/deck"));
    assert_eq!(Path::new(&resolved), Path::new("/tmp/deck/pics/cat.png"));
}

#[test]
fn resolve_image_path_returns_relative_unchanged_when_no_deck_dir() {
    let resolved = resolve_image_path("pics/cat.png", None);
    assert_eq!(Path::new(&resolved), Path::new("pics/cat.png"));
}

#[test]
fn resolve_image_path_handles_emoji_filename() {
    let resolved = resolve_image_path("party-🎉.png", Some("/tmp/deck"));
    assert_eq!(Path::new(&resolved), Path::new("/tmp/deck/party-🎉.png"));
}

#[test]
fn resolve_image_path_handles_cjk_filename() {
    let resolved = resolve_image_path("写真/猫.png", Some("/tmp/deck"));
    assert_eq!(Path::new(&resolved), Path::new("/tmp/deck/写真/猫.png"));
}

#[test]
fn resolve_image_path_does_not_double_the_separator() {
    assert_eq!(resolve_image_path("a.png", Some("/tmp/deck/")), "/tmp/deck/a.png");
    assert_eq!(resolve_image_path("a.png", Some("")), "a.png");
}

#[test]
fn short_ascii_returns_unchanged() {
    let out = truncate_to_width("hello", 10);
    assert_eq!(out, "hello");
    assert!(width(&out) <= 10);
}

#[test]
fn ascii_at_exact_width_returns_unchanged() {
    let out = truncate_to_width("hello", 5);
    assert_eq!(out, "hello");
}

#[test]
fn long_ascii_truncates_with_ellipsis() {
    let out = truncate_to_width("abcdefghij", 5);
    assert_eq!(out, "abcd…");
    assert!(width(&out) <= 5);
}

#[test]
fn url_truncates_like_acceptance_criteria() {
    let out = truncate_to_width("https://github.com/cmoel/oxlide", 16);
    assert!(out.ends_with('…'), "expected ellipsis, got {:?}", out);
    assert!(width(&out) <= 16, "width {} exceeded 16 for {:?}", width(&out), out);
    assert!(out.starts_with("https://github."), "got {:?}", out);
}

#[test]
fn cjk_characters_count_two_cells_each() {
    let input = "例えばabc";
    assert_eq!(width(input), 9);
    let out = truncate_to_width(input, 9);
    assert_eq!(out, input);
    let out = truncate_to_width(input, 6);
    assert_eq!(out, "例え…");
    assert!(width(&out) <= 6);
}

#[test]
fn cjk_never_splits_mid_codepoint() {
    let out = truncate_to_width("例えばabc", 4);
    assert_eq!(out, "例…");
    assert!(width(&out) <= 4);
}

#[test]
fn emoji_single_codepoint_counts_as_two_cells() {
    let out = truncate_to_width("😀hello", 8);
    assert_eq!(out, "😀hello");
    assert!(width(&out) <= 8);
}

#[test]
fn emoji_zwj_sequence_truncates_cleanly() {
    let input = "👨\u{200d}💻 coder";
    let out = truncate_to_width(input, 6);
    assert!(width(&out) <= 6, "width {} for {:?}", width(&out), out);
    assert!(out.ends_with('…'));
}

#[test]
fn combining_marks_stay_with_base() {
    let input = "e\u{0301}llo";
    assert_eq!(width(input), 4);
    let out = truncate_to_width(input, 4);
    assert_eq!(out, input);
}

#[test]
fn combining_marks_are_kept_after_a_kept_base() {
    let input = "e\u{0301}e\u{0301}e\u{0301}e\u{0301}";
    let out = truncate_to_width(input, 3);
    assert_eq!(out, "e\u{0301}e\u{0301}…");
}

#[test]
fn zero_budget_returns_empty() {
    let out = truncate_to_width("hello", 0);
    assert_eq!(out, "");
}

#[test]
fn one_cell_budget_returns_just_ellipsis() {
    let out = truncate_to_width("hello", 1);
    assert_eq!(out, "…");
    assert!(width(&out) <= 1);
}

#[test]
fn ellipsis_width_boundary_emits_one_char_plus_ellipsis() {
    let out = truncate_to_width("hello", 2);
    assert_eq!(out, "h…");
    assert!(width(&out) <= 2);
}

#[test]
fn empty_input_returns_empty() {
    assert_eq!(truncate_to_width("", 5), "");
    assert_eq!(truncate_to_width("", 0), "");
}

#[test]
fn width_invariant_holds_for_mixed_content() {
    let cases = ["https://例え.jp/path/with/中文", "short", "😀😀😀😀", "abc 例 def"];
    for max in [1, 2, 3, 5, 8, 12, 40] {
        for case in &cases {
            let out = truncate_to_width(case, max);
            assert!(
                width(&out) <= max,
                "case={:?} max={} out={:?} width={}",
                case,
                max,
                out,
                width(&out)
            );
        }
    }
}

#[test]
fn leading_combining_mark_is_dropped_when_cut() {
    let out = truncate_to_width("\u{0301}abcdef", 3);
    assert_eq!(out, "ab…");
}

#[test]
fn paper_white_has_expected_name() {
    let t = Theme::paper_white();
    assert_eq!(t.name, "paper-white");
}

#[test]
fn theme_from_deck_returns_first_theme_directive_args() {
    let src = "<!-- oxlide-theme: amber -->\n\n# Slide";
    let deck = parse_deck(src).unwrap();
    assert_eq!(theme_from_deck(&deck), Some("amber"));
}

#[test]
fn theme_from_deck_returns_none_when_no_theme_directive() {
    let src = "# Slide";
    let deck = parse_deck(src).unwrap();
    assert_eq!(theme_from_deck(&deck), None);
}

#[test]
fn theme_from_deck_ignores_non_theme_directives() {
    let src = "<!-- oxlide-fx: fade -->\n\n# Slide";
    let deck = parse_deck(src).unwrap();
    assert_eq!(theme_from_deck(&deck), None);
}

#[test]
fn theme_from_deck_takes_first_when_multiple() {
    let src = "<!-- oxlide-theme: amber -->\n<!-- oxlide-theme: green -->\n\n# Slide";
    let deck = parse_deck(src).unwrap();
    assert_eq!(theme_from_deck(&deck), Some("amber"));
}

#[test]
fn theme_from_deck_ignores_slide_level_theme_directive() {
    let src = "# A\n\n---\n\n<!-- oxlide-theme: amber -->\n\n# B";
    let deck = parse_deck(src).unwrap();
    assert_eq!(theme_from_deck(&deck), None);
    assert_eq!(deck.slides[1].directives.len(), 1);
}

#[test]
fn theme_from_deck_reads_directives_added_by_hand() {
    let mut deck = parse_deck("# Slide").unwrap();
    deck.directives.push(Directive::Raw {
        name: "theme".into(),
        args: "paper-white".into(),
        span: SourceSpan { start: 0, end: 0 },
    });
    assert_eq!(theme_from_deck(&deck), Some("paper-white"));
}

#[test]
fn get_known_theme_returns_some() {
    assert!(get("paper-white").is_some());
}

#[test]
fn get_unknown_theme_returns_none() {
    assert!(get("bogus").is_none());
}

#[test]
fn registry_get_paper_white_matches_declared_spec() {
    let t = get("paper-white").expect("paper-white in registry");
    assert_eq!(t.name, "paper-white");
    assert_eq!(t.chrome_rows, 2);
    assert!(matches!(t.chrome, ChromeSpec::BottomRule));
}

#[test]
fn cycle_single_entry_registry_returns_self() {
    assert_eq!(cycle("paper-white"), "paper-white");
}

#[test]
fn cycle_unknown_returns_first_theme() {
    assert_eq!(cycle("bogus"), "paper-white");
}

#[test]
fn names_contains_paper_white() {
    let list: Vec<&str> = names();
    assert!(list.contains(&"paper-white"));
}

#[test]
fn names_nonempty() {
    assert!(names().first().is_some());
}

#[test]
fn heading_style_clamps_the_level_to_the_six_styles() {
    let t = Theme::paper_white();
    assert_eq!(t.heading_style(0), t.heading[0]);
    assert_eq!(t.heading_style(1), t.heading[0]);
    assert_eq!(t.heading_style(3), t.heading[2]);
    assert_eq!(t.heading_style(6), t.heading[5]);
    assert_eq!(t.heading_style(9), t.heading[5]);
    assert_ne!(t.heading_style(1), t.heading_style(2));
}

#[test]
fn truncate_to_one_column_is_the_ellipsis() {
    assert_eq!(truncate_to_width("abcdef", 1), "…");
    assert_eq!(width(&truncate_to_width("abcdef", 1)), 1);
    assert_eq!(truncate_to_width("abcdef", 3), "ab…");
}
