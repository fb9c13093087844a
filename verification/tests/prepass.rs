use oxlide::parser::prepass::{
    detect_image_path, entry_containing, parse_metadata_line, prepass, rewritten_to_original, scan_lines,
    strip_outer_quotes, Line, OffsetEntry, SLIDE_BREAK_SENTINEL,
};

#[test]
fn scan_lines_empty() {
    assert!(scan_lines("").is_empty());
}

#[test]
fn scan_lines_single_line_no_newline() {
    let lines = scan_lines("hello");
    assert_eq!(lines, vec![Line { start: 0, end: 5, blank: false }]);
}

#[test]
fn scan_lines_single_line_trailing_newline() {
    let lines = scan_lines("hello\n");
    assert_eq!(lines, vec![Line { start: 0, end: 5, blank: false }]);
}

#[test]
fn scan_lines_blank_detection() {
    let lines = scan_lines("a\n\n   \nb");
    assert_eq!(lines.len(), 4);
    assert!(!lines[0].blank);
    assert!(lines[1].blank);
    assert!(lines[2].blank);
    assert!(!lines[3].blank);
}

#[test]
fn scan_lines_offsets_round_trip() {
    let source = "first\nsecond\n\nthird";
    let lines = scan_lines(source);
    assert_eq!(&source[lines[0].start..lines[0].end], "first");
    assert_eq!(&source[lines[1].start..lines[1].end], "second");
    assert_eq!(&source[lines[2].start..lines[2].end], "");
    assert_eq!(&source[lines[3].start..lines[3].end], "third");
}

#[test]
fn prepass_no_double_blank_is_identity() {
    let source = "# A\n\n# B";
    let out = prepass(source).unwrap();
    assert_eq!(out.rewritten, source);
    assert!(out.entries.is_empty());
}

#[test]
fn prepass_injects_sentinel_for_double_blank() {
    let source = "# A\n\n\n\n# B";
    let out = prepass(source).unwrap();
    assert!(out.rewritten.contains(SLIDE_BREAK_SENTINEL));
    assert_eq!(out.entries.len(), 1);
}

#[test]
fn prepass_leading_blanks_not_injected() {
    let source = "\n\n\n\nhello";
    let out = prepass(source).unwrap();
    assert!(out.entries.is_empty());
}

#[test]
fn prepass_trailing_blanks_not_injected() {
    let source = "hello\n\n\n\n";
    let out = prepass(source).unwrap();
    assert!(out.entries.is_empty());
}

#[test]
fn rewritten_to_original_identity_without_entries() {
    assert_eq!(rewritten_to_original(10, &[]), 10);
}

#[test]
fn rewritten_to_original_subtracts_prior_insertions() {
    let entries = vec![OffsetEntry::pure_insertion(5, 5, 10)];
    assert_eq!(rewritten_to_original(4, &entries), 4);
    assert_eq!(rewritten_to_original(15, &entries), 5);
    assert_eq!(rewritten_to_original(20, &entries), 10);
}

#[test]
fn rewritten_to_original_clamps_inside_insertion() {
    let entries = vec![OffsetEntry::pure_insertion(5, 5, 10)];
    assert_eq!(rewritten_to_original(10, &entries), 5);
}

#[test]
fn rewritten_to_original_replacement_past_end_uses_orig_end() {
    let entries = vec![OffsetEntry { rw_start: 0, rw_end: 13, orig_start: 0, orig_end: 8 }];
    assert_eq!(rewritten_to_original(13, &entries), 8);
    assert_eq!(rewritten_to_original(14, &entries), 9);
}

#[test]
fn detect_image_path_accepts_png() {
    assert_eq!(detect_image_path("hero.png"), Some("hero.png"));
}

#[test]
fn detect_image_path_case_insensitive() {
    assert_eq!(detect_image_path("HERO.PNG"), Some("HERO.PNG"));
}

#[test]
fn detect_image_path_rejects_indented() {
    assert_eq!(detect_image_path("  hero.png"), None);
}

#[test]
fn detect_image_path_rejects_with_spaces() {
    assert_eq!(detect_image_path("hero image.png"), None);
}

#[test]
fn detect_image_path_rejects_non_image_ext() {
    assert_eq!(detect_image_path("hero.txt"), None);
}

#[test]
fn parse_metadata_line_strips_indent_and_trims_value() {
    assert_eq!(parse_metadata_line("\tsize: contain"), Some(("size", "contain")));
    assert_eq!(parse_metadata_line("    x: right"), Some(("x", "right")));
}

#[test]
fn parse_metadata_line_rejects_no_indent() {
    assert!(parse_metadata_line("size: contain").is_none());
}

#[test]
fn parse_metadata_line_rejects_empty_value() {
    assert!(parse_metadata_line("    size:").is_none());
    assert!(parse_metadata_line("    size:   ").is_none());
}

#[test]
fn strip_outer_quotes_double() {
    assert_eq!(strip_outer_quotes("\"#fff\""), "#fff");
}

#[test]
fn strip_outer_quotes_single() {
    assert_eq!(strip_outer_quotes("'value'"), "value");
}

#[test]
fn strip_outer_quotes_none() {
    assert_eq!(strip_outer_quotes("#fff"), "#fff");
}

#[test]
fn prepass_strips_the_tab_of_a_visible_line_and_records_it() {
    let out = prepass("\tWorld").unwrap();
    assert_eq!(out.rewritten, "World");
    assert_eq!(out.entries, vec![OffsetEntry { rw_start: 0, rw_end: 0, orig_start: 0, orig_end: 1 }]);
    assert_eq!(rewritten_to_original(0, &out.entries), 1);
}

#[test]
fn prepass_keeps_fenced_code_untouched() {
    let source = "```\n\tcode\n\n\n\nmore\n```\n";
    let out = prepass(source).unwrap();
    assert_eq!(out.rewritten, source);
    assert!(out.entries.is_empty());
}

#[test]
fn prepass_rewrites_an_image_line_with_metadata() {
    let out = prepass("hero.png\n\tsize: cover\n").unwrap();
    assert_eq!(out.rewritten, "![](hero.png)\n<!-- oxlide-image-meta -->\n");
    assert_eq!(out.image_metas.len(), 1);
    assert_eq!(out.image_metas[0].rw_start, 0);
    assert_eq!(out.entries.len(), 1);
    assert_eq!(out.entries[0].orig_end, 22);
}

#[test]
fn prepass_sentinel_maps_back_to_the_blank_run() {
    let source = "A\n\n\nB";
    let out = prepass(source).unwrap();
    let e = out.entries[0];
    assert_eq!(e.orig_start, e.orig_end);
    assert_eq!(rewritten_to_original(e.rw_start + 3, &out.entries), e.orig_start);
    assert_eq!(&out.rewritten[e.rw_end..], "\nB");
    assert_eq!(rewritten_to_original(e.rw_end + 1, &out.entries), source.len() - 1);
}

#[test]
fn entry_containing_finds_the_first_covering_rewrite() {
    let entries = vec![
        OffsetEntry { rw_start: 2, rw_end: 2, orig_start: 2, orig_end: 3 },
        OffsetEntry { rw_start: 5, rw_end: 9, orig_start: 6, orig_end: 7 },
        OffsetEntry { rw_start: 12, rw_end: 20, orig_start: 10, orig_end: 10 },
    ];
    assert_eq!(entry_containing(2, &entries), None);
    assert_eq!(entry_containing(5, &entries), Some(&entries[1]));
    assert_eq!(entry_containing(8, &entries), Some(&entries[1]));
    assert_eq!(entry_containing(9, &entries), None);
    assert_eq!(entry_containing(19, &entries), Some(&entries[2]));
    assert_eq!(entry_containing(20, &entries), None);
}

#[test]
fn parse_metadata_line_rejects_keys_with_other_characters() {
    assert!(parse_metadata_line("\tsi ze: contain").is_none());
    assert!(parse_metadata_line("\tsize!: contain").is_none());
    assert_eq!(parse_metadata_line("\tfit_mode-2: x"), Some(("fit_mode-2", "x")));
    assert_eq!(parse_metadata_line("\tgröße: x"), Some(("größe", "x")));
}

#[test]
fn rewritten_text_maps_back_outside_rewrites() {
    let source = "# Title\n\n\tBody\n\n\n\nhero.png\n\tsize: cover\n\nNext\n";
    let out = prepass(source).unwrap();
    let rw = out.rewritten.as_bytes();
    let covered = |p: usize| out.entries.iter().any(|e| e.rw_start <= p && p < e.rw_end);
    for p in 0..rw.len() {
        if !covered(p) {
            assert_eq!(rw[p], source.as_bytes()[rewritten_to_original(p, &out.entries)]);
        }
    }
    assert_eq!(rewritten_to_original(rw.len(), &out.entries), source.len());
}

#[test]
fn rewritten_offsets_map_back_in_order_within_the_source() {
    let src = "# Title\n\n\n\nhero.png\n\tsize: contain\n\n# Next\n\n---\n\nmore text\n";
    let out = prepass(src).expect("prepass");
    let n = out.rewritten.len();
    assert_eq!(rewritten_to_original(0, &out.entries), 0);
    assert_eq!(rewritten_to_original(n, &out.entries), src.len());
    let mut last = 0;
    for rw in 0..=n {
        let o = rewritten_to_original(rw, &out.entries);
        assert!(last <= o && o <= src.len(), "offset {} maps to {}", rw, o);
        last = o;
        if let Some(e) = entry_containing(rw, &out.entries) {
            assert_eq!(o, e.orig_start);
        } else if rw < n {
            assert_eq!(out.rewritten.as_bytes()[rw], src.as_bytes()[o]);
        }
    }
}
