use oxlide::parser::{parse_deck, Cell, Directive, Slide, SlideDeck, SourceSpan};
use oxlide::present::{resolve_theme_name, App, Key, ThemeError, DEFAULT_THEME};
use oxlide::render::theme::registry;

fn span() -> SourceSpan {
    SourceSpan { start: 0, end: 0 }
}

fn make_deck(n: usize) -> SlideDeck {
    let slides = (0..n)
        .map(|_| Slide {
            cells: vec![Cell { blocks: vec![], directives: vec![], span: span() }],
            notes: vec![],
            directives: vec![],
            span: span(),
        })
        .collect();
    SlideDeck { slides, directives: vec![], source: String::new() }
}

fn app(n: usize) -> App {
    App::new(make_deck(n), "paper-white")
}

#[test]
fn space_advances_to_next_slide() {
    let mut a = app(3);
    a.on_key(Key::Char(' '), false);
    assert_eq!(a.current_slide, 1);
}

#[test]
fn right_advances_to_next_slide() {
    let mut a = app(3);
    a.on_key(Key::Right, false);
    assert_eq!(a.current_slide, 1);
}

#[test]
fn pagedown_advances_to_next_slide() {
    let mut a = app(3);
    a.on_key(Key::PageDown, false);
    assert_eq!(a.current_slide, 1);
}

#[test]
fn advancing_past_last_stays_at_last() {
    let mut a = app(3);
    for _ in 0..10 {
        a.on_key(Key::Right, false);
    }
    assert_eq!(a.current_slide, 2);
}

#[test]
fn left_retreats_one_slide() {
    let mut a = app(3);
    a.current_slide = 2;
    a.on_key(Key::Left, false);
    assert_eq!(a.current_slide, 1);
}

#[test]
fn pageup_retreats_one_slide() {
    let mut a = app(3);
    a.current_slide = 2;
    a.on_key(Key::PageUp, false);
    assert_eq!(a.current_slide, 1);
}

#[test]
fn retreating_before_first_stays_at_zero() {
    let mut a = app(3);
    for _ in 0..10 {
        a.on_key(Key::Left, false);
    }
    assert_eq!(a.current_slide, 0);
}

#[test]
fn home_jumps_to_first() {
    let mut a = app(3);
    a.current_slide = 2;
    a.on_key(Key::Home, false);
    assert_eq!(a.current_slide, 0);
}

#[test]
fn end_jumps_to_last() {
    let mut a = app(3);
    a.on_key(Key::End, false);
    assert_eq!(a.current_slide, 2);
}

#[test]
fn q_sets_quit() {
    let mut a = app(3);
    a.on_key(Key::Char('q'), false);
    assert!(a.should_quit);
}

#[test]
fn esc_sets_quit() {
    let mut a = app(3);
    a.on_key(Key::Esc, false);
    assert!(a.should_quit);
}

#[test]
fn ctrl_c_sets_quit() {
    let mut a = app(3);
    a.on_key(Key::Char('c'), true);
    assert!(a.should_quit);
}

#[test]
fn plain_c_does_not_quit() {
    let mut a = app(3);
    a.on_key(Key::Char('c'), false);
    assert!(!a.should_quit);
}

#[test]
fn single_slide_deck_end_stays_at_zero() {
    let mut a = app(1);
    a.on_key(Key::End, false);
    assert_eq!(a.current_slide, 0);
    a.on_key(Key::Right, false);
    assert_eq!(a.current_slide, 0);
}

#[test]
fn shift_t_cycles_theme() {
    let mut a = app(1);
    let start = a.current_theme;
    a.on_key(Key::Char('T'), false);
    assert_eq!(a.current_theme, registry::cycle(start));
}

#[test]
fn shift_t_without_shift_modifier_still_cycles() {
    let mut a = app(1);
    let start = a.current_theme;
    a.on_key(Key::Char('T'), false);
    assert_eq!(a.current_theme, registry::cycle(start));
}

#[test]
fn lowercase_t_does_not_cycle_theme() {
    let mut a = app(1);
    let start = a.current_theme;
    a.on_key(Key::Char('t'), false);
    assert_eq!(a.current_theme, start);
}

#[test]
fn other_keys_change_nothing() {
    let mut a = app(3);
    a.current_slide = 1;
    a.on_key(Key::Other, true);
    a.on_key(Key::Char('x'), false);
    assert_eq!(a.current_slide, 1);
    assert!(!a.should_quit);
    assert_eq!(a.last_index(), 2);
}

#[test]
fn last_index_of_an_empty_deck_is_zero() {
    let a = app(0);
    assert_eq!(a.last_index(), 0);
}

fn deck_from(src: &str) -> SlideDeck {
    parse_deck(src).unwrap()
}

#[test]
fn resolve_theme_cli_overrides_directive() {
    let deck = deck_from("<!-- oxlide-theme: paper-white -->\n\n# Slide");
    let choice = resolve_theme_name(&deck, Some("paper-white")).unwrap();
    assert_eq!(choice.name, "paper-white");
}

#[test]
fn resolve_theme_cli_unknown_errors_with_list() {
    let deck = deck_from("# Slide");
    match resolve_theme_name(&deck, Some("bogus")) {
        Err(ThemeError::Unknown { name, valid }) => {
            assert!(name.contains("bogus"), "error should mention bad name: {}", name);
            assert!(valid.contains(&"paper-white"), "error should list valid names: {:?}", valid);
        }
        _ => panic!("expected an unknown-theme error"),
    }
}

#[test]
fn resolve_theme_directive_used_when_no_cli() {
    let deck = deck_from("<!-- oxlide-theme: paper-white -->\n\n# Slide");
    let choice = resolve_theme_name(&deck, None).unwrap();
    assert_eq!(choice.name, "paper-white");
}

#[test]
fn resolve_theme_falls_back_when_directive_unknown() {
    let mut deck = deck_from("# Slide");
    deck.directives.push(Directive::Raw { name: "theme".into(), args: "bogus".into(), span: span() });
    let choice = resolve_theme_name(&deck, None).unwrap();
    assert_eq!(choice.name, DEFAULT_THEME);
    assert_eq!(choice.ignored_directive, Some("bogus"));
}

#[test]
fn resolve_theme_default_when_no_cli_no_directive() {
    let deck = deck_from("# Slide");
    let choice = resolve_theme_name(&deck, None).unwrap();
    assert_eq!(choice.name, DEFAULT_THEME);
    assert_eq!(choice.ignored_directive, None);
}
