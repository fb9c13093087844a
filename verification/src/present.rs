//! Present mode's decisions: which slide is shown and which theme, after each
//! key, and which theme a presentation starts with.

use crate::parser::ast::SlideDeck;
use crate::parser::text;
use crate::render::theme::registry::{self, theme_index, theme_names};
use crate::render::theme::{deck_theme, theme_from_deck};
use vstd::prelude::*;

verus! {

/// The theme a presentation uses when nothing chooses one.
pub const DEFAULT_THEME: &'static str = "paper-white";

/// The keys that present mode tells apart.
#[derive(Debug, Clone, Copy, PartialEq, Eq, Structural)]
pub enum Key {
    Char(char),
    Left,
    Right,
    PageUp,
    PageDown,
    Home,
    End,
    Esc,
    Other,
}

/// The state of a presentation: the deck, the slide shown, whether to stop,
/// and the theme in use.
pub struct App {
    pub deck: SlideDeck,
    pub current_slide: usize,
    pub should_quit: bool,
    pub current_theme: &'static str,
}

impl App {
    pub open spec fn spec_last_index(&self) -> nat {
        if self.deck.slides@.len() == 0 {
            0
        } else {
            (self.deck.slides@.len() - 1) as nat
        }
    }

    /// A presentation of `deck` at its first slide.
    pub fn new(deck: SlideDeck, current_theme: &'static str) -> (a: App)
        ensures
            a.deck == deck,
            a.current_slide == 0,
            !a.should_quit,
            a.current_theme == current_theme,
    {
        App { deck, current_slide: 0, should_quit: false, current_theme }
    }

    /// The index of the last slide (0 for a deck without slides).
    pub fn last_index(&self) -> (r: usize)
        ensures
            r == self.spec_last_index(),
    {
        if self.deck.slides.len() == 0 {
            0
        } else {
            self.deck.slides.len() - 1
        }
    }

    /// Acts on a key press: space, right and page-down advance (not past the
    /// last slide), left and page-up go back (not before the first), home and
    /// end jump to the first and last slide, `T` cycles the theme, and `q`,
    /// escape or ctrl-c quit. Any other key changes nothing.
    pub fn on_key(&mut self, code: Key, control: bool)
        ensures
            final(self).deck == old(self).deck,
            final(self).current_slide == match code {
                Key::Char(' ') | Key::Right | Key::PageDown => if old(self).current_slide
                    < old(self).spec_last_index() {
                    old(self).current_slide + 1
                } else {
                    old(self).current_slide as int
                },
                Key::Left | Key::PageUp => if old(self).current_slide > 0 {
                    old(self).current_slide - 1
                } else {
                    0
                },
                Key::Home => 0,
                Key::End => old(self).spec_last_index() as int,
                _ => old(self).current_slide as int,
            },
            final(self).should_quit == (old(self).should_quit || code == Key::Char('q') || code
                == Key::Esc || (code == Key::Char('c') && control)),
            final(self).current_theme@ == if code == Key::Char('T') {
                theme_names()[(match theme_index(old(self).current_theme@) {
                    Some(k) => k,
                    None => 0,
                } + 1) % theme_names().len() as int]
            } else {
                old(self).current_theme@
            },
            // A presentation that shows one of its slides keeps showing one,
            // and a registered theme stays registered.
            old(self).current_slide <= old(self).spec_last_index() ==> final(self).current_slide
                <= final(self).spec_last_index(),
            theme_index(old(self).current_theme@) is Some ==> theme_index(
                final(self).current_theme@,
            ) is Some,
    {
        proof {
            registry::lemma_cycle_stays_registered(self.current_theme@);
        }
        match code {
            Key::Char(' ') | Key::Right | Key::PageDown => {
                if self.current_slide < self.last_index() {
                    self.current_slide = self.current_slide + 1;
                }
            },
            Key::Left | Key::PageUp => {
                if self.current_slide > 0 {
                    self.current_slide = self.current_slide - 1;
                }
            },
            Key::Home => {
                self.current_slide = 0;
            },
            Key::End => {
                self.current_slide = self.last_index();
            },
            Key::Char('T') => {
                self.current_theme = registry::cycle(self.current_theme);
            },
            Key::Char('q') | Key::Esc => {
                self.should_quit = true;
            },
            Key::Char('c') => {
                if control {
                    self.should_quit = true;
                }
            },
            _ => {},
        }
    }
}

/// Why no theme could be chosen.
#[derive(Debug, Clone, PartialEq, Eq)]
pub enum ThemeError {
    /// The theme named on the command line is not registered.
    Unknown { name: String, valid: Vec<&'static str> },
    /// The default theme is not registered.
    DefaultMissing,
}

/// The theme chosen for a presentation, and the deck's theme directive when
/// it named an unknown theme and was passed over.
pub struct ThemeChoice<'a> {
    pub name: &'static str,
    pub ignored_directive: Option<&'a str>,
}

/// The registered name equal to `name`, if there is one.
fn registered(name: &str) -> (r: Option<&'static str>)
    ensures
        match r {
            Some(n) => n@ == name@ && theme_index(name@) is Some,
            None => theme_index(name@) is None,
        },
{
    let ns = registry::names();
    let mut k: usize = 0;
    while k < ns.len()
        invariant
            k <= ns@.len(),
            ns@.len() == theme_names().len(),
            forall|j: int| 0 <= j < ns@.len() ==> (#[trigger] ns@[j])@ == theme_names()[j],
            theme_index(name@) == registry::index_from(theme_names(), name@, k as int),
        decreases ns@.len() - k,
    {
        if text::str_eq(ns[k], name) {
            return Some(ns[k]);
        }
        k = k + 1;
    }
    None
}

/// The theme to present with: the one named on the command line, which must
/// be registered; else the deck's theme directive when it names a registered
/// theme; else the default theme.
pub fn resolve_theme_name<'a>(deck: &'a SlideDeck, cli_theme: Option<&str>) -> (r: Result<
    ThemeChoice<'a>,
    ThemeError,
>)
    ensures
        match cli_theme {
            Some(c) => match r {
                Ok(ch) => ch.name@ == c@ && theme_index(c@) is Some && ch.ignored_directive
                    is None,
                Err(ThemeError::Unknown { name, valid }) => name@ == c@ && theme_index(c@) is None
                    && valid@.len() == theme_names().len() && forall|k: int|
                    0 <= k < valid@.len() ==> (#[trigger] valid@[k])@ == theme_names()[k],
                Err(ThemeError::DefaultMissing) => false,
            },
            None => match deck_theme(deck.directives@, 0) {
                Some(d) if theme_index(d) is Some => r matches Ok(ch) && ch.name@ == d
                    && ch.ignored_directive is None,
                _ => match r {
                    Ok(ch) => ch.name@ == DEFAULT_THEME@ && theme_index(DEFAULT_THEME@) is Some
                        && match deck_theme(deck.directives@, 0) {
                        Some(d) => ch.ignored_directive matches Some(i) && i@ == d,
                        None => ch.ignored_directive is None,
                    },
                    Err(e) => e == ThemeError::DefaultMissing && theme_index(DEFAULT_THEME@)
                        is None,
                },
            },
        },
{
    if let Some(name) = cli_theme {
        return match registered(name) {
            Some(n) => Ok(ThemeChoice { name: n, ignored_directive: None }),
            None => Err(ThemeError::Unknown { name: name.to_owned(), valid: registry::names() }),
        };
    }
    let mut ignored: Option<&'a str> = None;
    if let Some(directive_name) = theme_from_deck(deck) {
        if let Some(n) = registered(directive_name) {
            return Ok(ThemeChoice { name: n, ignored_directive: None });
        }
        ignored = Some(directive_name);
    }
    match registered(DEFAULT_THEME) {
        Some(n) => Ok(ThemeChoice { name: n, ignored_directive: ignored }),
        None => Err(ThemeError::DefaultMissing),
    }
}

} // verus!
