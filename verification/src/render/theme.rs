//! Themes: the styles of each kind of text, and the chrome rows a theme keeps
//! at the bottom of the screen.

pub mod registry;

use crate::parser::ast::{Directive, SlideDeck};
use crate::parser::text;
use vstd::prelude::*;

verus! {

/// What a theme draws in its chrome rows.
#[derive(Debug, Clone, Copy, PartialEq, Eq, Structural)]
pub enum ChromeSpec {
    NoChrome,
    BottomRule,
}

/// The terminal colors that themes use.
#[derive(Debug, Clone, Copy, PartialEq, Eq, Structural)]
pub enum Color {
    White,
    Gray,
    DarkGray,
    Cyan,
    LightCyan,
    Blue,
    LightBlue,
    LightYellow,
    Magenta,
}

/// A foreground color and text modifiers.
#[derive(Debug, Clone, Copy, PartialEq, Eq, Structural)]
pub struct Style {
    pub fg: Option<Color>,
    pub bold: bool,
    pub italic: bool,
    pub underlined: bool,
}

impl Style {
    pub open spec fn spec_fg(c: Color, bold: bool) -> Style {
        Style { fg: Some(c), bold, italic: false, underlined: false }
    }

    /// Text in color `c`, bold or not.
    pub fn fg(c: Color, bold: bool) -> (s: Style)
        ensures
            s == Style::spec_fg(c, bold),
    {
        Style { fg: Some(c), bold, italic: false, underlined: false }
    }
}

/// A theme: a style for each heading level and kind of text, and the rows of
/// chrome it reserves.
#[derive(Debug, Clone, Copy)]
pub struct Theme {
    pub name: &'static str,
    pub heading: [Style; 6],
    pub prose: Style,
    pub link: Style,
    pub code: Style,
    pub list_marker: Style,
    pub image_placeholder: Style,
    pub chrome_rows: u16,
    pub chrome: ChromeSpec,
}

/// `t` is the paper-white theme: light headings (bold but for level five),
/// gray prose, underlined light-blue links, light-yellow code, dark-gray list
/// markers, italic magenta image placeholders, and two chrome rows below
/// the content holding a rule and the slide counter.
pub open spec fn is_paper_white(t: Theme) -> bool {
    &&& t.name@ == "paper-white"@
    &&& t.heading@ == seq![
        Style::spec_fg(Color::White, true),
        Style::spec_fg(Color::LightCyan, true),
        Style::spec_fg(Color::Cyan, true),
        Style::spec_fg(Color::LightBlue, true),
        Style::spec_fg(Color::Blue, false),
        Style::spec_fg(Color::DarkGray, true),
    ]
    &&& t.prose == Style::spec_fg(Color::Gray, false)
    &&& t.link == (Style { fg: Some(Color::LightBlue), bold: false, italic: false, underlined: true })
    &&& t.code == Style::spec_fg(Color::LightYellow, false)
    &&& t.list_marker == Style::spec_fg(Color::DarkGray, false)
    &&& t.image_placeholder == (Style {
        fg: Some(Color::Magenta),
        bold: false,
        italic: true,
        underlined: false,
    })
    &&& t.chrome_rows == 2
    &&& t.chrome == ChromeSpec::BottomRule
}

impl Theme {
    /// Light text on the terminal's background, with a rule and the slide
    /// counter in two chrome rows.
    pub fn paper_white() -> (t: Theme)
        ensures
            is_paper_white(t),
    {
        let heading = [
            Style::fg(Color::White, true),
            Style::fg(Color::LightCyan, true),
            Style::fg(Color::Cyan, true),
            Style::fg(Color::LightBlue, true),
            Style::fg(Color::Blue, false),
            Style::fg(Color::DarkGray, true),
        ];
        let t = Theme {
            name: "paper-white",
            heading,
            prose: Style::fg(Color::Gray, false),
            link: Style { fg: Some(Color::LightBlue), bold: false, italic: false, underlined: true },
            code: Style::fg(Color::LightYellow, false),
            list_marker: Style::fg(Color::DarkGray, false),
            image_placeholder: Style {
                fg: Some(Color::Magenta),
                bold: false,
                italic: true,
                underlined: false,
            },
            chrome_rows: 2,
            chrome: ChromeSpec::BottomRule,
        };
        assert(t.heading@ =~= seq![
            Style::spec_fg(Color::White, true),
            Style::spec_fg(Color::LightCyan, true),
            Style::spec_fg(Color::Cyan, true),
            Style::spec_fg(Color::LightBlue, true),
            Style::spec_fg(Color::Blue, false),
            Style::spec_fg(Color::DarkGray, true),
        ]);
        t
    }

    /// The style of a heading of `level`: levels 1 to 6 take their own
    /// style, level 0 that of level 1 and deeper levels that of level 6.
    pub fn heading_style(&self, level: u8) -> (s: Style)
        ensures
            s == self.heading@[if level <= 1 {
                0
            } else if level >= 6 {
                5
            } else {
                level - 1
            }],
    {
        let idx: usize = if level <= 1 {
            0
        } else if level >= 6 {
            5
        } else {
            (level - 1) as usize
        };
        self.heading[idx]
    }
}

/// The name of directive `d`.
pub open spec fn dname(d: Directive) -> Seq<char> {
    match d {
        Directive::Raw { name, .. } => name@,
    }
}

/// The arguments of directive `d`.
pub open spec fn dargs(d: Directive) -> Seq<char> {
    match d {
        Directive::Raw { args, .. } => args@,
    }
}

/// The arguments of the first directive at or after `i` of `ds` that is
/// named `theme`.
pub open spec fn deck_theme(ds: Seq<Directive>, i: int) -> Option<Seq<char>>
    decreases ds.len() - i,
{
    if i < 0 || i >= ds.len() {
        None
    } else if dname(ds[i]) == "theme"@ {
        Some(dargs(ds[i]))
    } else {
        deck_theme(ds, i + 1)
    }
}

/// The theme that the deck's own directives name: the arguments of its first
/// deck-level `theme` directive.
pub fn theme_from_deck(deck: &SlideDeck) -> (r: Option<&str>)
    ensures
        match r {
            Some(a) => deck_theme(deck.directives@, 0) == Some(a@),
            None => deck_theme(deck.directives@, 0) is None,
        },
{
    let n = deck.directives.len();
    let mut i: usize = 0;
    while i < n
        invariant
            n == deck.directives@.len(),
            i <= n,
            deck_theme(deck.directives@, 0) == deck_theme(deck.directives@, i as int),
        decreases n - i,
    {
        let Directive::Raw { name, args, .. } = &deck.directives[i];
        if text::str_eq(name.as_str(), "theme") {
            return Some(args.as_str());
        }
        i = i + 1;
    }
    None
}

} // verus!
