//! A markdown slide-deck presenter: the parser that turns a markdown source
//! into slides, cells and speaker notes, the layout rules that place cells on
//! a terminal, and the navigation state of present mode.

pub mod cli;
pub mod layout;
pub mod parser;
pub mod present;
pub mod render;

pub use parser::{parse_deck, ParseError, SlideDeck};
