//! What the renderer decides before it draws: themes, the padded content
//! area, hero slides, image paths and text truncation.

pub mod composition;
pub mod engine;
pub mod list;
pub mod text;
pub mod theme;

pub use composition::{compute_inner_area, is_hero_slide};
pub use theme::{theme_from_deck, ChromeSpec, Theme};
