//! How a slide sits on the screen: the padded content area, the chrome rows,
//! which slides are hero slides and where a hero slide's rows go.

use crate::layout::Rect;
use crate::parser::ast::{Block, Slide};
use crate::render::theme::Theme;
use vstd::prelude::*;

verus! {

/// Narrow-terminal fallback threshold: below this width we skip horizontal
/// padding and let content claim every cell.
pub const NARROW_WIDTH_THRESHOLD: u16 = 20;

/// Short-terminal fallback threshold: below this height a hero slide is not
/// centered vertically.
pub const SHORT_HEIGHT_THRESHOLD: u16 = 5;

/// The side padding for a screen `width` cells wide: none on a narrow screen,
/// else 8% of the width, kept between 3 and 12.
pub open spec fn pad_x(width: u16) -> int {
    if width < NARROW_WIDTH_THRESHOLD {
        0
    } else {
        let raw = (width as int) * 8 / 100;
        if raw < 3 {
            3
        } else if raw > 12 {
            12
        } else {
            raw
        }
    }
}

/// The chrome rows on a screen `height` rows high: what the theme asks for,
/// at most a third of the height.
pub open spec fn chrome_rows(height: u16, theme_rows: u16) -> int {
    if theme_rows <= height / 3 {
        theme_rows as int
    } else {
        (height / 3) as int
    }
}

/// `a - b`, or 0 when `b` is larger.
pub open spec fn sat_sub(a: int, b: int) -> int {
    if a >= b {
        a - b
    } else {
        0
    }
}

/// Splits `outer` into the content area, padded on both sides, and the
/// chrome rows below it.
pub fn compute_inner_area(outer: Rect, theme: &Theme) -> (r: (Rect, Rect))
    requires
        outer.x + pad_x(outer.width) <= u16::MAX,
        outer.y + outer.height - chrome_rows(outer.height, theme.chrome_rows) <= u16::MAX,
    ensures
        r.0 == (Rect {
            x: (outer.x + pad_x(outer.width)) as u16,
            y: outer.y,
            width: sat_sub(outer.width as int, 2 * pad_x(outer.width)) as u16,
            height: (outer.height - chrome_rows(outer.height, theme.chrome_rows)) as u16,
        }),
        r.1 == (Rect {
            x: outer.x,
            y: (outer.y + outer.height - chrome_rows(outer.height, theme.chrome_rows)) as u16,
            width: outer.width,
            height: chrome_rows(outer.height, theme.chrome_rows) as u16,
        }),
        // The content area and the chrome rows share the outer area: the
        // chrome sits right below the content, together they are as high as
        // the outer area, and the content stays within its columns.
        r.1.y == r.0.y + r.0.height,
        r.0.height + r.1.height == outer.height,
        r.1.height <= outer.height / 3,
        outer.x <= r.0.x,
        r.0.x + r.0.width <= outer.x + outer.width,
{
    let pad: u16 = if outer.width < NARROW_WIDTH_THRESHOLD {
        0
    } else {
        let raw = (outer.width as u32) * 8 / 100;
        let raw16 = raw as u16;
        if raw16 < 3 {
            3
        } else if raw16 > 12 {
            12
        } else {
            raw16
        }
    };
    let max_chrome = outer.height / 3;
    let rows = if theme.chrome_rows <= max_chrome {
        theme.chrome_rows
    } else {
        max_chrome
    };
    let inner_width = outer.width.saturating_sub(pad * 2);
    let inner_height = outer.height - rows;
    let inner = Rect { x: outer.x + pad, y: outer.y, width: inner_width, height: inner_height };
    let chrome = Rect { x: outer.x, y: outer.y + inner_height, width: outer.width, height: rows };
    (inner, chrome)
}

/// A hero slide: a single cell holding a level-one heading, alone or followed
/// by one paragraph.
pub open spec fn spec_is_hero(slide: Slide) -> bool {
    &&& slide.cells@.len() == 1
    &&& slide.cells@[0].blocks@.len() == 1 || (slide.cells@[0].blocks@.len() == 2
        && slide.cells@[0].blocks@[1] is Paragraph)
    &&& slide.cells@[0].blocks@[0] matches Block::Heading { level, .. }
    &&& level == 1
}

/// Whether `slide` is a hero slide, which renders centered.
pub fn is_hero_slide(slide: &Slide) -> (r: bool)
    ensures
        r == spec_is_hero(*slide),
{
    if slide.cells.len() != 1 {
        return false;
    }
    let blocks = &slide.cells[0].blocks;
    if blocks.len() == 0 || blocks.len() > 2 {
        return false;
    }
    let first_ok = match &blocks[0] {
        Block::Heading { level, .. } => *level == 1,
        _ => false,
    };
    if !first_ok {
        return false;
    }
    if blocks.len() == 2 {
        match &blocks[1] {
            Block::Paragraph { .. } => true,
            _ => false,
        }
    } else {
        true
    }
}

// ---------------------------------------------------------------------------
// Hero slides
// ---------------------------------------------------------------------------

/// Where a hero slide's rows go in `inner`: the heading, and the subtitle
/// two rows below it when there is one and it fits.
#[derive(Debug, Clone, Copy, PartialEq, Eq)]
pub struct HeroRows {
    pub heading: Rect,
    pub subtitle: Option<Rect>,
}

/// How far down `inner` a hero's content starts: centered, unless the area
/// is short.
pub open spec fn hero_top(inner: Rect, has_subtitle: bool) -> int {
    let content: int = if has_subtitle {
        3
    } else {
        1
    };
    if inner.height < SHORT_HEIGHT_THRESHOLD {
        0
    } else if inner.height >= content {
        (inner.height - content) / 2
    } else {
        0
    }
}

/// The rows of a hero slide in `inner`, or none when the area is empty.
pub fn hero_rows(inner: Rect, has_subtitle: bool) -> (r: Option<HeroRows>)
    requires
        inner.y + inner.height <= u16::MAX,
        has_subtitle ==> inner.y + hero_top(inner, has_subtitle) + 2 <= u16::MAX,
    ensures
        inner.width == 0 || inner.height == 0 ==> r is None,
        inner.width > 0 && inner.height > 0 ==> r == Some(
            HeroRows {
                heading: Rect {
                    x: inner.x,
                    y: (inner.y + hero_top(inner, has_subtitle)) as u16,
                    width: inner.width,
                    height: 1,
                },
                subtitle: if has_subtitle && hero_top(inner, has_subtitle) + 2 < inner.height {
                    Some(
                        Rect {
                            x: inner.x,
                            y: (inner.y + hero_top(inner, has_subtitle) + 2) as u16,
                            width: inner.width,
                            height: 1,
                        },
                    )
                } else {
                    None
                },
            },
        ),
{
    if inner.width == 0 || inner.height == 0 {
        return None;
    }
    let content: u16 = if has_subtitle {
        3
    } else {
        1
    };
    let top = if inner.height < SHORT_HEIGHT_THRESHOLD {
        0
    } else {
        inner.height.saturating_sub(content) / 2
    };
    let heading_y = inner.y + top;
    let heading = Rect { x: inner.x, y: heading_y, width: inner.width, height: 1 };
    let subtitle = if has_subtitle {
        let sy = heading_y + 2;
        if sy < inner.y + inner.height {
            Some(Rect { x: inner.x, y: sy, width: inner.width, height: 1 })
        } else {
            None
        }
    } else {
        None
    };
    Some(HeroRows { heading, subtitle })
}

} // verus!
