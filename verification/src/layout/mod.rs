//! Placing the cells of a slide on a terminal area.

pub mod engine;

pub use engine::{
    cell_type, layout, place_cells, plan_layout, row_distribution, CellType, Constraint, LayoutPlan, Rect,
};
