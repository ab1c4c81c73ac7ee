//! Rebuilds a directory hierarchy from the glyph-drawn text that a
//! tree-listing tool prints, and plans a spreadsheet rendering of it:
//! one column per depth level, with contiguous rows of shared ancestry
//! merged into one visual cell.

pub mod grid;
pub mod parser;
pub mod plan;
pub mod text;

