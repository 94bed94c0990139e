//! Rows as the widget draws them.
//!
//! A layout says which line belongs at which position. A pane has to answer more than that:
//! what the line reads as once tabs are expanded, how many columns it occupies, which numbers
//! its gutter shows, and what is painted behind it. Nothing here knows what a diff is.

pub mod row;
pub mod model;
