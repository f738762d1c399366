//! Aligns delimited tabular text into visual columns.
//!
//! The library splits each input line into fields (by a literal delimiter
//! character or by runs of whitespace), measures the display width of every
//! field, computes one width per column, and re-emits the text with padding
//! between fields so that columns line up. Trailing line comments can be
//! preserved verbatim without influencing the column widths.

pub mod config;
pub mod laws;
pub mod render;
pub mod split;
pub mod table;
pub mod width;

pub use config::Args;
pub use render::retable;
pub use split::split_by;
pub use split::split_comment;
pub use table::calculate_field_sizes;
pub use width::display_width;
