//! Score-and-select truncation of long function bodies.
//!
//! When a function spans at least a threshold number of lines, the selector
//! scores each line of the range by lightweight, language-agnostic textual
//! heuristics and keeps only the highest-scoring lines (the signature and
//! closing line always among them), restoring reading order at the end.

pub mod classify;
pub mod select;
pub mod text;

pub use select::select_diverse_lines;
pub use select::Lang;
pub use select::MAX_KEPT_LINES;
pub use select::MIN_LINES_FOR_TRUNCATION;
