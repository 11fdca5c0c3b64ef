//! Select lines of a text stream by a compact list of line-number ranges.
pub mod pattern;
pub mod select;
pub mod split;

pub use pattern::{ErrorKind, Pattern, PatternError};
pub use select::{parse_patterns, write_lines, Options, Selector};
pub use split::stream_split;
