//! Renames files whose names carry a numeric counter so that the counter is
//! zero-padded to a fixed width (`img7.jpg` becomes `img007.jpg` at width 3).
//!
//! The library holds the decisions: how a file name splits into prefix,
//! counter and suffix, how a counter is parsed and re-rendered, and which
//! outcome a file gets. Walking directories and renaming files is left to
//! the caller.
pub mod digits;
pub mod pattern;
pub mod rename;

pub use digits::{pad_count, parse_count, parse_width};
pub use pattern::{split_name, NameParts};
pub use rename::{plan_rename, BaseName, RenameError};
