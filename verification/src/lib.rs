//! The decision logic of a `grep` front end: argument rewriting, option
//! decoding, pattern collection, file-name globs and `GREP_COLORS` parsing.

pub mod modes;
pub mod shorthand;
pub mod color;
pub mod globset;
pub mod text;
pub mod patterns;
pub mod config;
