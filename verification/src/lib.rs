//! A recursive-descent JSON parser with a verified value model.
//!
//! The library parses a sequence of characters into a tree of [`value::JsonValue`]s,
//! tracking 1-based line and column positions for diagnostics, and can render a
//! value tree back to JSON text.

pub mod cursor;
pub mod error;
pub mod laws;
pub mod numtok;
pub mod parser;
pub mod render;
pub mod semantics;
pub mod value;
