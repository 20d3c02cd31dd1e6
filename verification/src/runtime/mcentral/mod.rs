//! Central free lists of spans: the span metadata and its slot bitmap.
pub mod span;
