//! Verified core of a Go-style runtime and standard library: the page
//! allocator's radix tree and bitmaps, the `slices` package, and the
//! parsers behind symbolization.
pub mod runtime;
pub mod slices;
