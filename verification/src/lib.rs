//! Discovery and lane concatenation for multi-lane sequencing read files.
//!
//! The library holds the logic of the pipeline: filename classification,
//! sample-identifier construction, manifest rendering and parsing,
//! deterministic ordering, and the per-sample merge of gzip-compressed
//! lane files.  File and console I/O stay outside, in the binary that
//! drives it.

pub mod classify;
pub mod concat;
pub mod finder;
pub mod globpat;
pub mod merger;
pub mod order;
pub mod text;
