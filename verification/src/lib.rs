//! Carving of embedded PNG images out of raw binary data.
//!
//! A scan walks an untrusted byte buffer looking for the fixed PNG start
//! signature and the IEND footer, pairs each start marker with the nearest
//! footer after it, and emits the resulting byte ranges in ascending,
//! non-overlapping order. Slicing the buffer by those ranges recovers the
//! candidate images; no chunk-level validation is attempted.
//!
//! - [`matcher`] locates marker occurrences (the signature matcher).
//! - [`carve`] pairs markers into ranges (the carving engine).
//! - [`extract`] slices ranges out of the buffer and names the outputs.

pub mod carve;
pub mod extract;
pub mod matcher;
