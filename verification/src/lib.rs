//! A verified columnar scatter engine.
//!
//! Given an immutable typed column and a per-row destination index, the
//! engine splits the column into `k` output columns of the same encoding,
//! preserving the relative order of rows inside each destination bucket
//! (a stable partition). Four physical encodings are supported: fixed-width
//! primitives, booleans, variable-length byte strings, and nested lists.

pub mod cell;
pub mod bucket;
pub mod array;
pub mod builder;
pub mod scatter;
pub mod laws;
