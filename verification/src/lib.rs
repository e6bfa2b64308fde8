//! Compressed integer sequences with array-like indexing.
//!
//! The crate packs `u64` sequences in groups of eight using a zero-mask and a
//! shared nibble width, decodes them through pluggable sinks, frames histogram
//! bucket counts on top of the block codec, and offers an indexable container
//! of encoded chunks with bounded-cost random access.

use vstd::prelude::*;

pub mod byteutils;
pub mod histogram;
pub mod vector;
pub mod nibblepacking;
pub mod sink;

verus! {

/// The error taxonomy shared by every codec-level function.
#[derive(Clone, Copy, Debug, PartialEq, Eq, Structural)]
pub enum CodecError {
    /// Bad construction parameters (non-positive multiplier or initial
    /// bucket, bucket count overflow, mismatched counts).
    ValidationError,
    /// A buffer shorter than its own header declares.
    TruncatedInput,
    /// Declared value count and actually available data disagree.
    InconsistentLength,
    /// Unknown or unimplemented format code or variant.
    Unsupported,
}

} // verus!
