#![allow(unused_imports)]
use vstd::prelude::*;

pub mod cell_space;
pub mod morton;
pub mod sfc;

verus! {

/// Reasons an internal quantization, encoding or reconstruction step can
/// fail. Queries treat every failure as "no result"; the builder drops the
/// offending item and continues.
#[derive(Clone, Copy, Debug, PartialEq, Eq, Structural)]
pub enum SfcError {
    /// A coordinate vector does not have exactly `dimensions` entries.
    DimensionMismatch,
    /// A coordinate value lies outside the quantization grid.
    OutOfGrid,
    /// A cell identifier does not fit in the configured bit budget.
    CodeOverflow,
    /// A (cell, offset) pair points outside a coordinate dictionary.
    BadReference,
    /// The grid holds no quantized point at all in some dimension.
    EmptyDimension,
}

} // verus!
