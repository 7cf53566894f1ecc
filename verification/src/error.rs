//! The ways in which building a graph from datasets can fail.

use vstd::prelude::*;

verus! {

/// What is wrong with a row of a dataset.
#[derive(Clone, Copy, Debug, PartialEq, Eq)]
pub enum ParseReason {
    /// The row does not have the number of fields that the dataset calls for.
    RowShape,
    /// The value field is no number, or one too large to hold.
    InvalidNumber,
}

/// Why a graph could not be built.
#[derive(Clone, Copy, Debug, PartialEq, Eq)]
pub enum GraphError {
    /// A row could not be read; `line` counts from 1 and includes the header.
    ParseError { line: usize, reason: ParseReason },
    /// Every score is the same, so there is no range to rescale to.
    DegenerateDataset,
    /// The graph has more nodes or edges than 32-bit indices can number.
    CapacityExceeded,
}

} // verus!
