//! Errors of the aggregation engine.
use vstd::prelude::*;

verus! {

/// Why building or running an aggregation failed.
#[derive(Clone, Copy, Debug, PartialEq, Eq, Structural)]
pub enum SortAggError {
    /// An aggregate's running value left the range of a 64-bit integer.
    NumericOutOfRange,
    /// An expression refers to a column that the input does not have.
    ColumnOutOfRange { index: usize },
    /// An expression refers to a column whose type the engine cannot aggregate.
    UnsupportedType { index: usize },
    /// An aggregate call has the wrong number of arguments for its kind.
    InvalidArgumentCount,
    /// The output batch size must be at least one row.
    ZeroOutputSizeLimit,
}

} // verus!
