//! Errors surfaced by the aggregator.

use crate::chunk::DataType;
use vstd::prelude::*;

verus! {

/// Why a merge failed. None of these is retried; a bucket either produces
/// its output chunk or fails with one of them.
#[derive(Clone, Copy, Debug, PartialEq, Eq, Structural)]
pub enum ErrorCode {
    /// A state column does not hold byte strings. Carries the type that the
    /// chunk declares for that column.
    IllegalDataType(DataType),
    /// An aggregate function or a key encoding rejected its input. Carries
    /// the code chosen by whoever failed; the aggregator passes it on as is.
    FunctionError(u16),
    /// The state arena or the hash table cannot grow any further.
    AllocationFailure,
}

/// Function error: a serialized state has the wrong length.
pub const BAD_STATE_BYTES: u16 = 1;

/// Function error: merging two states leaves the value range.
pub const STATE_OVERFLOW: u16 = 2;

/// Function error: the key column is not of the type the encoding reads.
pub const BAD_KEY_COLUMN: u16 = 3;

} // verus!
