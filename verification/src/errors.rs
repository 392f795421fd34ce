//! Error values returned by the writer and reader.

use vstd::prelude::*;

verus! {

/// A failure of a writer or reader operation.
///
/// Capacity exhaustion on the writer and underrun on the reader are both
/// reported as `NotEnoughBytesLeft`; a variable-length integer whose
/// encoding runs past the allowed number of groups is reported distinctly
/// as `VlqOverflow`, so callers can tell a malformed varint apart from a
/// truncated stream.
#[derive(Clone, Copy, Debug, PartialEq, Eq, Structural)]
pub enum ParquetError {
    NotEnoughBytesLeft,
    VlqOverflow,
}

impl ParquetError {
    /// A human-readable description of the failure.
    pub fn description(&self) -> (r: &'static str)
        ensures
            *self is NotEnoughBytesLeft ==> r@ == "Not enough bytes left"@,
            *self is VlqOverflow ==> r@ == "Num of bytes exceed MAX_VLQ_BYTE_LEN (5)"@,
    {
        match self {
            ParquetError::NotEnoughBytesLeft => "Not enough bytes left",
            ParquetError::VlqOverflow => "Num of bytes exceed MAX_VLQ_BYTE_LEN (5)",
        }
    }
}

/// The result type used throughout the crate.
pub type Result<T> = core::result::Result<T, ParquetError>;

} // verus!
