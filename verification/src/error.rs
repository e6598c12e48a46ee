//! Errors of erasure coding and recovery.
use vstd::prelude::*;

verus! {

/// Why coding or recovery was refused.
#[derive(Debug, PartialEq, Eq, Structural)]
pub enum ErasureError {
    /// More blobs of the erasure set are missing than coding blobs can make up for.
    NotEnoughBlocksToDecode,
    /// More blocks are erased than there are coding blocks.
    DecodeError,
    /// The coding blobs could not be prepared.
    EncodeError,
    /// The blocks of a set do not all have the same size.
    InvalidBlockSize,
    /// A stored blob is too short to hold data or longer than a blob.
    InvalidBlobData,
}

} // verus!
