//! How blobs are grouped into erasure sets.
//!
//! The blobs of a slot are divided into blocks of `NUM_DATA` data blobs. The last
//! `NUM_CODING` data blobs of a block have a coding blob each, with the same index.
use vstd::prelude::*;

verus! {

/// The number of data blobs of an erasure set.
pub const NUM_DATA: usize = 16;

/// The number of coding blobs of an erasure set, also the most blobs that can go missing.
pub const NUM_CODING: usize = 4;

/// The number of blobs of an erasure set, data and coding.
pub const ERASURE_SET_SIZE: usize = NUM_DATA + NUM_CODING;

/// The index of the first data blob of the block that `index` lies in.
pub open spec fn block_start(index: int) -> int {
    index - index % NUM_DATA as int
}

/// The index of the first coding blob of the block that `index` lies in.
pub open spec fn coding_start(index: int) -> int {
    block_start(index) + NUM_DATA - NUM_CODING
}

/// The index behind the last blob of the block that `index` lies in.
pub open spec fn block_end(index: int) -> int {
    block_start(index) + NUM_DATA
}

/// Every index lies in one block: the blocks start at the multiples of `NUM_DATA`, are
/// `NUM_DATA` indexes long, and their last `NUM_CODING` indexes are those of the coding blobs.
pub proof fn lemma_block_holds_index(index: int)
    ensures
        block_start(index) % NUM_DATA as int == 0,
        block_start(index) <= index < block_end(index),
        block_end(index) == block_start(index) + NUM_DATA,
        coding_start(index) == block_end(index) - NUM_CODING,
        index >= 0 ==> block_start(index) >= 0,
{
}

/// Two indexes lie in the same block if and only if no multiple of `NUM_DATA` parts them, and
/// then the bounds are the same.
pub proof fn lemma_same_block(index: int, other: int)
    ensures
        block_start(index) <= other < block_end(index) <==> index / NUM_DATA as int == other
            / NUM_DATA as int,
        index / NUM_DATA as int == other / NUM_DATA as int ==> {
            &&& block_start(index) == block_start(other)
            &&& coding_start(index) == coding_start(other)
            &&& block_end(index) == block_end(other)
        },
{
}

/// Returns the indexes that bound the block that `start_idx` lies in: that of its first data
/// blob, that of its first coding blob, and the one behind its last blob. Returns `None` if
/// the last of these is out of range.
pub fn set_bounds(start_idx: u64) -> (bounds: Option<(u64, u64, u64)>)
    ensures
        match bounds {
            Some((start, coding, end)) => {
                &&& start == block_start(start_idx as int)
                &&& coding == coding_start(start_idx as int)
                &&& end == block_end(start_idx as int)
                &&& start % NUM_DATA as u64 == 0
                &&& start <= start_idx < end
                &&& end == start + NUM_DATA
                &&& coding == end - NUM_CODING
            },
            None => {
                &&& block_end(start_idx as int) > u64::MAX
                &&& start_idx / NUM_DATA as u64 == u64::MAX / NUM_DATA as u64
            },
        },
{
    let start: u64 = start_idx - start_idx % NUM_DATA as u64;
    if start > u64::MAX - NUM_DATA as u64 {
        return None;
    }
    Some((start, start + (NUM_DATA - NUM_CODING) as u64, start + NUM_DATA as u64))
}

} // verus!
