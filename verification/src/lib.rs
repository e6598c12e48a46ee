//! Erasure coding for blobs.
//!
//! `NUM_DATA` data blobs and `NUM_CODING` coding blobs form an erasure set. As long as no more
//! than `NUM_CODING` blobs of a set are missing, all of them can be recovered.
//! [`window::generate_coding`] fills in the coding blobs of a window, and
//! [`recovery::recover`] brings back missing blobs from what is left of a set. The module
//! [`laws`] states what the two promise together. The modules [`window_laws`] and
//! [`recovery_laws`] state what each does, slot by slot, entry by entry and byte by byte.
use vstd::prelude::*;

pub mod blocks;
pub mod cauchy;
pub mod decode;
pub mod endian;
pub mod error;
pub mod galois;
pub mod laws;
pub mod layout;
pub mod packet;
pub mod positions;
pub mod recovery;
pub mod recovery_laws;
pub mod window;
pub mod window_laws;

verus! {

} // verus!
