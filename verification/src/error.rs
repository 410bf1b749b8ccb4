//! The failure modes of the backend.

use vstd::prelude::*;

verus! {

use crate::u264::U264;

/// Every fallible operation hands one of these back to its caller; nothing
/// is retried and nothing panics.
#[derive(Debug, PartialEq, Eq)]
pub enum Error {
    /// A balance or nonce operation would leave the unsigned 64-bit range.
    Overflow,
    /// An operation needed a tree node that the supplied proof does not
    /// cover; the payload is the missing index.
    ChunkNotLoaded(U264),
    /// A proof buffer is shorter than its declared length, or its offset
    /// bookkeeping is inconsistent.
    MalformedProof,
}

} // verus!
