use vstd::prelude::*;

verus! {

/// The errors a ranged read can end in.
///
/// `InvalidRange` is a planning-time misuse: the requested start lies beyond
/// the object. `RemoteFetchError` carries the chunk whose range read failed
/// and the underlying cause. `IncompleteResult` means the set of chunk
/// results does not cover the planned indices exactly. `LengthMismatch`
/// means fetched bytes do not add up to the expected length.
#[derive(Debug, Clone, PartialEq, Eq)]
pub enum ReadError {
    InvalidRange,
    RemoteFetchError { index: usize, cause: String },
    IncompleteResult,
    LengthMismatch { expected: u64, actual: u64 },
}

} // verus!
