use vstd::prelude::*;

verus! {

/// Failure modes of the snapshot-diff store and codec.
#[derive(Clone, Copy, Debug, PartialEq, Eq, Structural)]
pub enum Error {
    /// `get_statediff` was asked for a snapshot id that was never saved.
    MissingEntry,
    /// The underlying key-value operation itself failed.
    StoreFailure,
    /// A stored blob is too short to hold the 8-byte parent field.
    Malformed,
}

} // verus!
