use vstd::prelude::*;

verus! {

/// The failure kinds that the repository core reports.
#[derive(Clone, Copy, Debug, PartialEq, Eq, Structural)]
pub enum GitError {
    /// An object or a ref does not exist.
    NotFound,
    /// Decompression, header, length or digest mismatch.
    Corrupt,
    /// The operation requires an attached HEAD.
    DetachedHead,
    /// A named branch ref is missing.
    UnknownBranch,
    /// A branch of that name already exists.
    BranchExists,
    /// A push was rejected because the receiver's ref does not descend
    /// from the sender's.
    NonFastForward,
    /// At least one path conflicts in a three-way merge.
    MergeConflict,
    /// An underlying file-system failure, reported by the caller.
    Io,
    /// A malformed path, object id, ref name or mode.
    InvalidArgument,
}

} // verus!
