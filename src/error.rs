use vstd::prelude::*;

verus! {

/// The kinds of failure reported by the library.
#[derive(Clone, Copy, Debug, PartialEq, Eq, Structural)]
pub enum Error {
    NotInitialized,
    AlreadyInitialized,
    Protected,
    NonEmpty,
    NameConflict,
    ParentMismatch,
    StackMetadataNotFound,
    StackMetadataMalformed,
    InvalidPatchName,
    UnknownPatch,
    NothingApplied,
    CurrentBranch,
    PatchApplied,
    InvalidOrder,
}

} // verus!
