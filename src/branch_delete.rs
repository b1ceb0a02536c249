use vstd::prelude::*;

use crate::error::Error;

verus! {

/// What deleting a branch must do, given what is known of it.
#[derive(Clone, Copy, Debug, PartialEq, Eq, Structural)]
pub enum DeletePlan {
    /// The branch has a stack: remove the stack, then the branch.
    DeinitializeThenDelete,
    /// The branch has no stack: remove the branch alone.
    DeleteOnly,
}

/// Decides whether a branch may be deleted. The current branch never may; a
/// branch with a stack may not while it is protected, nor while patches
/// remain unless `force` is given.
pub fn delete_plan(
    is_current: bool,
    initialized: bool,
    protected: bool,
    force: bool,
    patch_count: usize,
) -> (r: Result<DeletePlan, Error>)
    ensures
        is_current ==> r == Err::<DeletePlan, Error>(Error::CurrentBranch),
        !is_current && !initialized ==> r == Ok::<DeletePlan, Error>(DeletePlan::DeleteOnly),
        !is_current && initialized && protected ==> r == Err::<DeletePlan, Error>(
            Error::Protected,
        ),
        !is_current && initialized && !protected && !force && patch_count > 0 ==> r == Err::<
            DeletePlan,
            Error,
        >(Error::NonEmpty),
        !is_current && initialized && !protected && (force || patch_count == 0) ==> r == Ok::<
            DeletePlan,
            Error,
        >(DeletePlan::DeinitializeThenDelete),
{
    if is_current {
        Err(Error::CurrentBranch)
    } else if !initialized {
        Ok(DeletePlan::DeleteOnly)
    } else if protected {
        Err(Error::Protected)
    } else if !force && patch_count > 0 {
        Err(Error::NonEmpty)
    } else {
        Ok(DeletePlan::DeinitializeThenDelete)
    }
}

} // verus!
