use vstd::prelude::*;
use vstd::string::*;

use crate::error::Error;

verus! {

/// What to do when a branch has no stack yet.
#[derive(Clone, Copy, Debug, PartialEq, Eq, Structural)]
pub enum InitializationPolicy {
    RequireInitialized,
    AllowUninitialized,
    AutoInitialize,
}

/// How the stack of a branch is obtained.
#[derive(Clone, Copy, Debug, PartialEq, Eq, Structural)]
pub enum LoadAction {
    /// Read the state from the stack reference's log commit.
    Load,
    /// Use an empty state on the branch tip, writing nothing.
    Empty,
    /// Write an empty state on the branch tip as the first log commit.
    Seed,
}

/// Decides how a branch's stack is obtained, given whether its stack
/// reference exists. Fails with `NotInitialized` when the policy requires a
/// stack that is absent.
pub fn load_action(policy: InitializationPolicy, ref_exists: bool) -> (r: Result<
    LoadAction,
    Error,
>)
    ensures
        ref_exists ==> r == Ok::<LoadAction, Error>(LoadAction::Load),
        !ref_exists && policy == InitializationPolicy::RequireInitialized ==> r == Err::<
            LoadAction,
            Error,
        >(Error::NotInitialized),
        !ref_exists && policy == InitializationPolicy::AllowUninitialized ==> r == Ok::<
            LoadAction,
            Error,
        >(LoadAction::Empty),
        !ref_exists && policy == InitializationPolicy::AutoInitialize ==> r == Ok::<
            LoadAction,
            Error,
        >(LoadAction::Seed),
{
    if ref_exists {
        Ok(LoadAction::Load)
    } else {
        match policy {
            InitializationPolicy::RequireInitialized => Err(Error::NotInitialized),
            InitializationPolicy::AllowUninitialized => Ok(LoadAction::Empty),
            InitializationPolicy::AutoInitialize => Ok(LoadAction::Seed),
        }
    }
}

/// Checks that a stack may be created: fails with `AlreadyInitialized`
/// when the branch has one.
pub fn check_initialize(ref_exists: bool) -> (r: Result<(), Error>)
    ensures
        ref_exists <==> r == Err::<(), Error>(Error::AlreadyInitialized),
        !ref_exists <==> r is Ok,
{
    if ref_exists {
        Err(Error::AlreadyInitialized)
    } else {
        Ok(())
    }
}

/// Checks that a stack may be removed: fails with `Protected` when the
/// branch is protected.
pub fn check_deinitialize(protected: bool) -> (r: Result<(), Error>)
    ensures
        protected <==> r == Err::<(), Error>(Error::Protected),
        !protected <==> r is Ok,
{
    if protected {
        Err(Error::Protected)
    } else {
        Ok(())
    }
}

/// The reference that holds the stack log of `branch`.
pub fn stack_ref_name(branch: &str) -> (r: String)
    ensures
        r@ == "refs/stacks/"@ + branch@,
{
    let mut s = String::new();
    s.append("refs/stacks/");
    s.append(branch);
    assert(s@ =~= "refs/stacks/"@ + branch@);
    s
}

/// The configuration key that marks `branch` as protected.
pub fn protect_key(branch: &str) -> (r: String)
    ensures
        r@ == "branch."@ + branch@ + ".stgit.protect"@,
{
    let mut s = String::new();
    s.append("branch.");
    s.append(branch);
    s.append(".stgit.protect");
    assert(s@ =~= "branch."@ + branch@ + ".stgit.protect"@);
    s
}

/// The prefix of every configuration key that belongs to the stack of
/// `branch`.
pub fn stack_config_prefix(branch: &str) -> (r: String)
    ensures
        r@ == "branch."@ + branch@ + ".stgit."@,
{
    let mut s = String::new();
    s.append("branch.");
    s.append(branch);
    s.append(".stgit.");
    assert(s@ =~= "branch."@ + branch@ + ".stgit."@);
    s
}

} // verus!
