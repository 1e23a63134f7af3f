//! In what order the locks of a project are taken.
use vstd::prelude::*;

verus! {

/// The locks of a project.
#[derive(Debug, Clone, Copy, PartialEq, Eq, Structural)]
pub enum LockName {
    /// Held by all that use the project.
    Shared,
    /// Held by the one that uses the database.
    Object,
}

/// What is to be done with a lock.
#[derive(Debug, Clone, Copy, PartialEq, Eq, Structural)]
pub enum LockAction {
    /// Take it together with others.
    Share(LockName),
    /// Take it alone, waiting for it.
    Take(LockName),
    /// Take it alone, if no other holds it.
    Try(LockName),
    Release(LockName),
}

/// How an attempt to take a lock ended.
#[derive(Debug, Clone, Copy, PartialEq, Eq, Structural)]
pub enum TryOutcome {
    Taken,
    Busy,
    Failed,
}

/// What the locks are taken for, one after the other.
pub fn lock_normal() -> (r: (LockAction, LockAction))
    ensures
        r == (LockAction::Share(LockName::Shared), LockAction::Take(LockName::Object)),
{
    (LockAction::Share(LockName::Shared), LockAction::Take(LockName::Object))
}

/// How they are released: the last one first.
pub fn unlock_normal() -> (r: (LockAction, LockAction))
    ensures
        r == (LockAction::Release(LockName::Object), LockAction::Release(LockName::Shared)),
{
    (LockAction::Release(LockName::Object), LockAction::Release(LockName::Shared))
}

/// How they are taken without waiting.
pub fn try_lock_normal() -> (r: (LockAction, LockAction))
    ensures
        r == (LockAction::Share(LockName::Shared), LockAction::Try(LockName::Object)),
{
    (LockAction::Share(LockName::Shared), LockAction::Try(LockName::Object))
}

/// What is to be done after the attempt: a lock that is held for nothing is
/// released.
pub fn after_try(outcome: TryOutcome) -> (r: Option<LockAction>)
    ensures
        r == match outcome {
            TryOutcome::Taken => None::<LockAction>,
            _ => Some(LockAction::Release(LockName::Shared)),
        },
{
    match outcome {
        TryOutcome::Taken => None,
        _ => Some(LockAction::Release(LockName::Shared)),
    }
}

} // verus!
