//! The distributed lock that guards every change of a task's slots.

use vstd::prelude::*;

verus! {

/// How many times a task lock is tried before giving up.
pub const LOCK_ATTEMPTS: u64 = 3;

/// How long, in seconds, a task lock is held at most.
pub const TASK_LOCK_TIMEOUT_SECS: u64 = 30;

/// What to do after one attempt to take a lock.
#[derive(Debug, PartialEq, Eq, Structural)]
pub enum LockStep {
    /// The lock is taken.
    Acquired,
    /// Wait this many seconds, then try again.
    RetryAfter(u64),
    /// Wait this many seconds, then report that the lock was not taken.
    GiveUpAfter(u64),
}

/// The step after attempt number `attempt` (counted from 0) out of `again`:
/// taken if it succeeded; otherwise wait one second more than after the
/// previous attempt, and try again while attempts remain.
pub fn lock_step(attempt: u64, again: u64, succeeded: bool) -> (r: LockStep)
    requires
        attempt < again,
    ensures
        succeeded ==> r == LockStep::Acquired,
        !succeeded && attempt + 1 < again ==> r == LockStep::RetryAfter((attempt + 1) as u64),
        !succeeded && attempt + 1 >= again ==> r == LockStep::GiveUpAfter((attempt + 1) as u64),
{
    if succeeded {
        LockStep::Acquired
    } else if attempt + 1 < again {
        LockStep::RetryAfter(attempt + 1)
    } else {
        LockStep::GiveUpAfter(attempt + 1)
    }
}

/// A task change runs only under its lock: when the lock was not taken, the
/// change fails with this message.
pub fn require_lock(acquired: bool) -> (r: Result<(), String>)
    ensures
        acquired ==> r is Ok,
        !acquired ==> (r is Err && r->Err_0@ == "lock try failed"@),
{
    proof {
        reveal_strlit("lock try failed");
    }
    if acquired {
        Ok(())
    } else {
        Err(String::from_str("lock try failed"))
    }
}

} // verus!
