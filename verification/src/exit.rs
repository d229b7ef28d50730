//! The life cycle of the server process, shared by every part of it.
//!
//! The status moves from 0 (not started) to 1 (working), 2 (exiting: no new
//! request is taken) and 3 (exited); the task count is the number of
//! requests being served.

use vstd::prelude::*;
use std::sync::Arc;
use std::sync::atomic::AtomicIsize;

verus! {

/// The status and the number of requests in flight, shared by all clones.
/// Every clone reads and writes the same two counters, from any thread, so
/// nothing is claimed here of the value that a read returns.
#[derive(Debug, Clone)]
pub struct Exit {
    status: Arc<AtomicIsize>,
    task_count: Arc<AtomicIsize>,
}

impl Default for Exit {
    fn default() -> (r: Exit) {
        Exit { status: Arc::new(AtomicIsize::new(0)), task_count: Arc::new(AtomicIsize::new(0)) }
    }
}

impl Exit {
    /// The server starts working (status 1).
    pub fn start(&self) {
        self.status.store(1, std::sync::atomic::Ordering::Relaxed);
    }

    /// The server has exited (status 3).
    pub fn over(&self) {
        self.status.store(3, std::sync::atomic::Ordering::Relaxed);
    }

    /// One more request is being served.
    pub fn add_task(&self) {
        self.task_count.fetch_add(1, std::sync::atomic::Ordering::Relaxed);
    }

    /// One request less is being served.
    pub fn sub_task(&self) {
        self.task_count.fetch_sub(1, std::sync::atomic::Ordering::Relaxed);
    }

    /// The current status.
    pub fn status(&self) -> isize {
        self.status.load(std::sync::atomic::Ordering::Relaxed)
    }

    /// The number of requests being served now.
    pub fn task_count(&self) -> isize {
        self.task_count.load(std::sync::atomic::Ordering::Relaxed)
    }

    /// The start of an exit. Gives the status read and whether the caller
    /// waits: a server that never started (status 0) has nothing to wait
    /// for; otherwise it is marked as exiting (status 2) and the caller
    /// waits.
    pub fn begin_exit(&self) -> (r: (isize, bool))
        ensures
            r.1 == exit_waits(r.0),
    {
        let status = self.status.load(std::sync::atomic::Ordering::Relaxed);
        if !exit_begins(status) {
            return (status, false);
        }
        self.status.store(2, std::sync::atomic::Ordering::Relaxed);
        (status, true)
    }
}

/// Whether an exit has to wait, by the status of the server: only a server
/// that has started has requests or a status to wait for.
pub open spec fn exit_waits(status: isize) -> bool {
    status != 0
}

/// Whether an exit has to wait when the status is `status`.
pub fn exit_begins(status: isize) -> (r: bool)
    ensures
        r == exit_waits(status),
{
    status != 0
}

/// Whether the wait for the end of an exit is over: the status has moved
/// past "exiting" (2).
pub fn exit_settled(status: isize) -> (r: bool)
    ensures
        r == (status > 2),
{
    status > 2
}

/// Whether the wait for the requests in flight is over: none is left.
pub fn tasks_drained(count: isize) -> (r: bool)
    ensures
        r == (count == 0),
{
    count == 0
}

} // verus!
