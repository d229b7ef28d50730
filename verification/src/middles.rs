//! What the server does around every request.

use vstd::prelude::*;

use crate::exit::Exit;

verus! {

/// Why a request is turned away, by the status of the server.
pub open spec fn rejection(status: isize) -> Option<Seq<char>> {
    if status == 0 {
        Some("server not ready"@)
    } else if status == 1 {
        None
    } else if status == 2 {
        Some("server exiting"@)
    } else {
        Some("server abnormal"@)
    }
}

/// Whether `r` is the answer of the guard to a request when the status is
/// `status`.
pub open spec fn answers(status: isize, r: Result<(), String>) -> bool {
    match rejection(status) {
        None => r is Ok,
        Some(m) => r is Err && r->Err_0@ == m,
    }
}

/// Admits requests only while the server is working, and counts the
/// requests being served.
#[derive(Debug)]
pub struct MiddleExit {
    exit: Exit,
}

/// The request log of the server, as a marker type. It carries no state
/// and no behaviour: the logging of each request is not kept here.
pub struct MiddleLog;

impl MiddleExit {
    /// the guard of the server whose life cycle is `exit`.
    pub fn new(exit: Exit) -> (r: MiddleExit)
        ensures
            r.exit() == exit,
    {
        MiddleExit { exit }
    }

    /// The life cycle that the guard follows.
    pub closed spec fn exit(&self) -> Exit {
        self.exit
    }

    /// Whether a request is admitted when the status is `status`: it is when
    /// the server is working; otherwise the message says why not.
    pub fn admission(status: isize) -> (r: Result<(), String>)
        ensures
            answers(status, r),
    {
        proof {
            reveal_strlit("server not ready");
            reveal_strlit("server exiting");
            reveal_strlit("server abnormal");
        }
        match status {
            0 => Err(String::from_str("server not ready")),
            1 => Ok(()),
            2 => Err(String::from_str("server exiting")),
            _ => Err(String::from_str("server abnormal")),
        }
    }

    /// A request arrives: it is admitted, and counted, only while the server
    /// is working; otherwise the message says why it is turned away.
    pub fn request(&self) -> (r: Result<(), String>)
        ensures
            exists|s: isize| #[trigger] answers(s, r),
    {
        let status = self.exit.status();
        let r = MiddleExit::admission(status);
        if r.is_ok() {
            self.exit.add_task();
        }
        r
    }

    /// A response leaves: the request is no longer counted.
    pub fn response(&self) {
        self.exit.sub_task();
    }
}

} // verus!
