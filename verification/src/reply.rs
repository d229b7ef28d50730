//! The status that every answer of the services carries.

use vstd::prelude::*;

verus! {

/// The code and message of an answer: 0 for success, 400 for a bad request,
/// 500 for a failure of the server.
#[derive(Debug)]
pub struct ReplyStatus {
    pub code: i32,
    pub message: String,
}

impl ReplyStatus {
    /// A successful answer.
    pub fn success() -> (r: ReplyStatus)
        ensures
            r.code == 0,
            r.message@ == "success"@,
    {
        proof {
            reveal_strlit("success");
        }
        ReplyStatus { code: 0, message: String::from_str("success") }
    }

    /// An answer to a bad request, with the reason.
    pub fn bad_request(message: String) -> (r: ReplyStatus)
        ensures
            r.code == 400,
            r.message@ == message@,
    {
        ReplyStatus { code: 400, message }
    }

    /// An answer to a request that failed on the server; `detail` is the
    /// debug rendering of the error.
    pub fn server_error(detail: &str) -> (r: ReplyStatus)
        ensures
            r.code == 500,
            r.message@ == "server error:"@ + detail@,
    {
        proof {
            reveal_strlit("server error:");
        }
        let mut message = String::from_str("server error:");
        message.append(detail);
        ReplyStatus { code: 500, message }
    }
}

} // verus!
