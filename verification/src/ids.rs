//! Identifiers, secrets and the clock, from `wd_tools`.

use vstd::prelude::*;

verus! {

/// The last second that `chrono` can represent: the end of the year 262142
/// (its `NaiveDate::MAX`), in seconds since the epoch.
pub const LATEST_CLOCK_SECS: i64 = 8_210_266_876_799;

/// Whether `t` is a reading that the clock can give: seconds since the
/// epoch, between the epoch and the last second that `chrono` represents.
pub open spec fn clock_reading(t: int) -> bool {
    0 <= t <= LATEST_CLOCK_SECS
}

/// Calls `wd_tools::time::utc_timestamp`, which reads the system clock
/// (`chrono::Utc::now().timestamp()`, seconds since the epoch). `Utc::now`
/// panics on a clock set before the epoch, and unwraps
/// `DateTime::from_timestamp`, which has no value past `NaiveDate::MAX`; so a
/// value that comes back lies between the two. Beyond that it is the time of
/// the call, which is not stated.
#[verifier::external_body]
pub(crate) fn utc_timestamp() -> (t: i64)
    ensures
        clock_reading(t as int),
{
    wd_tools::time::utc_timestamp()
}

/// Calls `wd_tools::snowflake_id`, which packs the current time in
/// milliseconds, a node number and a counter into an `i64`. Its source clears
/// the top bit of the result, so the identifier is never negative; which
/// identifier comes back depends on the clock and on earlier calls. The
/// generator behind it derives a node number from the host's IPv4 address
/// once, on first use.
#[verifier::external_body]
pub(crate) fn snowflake_id() -> (id: i64)
    ensures
        id >= 0,
{
    wd_tools::snowflake_id()
}

/// Calls `wd_tools::uuid::v4`, a random version-4 UUID rendered as text.
/// Nothing is claimed of the text: it is random.
#[verifier::external_body]
pub(crate) fn uuid_v4() -> String {
    wd_tools::uuid::v4()
}

} // verus!
