//! The calls into `chrono`: reading the clock and counting whole days
//! between two instants.
use vstd::prelude::*;
use crate::structs::Timestamp;

verus! {

/// Reads the local clock through `chrono::Local::now`, as seconds since the
/// Unix epoch and the nanoseconds past that second. The instant depends on
/// when the call is made, so nothing is stated of it.
#[verifier::external_body]
pub(crate) fn now() -> (t: Timestamp) {
    let t = chrono::Local::now();
    Timestamp { secs: t.timestamp(), nanos: t.timestamp_subsec_nanos() }
}

/// What `chrono` answers for the number of whole days from the instant
/// (`earlier_secs`, `earlier_nanos`) to the instant (`later_secs`,
/// `later_nanos`): `None` when `DateTime::from_timestamp` refuses either
/// instant, else `Some` of `signed_duration_since(..).num_days()`.
pub uninterp spec fn days_elapsed(later_secs: i64, later_nanos: u32, earlier_secs: i64, earlier_nanos: u32) -> Option<i64>;

/// The whole days, truncated toward zero, in the span from the instant
/// (`earlier_secs`, `earlier_nanos`) to the instant (`later_secs`,
/// `later_nanos`).
pub open spec fn whole_days(later_secs: i64, later_nanos: u32, earlier_secs: i64, earlier_nanos: u32) -> int {
    let ns = (later_secs - earlier_secs) * 1_000_000_000 + (later_nanos - earlier_nanos);
    let day: int = 86_400_000_000_000;
    if ns >= 0 {
        ns / day
    } else {
        -((-ns) / day)
    }
}

/// Whether an instant `secs` seconds from the Unix epoch, not within a leap
/// second (`nanos` below one second), lies well inside the years that
/// `chrono` can represent (about 250,000 years either side of the epoch).
pub open spec fn plain_instant(secs: i64, nanos: u32) -> bool {
    -8_000_000_000_000 <= secs <= 8_000_000_000_000 && nanos < 1_000_000_000
}

/// Builds both instants with `chrono::DateTime::from_timestamp` and counts
/// the whole days between them with `signed_duration_since` and
/// `TimeDelta::num_days`. The contract names the result; for two instants
/// well inside chrono's range and outside leap seconds it states it: the
/// span in whole days, truncated toward zero. What chrono answers for a
/// leap second or an instant near the ends of its range is left unsaid.
#[verifier::external_body]
pub(crate) fn days_between(later: Timestamp, earlier: Timestamp) -> (r: Option<i64>)
    ensures
        r == days_elapsed(later.secs, later.nanos, earlier.secs, earlier.nanos),
        plain_instant(later.secs, later.nanos) && plain_instant(earlier.secs, earlier.nanos)
            ==> r == Some(whole_days(later.secs, later.nanos, earlier.secs, earlier.nanos) as i64),
{
    let a = chrono::DateTime::from_timestamp(later.secs, later.nanos);
    let b = chrono::DateTime::from_timestamp(earlier.secs, earlier.nanos);
    match (a, b) {
        (Some(a), Some(b)) => Some(a.signed_duration_since(b).num_days()),
        _ => None,
    }
}

} // verus!
