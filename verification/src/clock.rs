//! The wall clock, read through chrono.
use vstd::prelude::*;

verus! {

/// Latest Unix time (in seconds) that chrono's `DateTime<Utc>` can hold: the last second of
/// the year 262142.
pub open spec fn latest_timestamp() -> int {
    8210266876799
}

/// Earliest Unix time (in seconds) that chrono's `DateTime<Utc>` can hold: the first second
/// of the year -262143.
pub open spec fn earliest_timestamp() -> int {
    -8334601315200
}

/// `chrono::Utc::now().timestamp()`: the current Unix time in whole seconds. chrono builds
/// it from the system time's distance to the Unix epoch and checks it against the range of
/// `DateTime<Utc>` (it panics when the clock is set before the epoch or beyond that range),
/// so every value it returns lies between 0 and `latest_timestamp()`. Which value comes back depends on the
/// clock and is left open.
#[verifier::external_body]
pub(crate) fn now_timestamp() -> (t: i64)
    ensures
        0 <= t <= latest_timestamp(),
{
    chrono::Utc::now().timestamp()
}

} // verus!
