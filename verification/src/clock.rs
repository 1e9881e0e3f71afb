//! The calendar clock.
//!
//! Instants that are kept on record are nanoseconds since 1970-01-01 UTC.

use vstd::prelude::*;

verus! {

/// `chrono::Utc::now`: the current instant in nanoseconds since 1970-01-01
/// UTC, or `None` where they do not fit.  The contract claims that it does not
/// lie before 1970, where the call does not return; which instant it is
/// depends on the machine, so nothing else is claimed of it.
#[verifier::external_body]
fn clock_reading() -> (r: Option<i64>)
    ensures
        r matches Some(nanos) ==> nanos >= 0,
{
    chrono::Utc::now().timestamp_nanos_opt()
}

/// The instant to put on record for a reading of the clock: an instant that
/// cannot be told counts as the last one.
pub fn on_record(reading: Option<i64>) -> (r: i64)
    ensures
        r == match reading {
            Some(nanos) => nanos,
            None => i64::MAX,
        },
{
    match reading {
        Some(nanos) => nanos,
        None => i64::MAX,
    }
}

/// The current instant.
pub fn utc_now() -> (r: i64)
    ensures
        r >= 0,
{
    on_record(clock_reading())
}

} // verus!
