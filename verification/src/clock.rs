//! The wall clock.

use vstd::prelude::*;

verus! {

/// Reads the system clock: `chrono::Utc::now()`, turned into milliseconds
/// since the Unix epoch by `DateTime::timestamp_millis`.
///
/// Nothing is claimed of the number that comes back: the clock may stand
/// still, jump ahead or fall back between two readings. `chrono` panics
/// where the system clock is set before 1970 or past the years it can hold.
#[verifier::external_body]
pub(crate) fn unix_millis() -> (now: i64) {
    chrono::Utc::now().timestamp_millis()
}

} // verus!
