//! Server time.

use vstd::prelude::*;

verus! {

/// Relies on `chrono::Utc::now` and `DateTime::timestamp`: the number of
/// non-leap seconds since the epoch, as the system clock reports it.  The
/// clock is no function of the program's state, so nothing is promised of
/// the value.
#[verifier::external_body]
fn now_seconds() -> i64 {
    chrono::Utc::now().timestamp()
}

/// The current server time in seconds since the epoch, read from the
/// system clock.
pub fn current_time() -> i64 {
    now_seconds()
}

} // verus!
