//! The wall clock, read once per operation and passed down as a plain value.
//!
//! Every time-dependent operation of the library takes the current time as an
//! explicit argument, so its contract holds for every reading; these helpers
//! only supply a convenient reading.

use vstd::prelude::*;

verus! {

/// Relies on chrono: `Utc::now().timestamp_millis()` is the current Unix
/// time in milliseconds.  Nothing can be promised of a clock reading.
#[verifier::external_body]
fn now_millis_raw() -> (r: i64) {
    chrono::Utc::now().timestamp_millis()
}

/// The current time as nonnegative milliseconds since the Unix epoch; a
/// clock set before the epoch reads as zero.
pub fn clock_millis() -> u64 {
    let t = now_millis_raw();
    if t < 0 {
        0
    } else {
        t as u64
    }
}

} // verus!
