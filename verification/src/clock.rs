//! The one place the library touches the wall clock. Every time-dependent
//! decision — reconnect backoff, throttling, ping sweeps — takes a
//! timestamp argument, so the logic is verified for every clock value;
//! this module only produces such timestamps for the embedding loop.

use vstd::prelude::*;

verus! {

/// Relies on `time::OffsetDateTime::now_utc` and its
/// `unix_timestamp_nanos`: reads the wall clock as nanoseconds since the
/// Unix epoch. Nothing is promised of the value; it depends on the
/// machine's clock.
#[verifier::external_body]
fn unix_nanos() -> (r: i128) {
    time::OffsetDateTime::now_utc().unix_timestamp_nanos()
}

/// The wall clock in whole milliseconds since the Unix epoch, clamped
/// into the `u64` range.
pub fn now_millis() -> (r: u64) {
    let ns = unix_nanos();
    if ns <= 0 {
        0
    } else {
        let ms = ns / 1_000_000i128;
        if ms > 0xffff_ffff_ffff_ffffi128 {
            0xffff_ffff_ffff_ffffu64
        } else {
            ms as u64
        }
    }
}

} // verus!
