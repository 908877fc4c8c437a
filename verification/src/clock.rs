//! Wall-clock readings in milliseconds since the Unix epoch.

use vstd::prelude::*;

use std::time::{Duration, SystemTime, SystemTimeError};

verus! {

#[verifier::external_type_specification]
#[verifier::external_body]
pub struct ExSystemTime(SystemTime);

#[verifier::external_type_specification]
#[verifier::external_body]
pub struct ExSystemTimeError(SystemTimeError);

/// A source of the current time in milliseconds.
///
/// Nothing is known of a reading: two readings may differ, and a reading may
/// be any value.
pub trait Clock {
    fn now_ms(&self) -> i64;
}

/// The system's wall clock.
pub struct SystemClock;

impl Clock for SystemClock {
    fn now_ms(&self) -> i64 {
        now_ms()
    }
}

/// Calls `std::time::SystemTime::now`; the reading depends on the machine's
/// clock, so nothing is promised of it.
#[verifier::external_body]
fn system_time_now() -> SystemTime {
    SystemTime::now()
}

/// Calls `std::time::SystemTime::duration_since` with the Unix epoch; an
/// error comes when the time lies before the epoch. Nothing is promised of the
/// duration, which depends on the reading.
#[verifier::external_body]
fn duration_since_unix_epoch(t: &SystemTime) -> Result<Duration, SystemTimeError> {
    t.duration_since(std::time::UNIX_EPOCH)
}

/// Calls `std::time::Duration::as_millis`. The duration is opaque here, so
/// nothing is promised of the count.
#[verifier::external_body]
fn duration_as_millis(d: &Duration) -> u128 {
    d.as_millis()
}

/// Milliseconds since the Unix epoch, truncated to `i64`, or 0 where the clock
/// reads a time before the epoch.
pub fn now_ms() -> i64 {
    let now = system_time_now();
    match duration_since_unix_epoch(&now) {
        Ok(d) => {
            let ms = duration_as_millis(&d);
            #[verifier::truncate]
            (ms as i64)
        },
        Err(_) => 0,
    }
}

} // verus!
