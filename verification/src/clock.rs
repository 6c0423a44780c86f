use std::time::Duration;
use std::time::SystemTime;
use vstd::prelude::*;

verus! {

/// Declares `std::time::SystemTime`, so that a reading of the clock can be
/// handed from one call to the next. Nothing is known of what it holds.
#[verifier::external_type_specification]
#[verifier::external_body]
pub struct ExSystemTime(SystemTime);

/// Calls `SystemTime::now`. Nothing is claimed of the reading.
#[verifier::external_body]
fn system_now() -> SystemTime {
    SystemTime::now()
}

/// Calls `SystemTime::duration_since` against the Unix epoch. Nothing is
/// claimed of the result; a clock set before the epoch gives `None`.
#[verifier::external_body]
fn since_unix_epoch(time: &SystemTime) -> Option<Duration> {
    match time.duration_since(std::time::UNIX_EPOCH) {
        Ok(elapsed) => Some(elapsed),
        Err(_) => None,
    }
}

/// Calls `Duration::as_secs`. Nothing is claimed of the result.
#[verifier::external_body]
fn whole_seconds(elapsed: &Duration) -> u64 {
    elapsed.as_secs()
}

/// The time that a reading of the clock stands for: the whole seconds
/// since the Unix epoch, and 0 where the clock is set before the epoch and
/// so gave no reading.
pub fn seconds_since_epoch(reading: Option<u64>) -> (seconds: u64)
    ensures
        seconds == match reading {
            Some(elapsed) => elapsed,
            None => 0,
        },
{
    match reading {
        Some(elapsed) => elapsed,
        None => 0,
    }
}

/// Reads the wall clock as whole seconds since the Unix epoch; see
/// `seconds_since_epoch` for a clock set before the epoch.
///
/// The result depends on the machine's clock, so callers that need a
/// definite time pass one to the `_at` form of an operation.
pub fn get_current_unix_time_seconds() -> u64 {
    let now = system_now();
    let reading = match since_unix_epoch(&now) {
        Some(elapsed) => Some(whole_seconds(&elapsed)),
        None => None,
    };
    seconds_since_epoch(reading)
}

} // verus!
