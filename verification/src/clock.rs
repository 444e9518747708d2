//! The wall clock, in whole seconds since the epoch.

use std::time::{Duration, SystemTime, SystemTimeError, UNIX_EPOCH};
use vstd::prelude::*;

verus! {

/// `std::time::SystemTime`, an instant of the wall clock. Nothing of it is
/// visible here.
#[verifier::external_type_specification]
#[verifier::external_body]
pub struct ExSystemTime(SystemTime);

/// `std::time::SystemTimeError`, what `duration_since` fails with.
#[verifier::external_type_specification]
#[verifier::external_body]
pub struct ExSystemTimeError(SystemTimeError);

/// `SystemTime::now` reads the clock of the machine. Nothing is claimed of
/// what it reads.
pub assume_specification[ SystemTime::now ]() -> (t: SystemTime);

/// `SystemTime::duration_since` gives the time from `earlier` to `t`, or an
/// error where `earlier` is the later of the two. Nothing is claimed of
/// which it gives.
pub assume_specification[ SystemTime::duration_since ](t: &SystemTime, earlier: SystemTime) -> (r:
    Result<Duration, SystemTimeError>);

/// `Duration::as_secs` gives the whole seconds of a duration. Nothing is
/// claimed of their number.
pub assume_specification[ Duration::as_secs ](d: &Duration) -> (secs: u64);

/// `std::time::UNIX_EPOCH`, the instant that timestamps count from.
#[verifier::external_body]
fn unix_epoch() -> (epoch: SystemTime) {
    UNIX_EPOCH
}

/// The timestamp for a clock reading: the seconds it gave, or 0 where the
/// clock could not be read.
pub fn timestamp_of(elapsed: Option<u64>) -> (now: u64)
    ensures
        now == match elapsed {
            Some(secs) => secs,
            None => 0,
        },
{
    match elapsed {
        Some(secs) => secs,
        None => 0,
    }
}

/// Seconds since the epoch by the clock of the machine, and 0 where that
/// clock is set before the epoch. Never fails.
pub fn get_now() -> (now: u64) {
    let elapsed: Option<u64> = match SystemTime::now().duration_since(unix_epoch()) {
        Ok(n) => Some(n.as_secs()),
        Err(_) => None,
    };
    timestamp_of(elapsed)
}

} // verus!
