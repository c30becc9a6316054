//! The system clock, as time since the Unix epoch.

use std::time::{Duration, SystemTime, SystemTimeError};
use vstd::prelude::*;

verus! {

/// A moment of the system clock.
#[verifier::external_type_specification]
#[verifier::external_body]
pub struct ExSystemTime(SystemTime);

/// The error for a moment before another one.
#[verifier::external_type_specification]
#[verifier::external_body]
pub struct ExSystemTimeError(SystemTimeError);

/// Why the time could not be told.
#[derive(Debug, Clone, Copy, PartialEq, Eq)]
pub enum ClockError {
    /// The system clock stands before the Unix epoch.
    BeforeEpoch,
}

/// Calls `SystemTime::now`. Nothing is claimed of the moment.
#[verifier::external_body]
fn system_now() -> SystemTime {
    SystemTime::now()
}

/// Calls `SystemTime::duration_since` with the Unix epoch. Nothing is claimed of the result,
/// which depends on the clock: an error where the moment lies before the epoch.
#[verifier::external_body]
fn since_epoch(moment: SystemTime) -> Result<Duration, SystemTimeError> {
    moment.duration_since(std::time::UNIX_EPOCH)
}

/// The number of nanoseconds in a second.
pub const NANOSECONDS_PER_SECOND: u128 = 1_000_000_000;

/// The greatest number of nanoseconds that a duration can have: its whole seconds fit in 64
/// bits, and less than a second comes on top of them.
pub const MAX_NANOSECONDS: u128 = 18_446_744_073_709_551_615_999_999_999;

/// Calls `Duration::as_nanos`: it gives all nanoseconds of the duration, whose whole seconds fit
/// in 64 bits. Nothing more is claimed of the number, which depends on the clock.
#[verifier::external_body]
fn nanoseconds(d: &Duration) -> (r: u128)
    ensures
        r <= MAX_NANOSECONDS,
{
    d.as_nanos()
}

/// The whole seconds of a reading of the clock in nanoseconds since the Unix epoch. A reading
/// that failed is handed on.
pub fn seconds_of(reading: Result<u128, ClockError>) -> (r: Result<u64, ClockError>)
    requires
        reading matches Ok(n) ==> n <= MAX_NANOSECONDS,
    ensures
        match reading {
            Ok(n) => r matches Ok(s) && s == n as int / NANOSECONDS_PER_SECOND as int,
            Err(e) => r == Err::<u64, ClockError>(e),
        },
        reading matches Ok(n) ==> r is Ok && r->Ok_0 * 1_000_000_000 <= n < (r->Ok_0 + 1)
            * 1_000_000_000,
{
    match reading {
        Ok(n) => Ok((n / NANOSECONDS_PER_SECOND) as u64),
        Err(e) => Err(e),
    }
}

/// The seconds since the Unix epoch; an error where the clock stands before it. Which of them
/// comes back depends on the clock alone.
pub(crate) fn unix_seconds() -> Result<u64, ClockError> {
    seconds_of(unix_nanoseconds())
}

/// The nanoseconds since the Unix epoch; an error where the clock stands before it.
pub(crate) fn unix_nanoseconds() -> (r: Result<u128, ClockError>)
    ensures
        r matches Ok(n) ==> n <= MAX_NANOSECONDS,
{
    match since_epoch(system_now()) {
        Ok(d) => Ok(nanoseconds(&d)),
        Err(_) => Err(ClockError::BeforeEpoch),
    }
}

} // verus!
