//! Time as a plain number.

use std::time::{Instant, SystemTime, UNIX_EPOCH};

use vstd::prelude::*;

verus! {

/// A point of the monotonic clock of the standard library.
#[verifier::external_type_specification]
#[verifier::external_body]
pub struct ExInstant(Instant);

/// Counts nanoseconds from the moment it was started.
#[derive(Debug)]
pub struct Clock {
    started: Instant,
}

/// `Instant::now`: the present moment. Nothing is known of it.
#[verifier::external_body]
fn instant_now() -> Instant {
    Instant::now()
}

/// `Instant::elapsed`: the nanoseconds since `started`. Nothing is known of
/// the number: it depends on when the call is made.
#[verifier::external_body]
fn nanos_since(started: &Instant) -> u64 {
    started.elapsed().as_nanos() as u64
}

impl Clock {
    /// A clock that reads zero now.
    pub fn start() -> Self {
        Clock { started: instant_now() }
    }

    /// Nanoseconds since the clock was started.
    pub fn now(&self) -> u64 {
        nanos_since(&self.started)
    }
}

/// `SystemTime::duration_since` the Unix epoch: whole seconds, unless the
/// system clock is set before it. Nothing is known of the number.
#[verifier::external_body]
fn unix_seconds() -> Option<u64> {
    SystemTime::now().duration_since(UNIX_EPOCH).map(|d| d.as_secs()).ok()
}

/// A reading of the system clock, or zero without one.
pub fn or_epoch(reading: Option<u64>) -> (secs: u64)
    ensures
        secs == (match reading {
            Some(s) => s,
            None => 0,
        }),
{
    match reading {
        Some(s) => s,
        None => 0,
    }
}

/// Seconds since the Unix epoch; zero if the system clock is set before it.
pub fn now() -> u64 {
    or_epoch(unix_seconds())
}

} // verus!
