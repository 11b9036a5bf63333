//! The seed for picking answers: the wall clock in nanoseconds.

use vstd::prelude::*;
use std::time::{Duration, SystemTime, UNIX_EPOCH};

verus! {

#[verifier::external_type_specification]
#[verifier::external_body]
pub struct ExSystemTime(std::time::SystemTime);

/// `SystemTime::now`: the current wall-clock time. It depends on the moment
/// of the call, so nothing is claimed of it.
#[verifier::external_body]
fn wall_clock() -> SystemTime {
    SystemTime::now()
}

/// `SystemTime::duration_since(UNIX_EPOCH)`: the time elapsed since the Unix
/// epoch, `None` when `t` is earlier. Nothing is claimed of the value: the
/// library does not model `SystemTime`.
#[verifier::external_body]
fn since_epoch(t: &SystemTime) -> Option<Duration> {
    t.duration_since(UNIX_EPOCH).ok()
}

/// `Duration::as_nanos`: the whole duration in nanoseconds. Nothing is
/// claimed of the value: the library does not model `Duration`.
#[verifier::external_body]
fn total_nanos(d: &Duration) -> u128 {
    d.as_nanos()
}

/// The seed a clock reading gives: its nanoseconds truncated to 64 bits, or a
/// fixed constant when the clock reads before the epoch.
pub fn seed_of(nanos: Option<u128>) -> (s: u64)
    ensures
        s == match nanos {
            Some(n) => n as u64,
            None => 0x9e3779b9u64,
        },
{
    match nanos {
        Some(n) => n as u64,
        None => 0x9e3779b9,
    }
}

/// A seed from the wall clock (see `seed_of`); it differs from call to call.
pub fn seed() -> u64 {
    let nanos = match since_epoch(&wall_clock()) {
        Some(d) => Some(total_nanos(&d)),
        None => None,
    };
    seed_of(nanos)
}

} // verus!
