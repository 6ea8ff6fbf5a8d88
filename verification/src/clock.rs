//! Wall-clock time, read through the standard library.
use std::time::{Duration, SystemTime, UNIX_EPOCH};

use vstd::prelude::*;

verus! {

#[verifier::external_type_specification]
#[verifier::external_body]
pub struct ExSystemTime(SystemTime);

/// Calls `SystemTime::now`. The result depends on the machine's clock, so nothing is
/// stated of it.
#[verifier::external_body]
fn system_time_now() -> SystemTime {
    SystemTime::now()
}

/// Calls `SystemTime::duration_since` with `UNIX_EPOCH`; its error (a time before the
/// epoch) becomes `None`. Nothing is stated of the result.
#[verifier::external_body]
fn since_unix_epoch(t: SystemTime) -> Option<Duration> {
    match t.duration_since(UNIX_EPOCH) {
        Ok(d) => Some(d),
        Err(_) => None,
    }
}

/// Calls `Duration::as_nanos`. Nothing is stated of the result.
#[verifier::external_body]
fn duration_as_nanos(d: Duration) -> u128 {
    d.as_nanos()
}

/// A nanosecond count since the epoch, truncated to 64 bits; 0 where the clock reads a
/// time before the epoch (`None`).
pub fn nanos_to_u64(nanos: Option<u128>) -> (r: u64)
    ensures
        r == match nanos {
            Some(n) => n as u64,
            None => 0u64,
        },
{
    match nanos {
        Some(n) => {
            #[verifier::truncate]
            (n as u64)
        },
        None => 0,
    }
}

/// Unix time in nanoseconds, truncated to 64 bits; 0 for a clock set before the epoch.
pub fn now_nanos() -> u64 {
    let since = since_unix_epoch(system_time_now());
    let nanos = match since {
        Some(d) => Some(duration_as_nanos(d)),
        None => None,
    };
    nanos_to_u64(nanos)
}

} // verus!
