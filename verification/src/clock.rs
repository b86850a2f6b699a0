//! The system clock, read as whole seconds or milliseconds since the Unix epoch.

use std::time::{Duration, SystemTime, SystemTimeError};
use vstd::prelude::*;

verus! {

#[verifier::external_type_specification]
#[verifier::external_body]
pub struct ExSystemTime(SystemTime);

#[verifier::external_type_specification]
#[verifier::external_body]
pub struct ExSystemTimeError(SystemTimeError);

/// `SystemTime::now`: the time of the system clock, which nothing here can predict.
#[verifier::external_body]
pub(crate) fn system_time_now() -> SystemTime {
    SystemTime::now()
}

/// `SystemTime::duration_since` with `UNIX_EPOCH`: the time elapsed since the epoch, or an
/// error when the clock reads earlier than the epoch. Which of the two comes depends on the clock.
#[verifier::external_body]
pub(crate) fn duration_since_unix_epoch(t: &SystemTime) -> Result<Duration, SystemTimeError> {
    t.duration_since(std::time::UNIX_EPOCH)
}

/// `Duration::as_secs`: the whole seconds of `d`. `Duration` is opaque here, so nothing is
/// stated of the number.
#[verifier::external_body]
pub(crate) fn duration_secs(d: &Duration) -> u64 {
    d.as_secs()
}

/// `Duration::as_millis`: the whole milliseconds of `d`. `Duration` is opaque here, so nothing
/// is stated of the number.
#[verifier::external_body]
pub(crate) fn duration_millis(d: &Duration) -> u128 {
    d.as_millis()
}

/// A timestamp in whole seconds from the seconds elapsed since the Unix epoch, if the clock
/// reads after the epoch: those seconds, else 0.
pub fn secs_or_zero(since_epoch: Option<u64>) -> (r: u64)
    ensures
        r == match since_epoch {
            Some(s) => s,
            None => 0,
        },
{
    match since_epoch {
        Some(s) => s,
        None => 0,
    }
}

/// A timestamp in milliseconds from the milliseconds elapsed since the Unix epoch, if the clock
/// reads after the epoch: those milliseconds cut to their low 64 bits, else 0.
pub fn millis_or_zero(since_epoch: Option<u128>) -> (r: u64)
    ensures
        r as int == match since_epoch {
            Some(ms) => ms as int % 0x1_0000_0000_0000_0000,
            None => 0,
        },
{
    match since_epoch {
        Some(ms) => {
            let low = ms as u64;
            assert(low == ms % 0x1_0000_0000_0000_0000) by (bit_vector)
                requires
                    low == ms as u64,
            ;
            low
        },
        None => 0,
    }
}

/// Milliseconds since the Unix epoch, cut to their low 64 bits, or 0 when the clock reads
/// earlier than the epoch (see `millis_or_zero`).
pub fn now_unix_ms() -> u64 {
    let now = system_time_now();
    let since_epoch = match duration_since_unix_epoch(&now) {
        Ok(d) => Some(duration_millis(&d)),
        Err(_) => None,
    };
    millis_or_zero(since_epoch)
}

} // verus!
