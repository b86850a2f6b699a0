//! Pen pressure from Windows: the bookkeeping of the pointer-message hook and of the Wintab
//! backend. The system calls themselves stay with the caller, which hands their results here.

pub mod windows_pen;
pub mod windows_wintab;

use vstd::prelude::*;

verus! {

/// The pressure word that means "no sample yet".
pub const NO_PRESSURE_BITS: u32 = 0xffff_ffff;

/// A counter after one more event: it wraps to 0 past `u64::MAX`, as an atomic `fetch_add` does.
pub open spec fn bumped(n: u64) -> u64 {
    if n == u64::MAX {
        0
    } else {
        (n + 1) as u64
    }
}

/// `a + b` modulo 2^64.
pub open spec fn wrapped_sum(a: u64, b: u64) -> u64 {
    ((a as int + b as int) % 0x1_0000_0000_0000_0000int) as u64
}

pub fn bump(n: u64) -> (r: u64)
    ensures
        r == bumped(n),
{
    if n == u64::MAX {
        0
    } else {
        n + 1
    }
}

pub fn wrapping_sum(a: u64, b: u64) -> (r: u64)
    ensures
        r == wrapped_sum(a, b),
{
    if a <= u64::MAX - b {
        a + b
    } else {
        b - (u64::MAX - a) - 1
    }
}

/// The last pressure sample, as long as there is one and it is at most `max_age_ms` old at
/// `now_ms` (a clock that went back counts as age 0).
pub open spec fn fresh_pressure(bits: u32, stamp_ms: u64, now_ms: u64, max_age_ms: u64) -> Option<u32> {
    if bits == NO_PRESSURE_BITS {
        None
    } else if (if now_ms >= stamp_ms { now_ms - stamp_ms } else { 0 }) > max_age_ms {
        None
    } else {
        Some(bits)
    }
}

pub fn fresh_pressure_bits(bits: u32, stamp_ms: u64, now_ms: u64, max_age_ms: u64) -> (r: Option<u32>)
    ensures
        r == fresh_pressure(bits, stamp_ms, now_ms, max_age_ms),
{
    if bits == NO_PRESSURE_BITS {
        return None;
    }
    if now_ms.saturating_sub(stamp_ms) > max_age_ms {
        return None;
    }
    Some(bits)
}

/// A sample read back at the moment it was taken is there, whatever the allowed age.
pub proof fn lemma_sample_fresh_when_taken(bits: u32, now_ms: u64, max_age_ms: u64)
    requires
        bits != NO_PRESSURE_BITS,
    ensures
        fresh_pressure(bits, now_ms, now_ms, max_age_ms) == Some(bits),
{
}

} // verus!
