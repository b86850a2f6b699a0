//! The Wintab backend's bookkeeping: when to open a tablet context, what its packets count
//! for, the pressure range it reports, and the last pressure read. The caller loads the
//! driver, opens the context and reads the packets, and reports each step here.

use crate::platform::{bump, bumped, fresh_pressure, fresh_pressure_bits, wrapped_sum, wrapping_sum, NO_PRESSURE_BITS};
use vstd::prelude::*;

verus! {

/// The pressure range used when the driver reports none, or an empty one.
pub const DEFAULT_PRESSURE_MIN: i64 = 0;
pub const DEFAULT_PRESSURE_MAX: i64 = 1024;

/// How many packets one poll asks the driver for.
pub const PACKETS_PER_POLL: usize = 32;

/// What the backend has seen and kept.
#[derive(Debug, Clone, Copy)]
pub struct WintabState {
    /// The window of the open tablet context, if one is open.
    pub backend_hwnd: Option<isize>,
    /// The pressure range of the open context.
    pub pressure_min: i64,
    pub pressure_max: i64,
    /// The bits of the last normalized pressure, or `NO_PRESSURE_BITS`.
    pub last_pressure_bits: u32,
    /// When the last pressure was read, in milliseconds since the Unix epoch.
    pub last_pressure_ts_ms: u64,
    pub pressure_signal_detected: bool,
    pub init_attempts: u64,
    pub init_successes: u64,
    pub packet_polls: u64,
    pub packets_read: u64,
    pub contact_packets_read: u64,
    pub last_hwnd: isize,
}

/// The pressure range of a device: the reported `(min, max)` when the query succeeded and the
/// range is not empty, else `(0, 1024)`.
pub fn pressure_range(query_ok: bool, axis_min: i32, axis_max: i32) -> (r: (i64, i64))
    ensures
        r == (if query_ok && axis_min < axis_max {
            (axis_min as i64, axis_max as i64)
        } else {
            (DEFAULT_PRESSURE_MIN, DEFAULT_PRESSURE_MAX)
        }),
{
    if !query_ok {
        return (DEFAULT_PRESSURE_MIN, DEFAULT_PRESSURE_MAX);
    }
    let min = axis_min as i64;
    let max = axis_max as i64;
    if max <= min {
        (DEFAULT_PRESSURE_MIN, DEFAULT_PRESSURE_MAX)
    } else {
        (min, max)
    }
}

/// Where a raw pressure lies in `min..max`: `(raw - min, max - min)`, the numerator and the
/// (positive) denominator of its normalized value; `None` for an empty range.
pub fn pressure_span(raw: u32, min: i64, max: i64) -> (r: Option<(i64, i64)>)
    requires
        i32::MIN <= min,
        max <= i32::MAX,
    ensures
        r == (if max <= min {
            None
        } else {
            Some(((raw - min) as i64, (max - min) as i64))
        }),
{
    if max <= min {
        return None;
    }
    Some((raw as i64 - min, max - min))
}

/// Whether a packet's buttons say the pen tip touches the tablet (bit 0).
pub fn tip_in_contact(buttons: u32) -> (r: bool)
    ensures
        r == (buttons % 2 == 1),
{
    assert(buttons & 1 == buttons % 2) by (bit_vector);
    buttons & 1 != 0
}

/// A context about to be opened: counted.
pub open spec fn after_begin_init(s: WintabState) -> WintabState {
    WintabState { init_attempts: bumped(s.init_attempts), ..s }
}

/// Opening a context for `hwnd` gave `opened`, with the pressure range when it succeeded. The
/// old context is gone either way.
pub open spec fn after_finish_init(s: WintabState, hwnd: isize, opened: Option<(i64, i64)>) -> WintabState {
    match opened {
        Some((lo, hi)) => WintabState {
            backend_hwnd: Some(hwnd),
            pressure_min: lo,
            pressure_max: hi,
            init_successes: bumped(s.init_successes),
            last_hwnd: hwnd,
            ..s
        },
        None => WintabState { backend_hwnd: None, ..s },
    }
}

/// A poll of the packet queue: counted when a context is open.
pub open spec fn after_poll(s: WintabState) -> WintabState {
    if s.backend_hwnd is Some {
        WintabState { packet_polls: bumped(s.packet_polls), ..s }
    } else {
        s
    }
}

/// The driver handed `count` packets: a positive count is added up.
pub open spec fn after_packets(s: WintabState, count: i32) -> WintabState {
    if count > 0 {
        WintabState { packets_read: wrapped_sum(s.packets_read, count as u64), ..s }
    } else {
        s
    }
}

/// The latest packet has buttons `buttons`: one with the tip down is counted.
pub open spec fn after_latest_packet(s: WintabState, buttons: u32) -> WintabState {
    if buttons % 2 == 1 {
        WintabState { contact_packets_read: bumped(s.contact_packets_read), ..s }
    } else {
        s
    }
}

/// A pressure sample (the bits of the normalized pressure) read at `now_ms`.
pub open spec fn after_record_pressure(s: WintabState, bits: u32, now_ms: u64) -> WintabState {
    WintabState { last_pressure_bits: bits, last_pressure_ts_ms: now_ms, pressure_signal_detected: true, ..s }
}

/// One call of `install` for the window `hwnd`: when it needs a context, the attempt is
/// counted and opening it gave `opened`.
pub open spec fn init_round(s: WintabState, hwnd: isize, opened: Option<(i64, i64)>) -> WintabState {
    if hwnd != 0 && s.backend_hwnd != Some(hwnd) {
        after_finish_init(after_begin_init(s), hwnd, opened)
    } else {
        s
    }
}

/// One poll: with an open context it is counted, the driver hands `count` packets, and when the
/// latest (with buttons `buttons`) has the tip down it is counted and its pressure recorded as
/// `bits`. (Over the context's range, which is never empty, `pressure_span` always gives a
/// span, so a contact packet always yields a sample.)
pub open spec fn poll_round(s: WintabState, count: i32, buttons: u32, bits: u32, now_ms: u64) -> WintabState {
    if s.backend_hwnd is None {
        s
    } else {
        let s1 = after_packets(after_poll(s), count);
        if count <= 0 || buttons % 2 != 1 {
            s1
        } else {
            after_record_pressure(after_latest_packet(s1, buttons), bits, now_ms)
        }
    }
}

/// What the backend's counters keep to: no more successes than attempts, no more contact
/// packets than polls or than packets, a window remembered exactly when a context was opened,
/// the signal detected exactly when a contact packet was read, and a nonempty pressure range.
pub open spec fn wintab_state_wf(s: WintabState) -> bool {
    &&& s.init_successes <= s.init_attempts
    &&& s.contact_packets_read <= s.packet_polls
    &&& s.contact_packets_read <= s.packets_read
    &&& (s.last_hwnd != 0) == (s.init_successes > 0)
    &&& s.pressure_signal_detected == (s.contact_packets_read > 0)
    &&& i32::MIN <= s.pressure_min < s.pressure_max <= i32::MAX
}

/// None of the counters of `a` is below that of `b`.
pub open spec fn wintab_counters_not_below(a: WintabState, b: WintabState) -> bool {
    &&& a.init_attempts >= b.init_attempts
    &&& a.init_successes >= b.init_successes
    &&& a.packet_polls >= b.packet_polls
    &&& a.packets_read >= b.packets_read
    &&& a.contact_packets_read >= b.contact_packets_read
}

/// Every install (whose opened range comes from `pressure_range`) and every poll keeps the
/// counters in step (see `wintab_state_wf`), and none of them goes down, as long as no counter
/// wraps past `u64::MAX`.
pub proof fn lemma_wintab_rounds_keep_wf(
    s: WintabState,
    hwnd: isize,
    opened: Option<(i64, i64)>,
    count: i32,
    buttons: u32,
    bits: u32,
    now_ms: u64,
)
    requires
        wintab_state_wf(s),
        s.init_attempts < u64::MAX,
        s.packet_polls < u64::MAX,
        s.packets_read + (if count > 0 { count as int } else { 0 }) <= u64::MAX,
        opened matches Some((lo, hi)) ==> i32::MIN <= lo < hi <= i32::MAX,
    ensures
        wintab_state_wf(init_round(s, hwnd, opened)),
        wintab_state_wf(poll_round(s, count, buttons, bits, now_ms)),
        wintab_counters_not_below(init_round(s, hwnd, opened), s),
        wintab_counters_not_below(poll_round(s, count, buttons, bits, now_ms), s),
{
}

impl WintabState {
    /// No context, nothing counted, no sample.
    pub fn new() -> (s: Self)
        ensures
            s.backend_hwnd is None,
            s.pressure_min == DEFAULT_PRESSURE_MIN,
            s.pressure_max == DEFAULT_PRESSURE_MAX,
            s.last_pressure_bits == NO_PRESSURE_BITS,
            s.last_pressure_ts_ms == 0,
            !s.pressure_signal_detected,
            s.init_attempts == 0,
            s.init_successes == 0,
            s.packet_polls == 0,
            s.packets_read == 0,
            s.contact_packets_read == 0,
            s.last_hwnd == 0,
            wintab_state_wf(s),
    {
        WintabState {
            backend_hwnd: None,
            pressure_min: DEFAULT_PRESSURE_MIN,
            pressure_max: DEFAULT_PRESSURE_MAX,
            last_pressure_bits: NO_PRESSURE_BITS,
            last_pressure_ts_ms: 0,
            pressure_signal_detected: false,
            init_attempts: 0,
            init_successes: 0,
            packet_polls: 0,
            packets_read: 0,
            contact_packets_read: 0,
            last_hwnd: 0,
        }
    }

    /// Whether a context has to be opened for the window `hwnd`: for a real window (not 0)
    /// that has no open context of its own.
    pub fn needs_backend(&self, hwnd: isize) -> (r: bool)
        ensures
            r == (hwnd != 0 && self.backend_hwnd != Some(hwnd)),
    {
        if hwnd == 0 {
            return false;
        }
        match self.backend_hwnd {
            Some(h) => h != hwnd,
            None => true,
        }
    }

    /// A context is about to be opened: counted.
    pub fn begin_init(&mut self)
        ensures
            *final(self) == after_begin_init(*old(self)),
    {
        self.init_attempts = bump(self.init_attempts);
    }

    /// Opening a context for `hwnd` gave `opened`, with the pressure range `range` when it
    /// succeeded. The old context is gone either way.
    pub fn finish_init(&mut self, hwnd: isize, opened: Option<(i64, i64)>)
        ensures
            *final(self) == after_finish_init(*old(self), hwnd, opened),
    {
        match opened {
            Some((lo, hi)) => {
                self.backend_hwnd = Some(hwnd);
                self.pressure_min = lo;
                self.pressure_max = hi;
                self.init_successes = bump(self.init_successes);
                self.last_hwnd = hwnd;
            },
            None => {
                self.backend_hwnd = None;
            },
        }
    }

    /// A poll of the packet queue: with an open context it is counted and returns true (the
    /// caller then reads the packets); without one nothing happens.
    pub fn poll_packets(&mut self) -> (r: bool)
        ensures
            r == old(self).backend_hwnd is Some,
            *final(self) == after_poll(*old(self)),
    {
        if self.backend_hwnd.is_some() {
            self.packet_polls = bump(self.packet_polls);
            true
        } else {
            false
        }
    }

    /// The driver handed `count` packets: a positive count is added up, and returns the index
    /// of the latest packet.
    pub fn on_packets(&mut self, count: i32) -> (r: Option<usize>)
        ensures
            r == (if count > 0 {
                Some((count - 1) as usize)
            } else {
                None
            }),
            *final(self) == after_packets(*old(self), count),
    {
        if count <= 0 {
            return None;
        }
        self.packets_read = wrapping_sum(self.packets_read, count as u64);
        Some((count - 1) as usize)
    }

    /// The latest packet has buttons `buttons`: only a packet with the tip down is trusted for
    /// pressure; it is counted and true is returned.
    pub fn on_latest_packet(&mut self, buttons: u32) -> (r: bool)
        ensures
            r == (buttons % 2 == 1),
            *final(self) == after_latest_packet(*old(self), buttons),
    {
        if !tip_in_contact(buttons) {
            return false;
        }
        self.contact_packets_read = bump(self.contact_packets_read);
        true
    }

    /// A pressure sample (the bits of the normalized pressure) was read at `now_ms`.
    pub fn record_pressure(&mut self, bits: u32, now_ms: u64)
        ensures
            *final(self) == after_record_pressure(*old(self), bits, now_ms),
    {
        self.last_pressure_bits = bits;
        self.last_pressure_ts_ms = now_ms;
        self.pressure_signal_detected = true;
    }

    /// The last pressure sample if it is at most `max_age_ms` old at `now_ms`.
    pub fn latest_pressure_bits(&self, now_ms: u64, max_age_ms: u64) -> (r: Option<u32>)
        ensures
            r == fresh_pressure(self.last_pressure_bits, self.last_pressure_ts_ms, now_ms, max_age_ms),
    {
        fresh_pressure_bits(self.last_pressure_bits, self.last_pressure_ts_ms, now_ms, max_age_ms)
    }
}

/// Whether any pressure sample has been read since the state was made.
pub fn pressure_signal_detected(state: &WintabState) -> (r: bool)
    ensures
        r == state.pressure_signal_detected,
        wintab_state_wf(*state) ==> r == (state.contact_packets_read > 0),
{
    state.pressure_signal_detected
}

/// The counters: context attempts and successes, polls, packets, contact packets, and the
/// window of the last context opened.
pub fn debug_snapshot(state: &WintabState) -> (r: (u64, u64, u64, u64, u64, isize))
    ensures
        r == (
            state.init_attempts,
            state.init_successes,
            state.packet_polls,
            state.packets_read,
            state.contact_packets_read,
            state.last_hwnd,
        ),
        wintab_state_wf(*state) ==> r.1 <= r.0 && r.4 <= r.2 && r.4 <= r.3 && (r.5 != 0) == (r.1 > 0),
{
    (
        state.init_attempts,
        state.init_successes,
        state.packet_polls,
        state.packets_read,
        state.contact_packets_read,
        state.last_hwnd,
    )
}

/// A pressure sample recorded at `now_ms` is read back, as long as it is one: at any time
/// `t_ms` it comes back unless `t_ms` lies more than `max_age_ms` after `now_ms`, whatever the
/// state held before.
pub proof fn lemma_wintab_sample_read_back(s: WintabState, bits: u32, now_ms: u64, t_ms: u64, max_age_ms: u64)
    requires
        bits != NO_PRESSURE_BITS,
    ensures
        fresh_pressure(
            after_record_pressure(s, bits, now_ms).last_pressure_bits,
            after_record_pressure(s, bits, now_ms).last_pressure_ts_ms,
            t_ms,
            max_age_ms,
        ) == (if t_ms > now_ms && t_ms - now_ms > max_age_ms {
            None::<u32>
        } else {
            Some(bits)
        }),
{
}

} // verus!
