//! The window-procedure hook that reads pen and touch pressure from `WM_POINTER` messages:
//! what it counts and keeps. The caller installs the hook, asks the system for the pointer's
//! type and pressure, and reports each step here.

use crate::platform::{bump, bumped, fresh_pressure, fresh_pressure_bits, NO_PRESSURE_BITS};
use vstd::prelude::*;

verus! {

pub const WM_POINTERUPDATE: u32 = 0x0245;
pub const WM_POINTERDOWN: u32 = 0x0246;
pub const WM_POINTERUP: u32 = 0x0247;
pub const PT_TOUCH: u32 = 2;
pub const PT_PEN: u32 = 3;

/// Which pointer-info query gives the pressure of a pointer of some type.
#[derive(Debug, Clone, Copy, PartialEq, Eq, Structural)]
pub enum PressureSource {
    /// `GetPointerPenInfo`.
    Pen,
    /// `GetPointerTouchInfo`.
    Touch,
    /// The pen query, and the touch query when the first gives nothing.
    PenThenTouch,
}

/// What the hook has seen and kept.
#[derive(Debug, Clone, Copy)]
pub struct PenHookState {
    /// The window whose procedure is hooked (0: none).
    pub hooked_hwnd: isize,
    /// The window procedure that the hook replaced (0: none).
    pub prev_wndproc: isize,
    /// The bits of the last normalized pressure, or `NO_PRESSURE_BITS`.
    pub last_pressure_bits: u32,
    /// When the last pressure was read, in milliseconds since the Unix epoch.
    pub last_pressure_ts_ms: u64,
    pub pressure_signal_detected: bool,
    pub hook_install_attempts: u64,
    pub hook_install_successes: u64,
    pub any_window_message_count: u64,
    pub pointer_message_count: u64,
    pub pressure_sample_count: u64,
    pub last_pointer_type: u32,
}

/// The low 16 bits of `value`.
pub fn loword(value: u32) -> (r: u16)
    ensures
        r == value % 0x1_0000,
{
    let low = value & 0xffff;
    assert(value & 0xffff == value % 0x1_0000) by (bit_vector);
    low as u16
}

/// Whether `msg` is a pointer-down, pointer-update or pointer-up message.
pub fn is_pointer_message(msg: u32) -> (r: bool)
    ensures
        r == (msg == WM_POINTERDOWN || msg == WM_POINTERUPDATE || msg == WM_POINTERUP),
{
    msg == WM_POINTERDOWN || msg == WM_POINTERUPDATE || msg == WM_POINTERUP
}

/// Where the pressure of a pointer of type `pointer_type` is read.
pub fn pressure_source(pointer_type: u32) -> (r: PressureSource)
    ensures
        r == (if pointer_type == PT_PEN {
            PressureSource::Pen
        } else if pointer_type == PT_TOUCH {
            PressureSource::Touch
        } else {
            PressureSource::PenThenTouch
        }),
{
    if pointer_type == PT_PEN {
        PressureSource::Pen
    } else if pointer_type == PT_TOUCH {
        PressureSource::Touch
    } else {
        PressureSource::PenThenTouch
    }
}

/// Whether a raw pointer pressure counts as a sample: 0 means the device reports none.
pub fn raw_pressure_present(raw: u32) -> (r: bool)
    ensures
        r == (raw != 0),
{
    raw != 0
}

/// An install asked for: counted.
pub open spec fn after_begin_install(s: PenHookState) -> PenHookState {
    PenHookState { hook_install_attempts: bumped(s.hook_install_attempts), ..s }
}

/// The system replaced the procedure of `hwnd` and returned `previous`: a nonzero `previous`
/// means the hook is in, and is kept with the window.
pub open spec fn after_finish_install(s: PenHookState, hwnd: isize, previous: isize) -> PenHookState {
    if previous != 0 {
        PenHookState {
            hooked_hwnd: hwnd,
            prev_wndproc: previous,
            hook_install_successes: bumped(s.hook_install_successes),
            ..s
        }
    } else {
        s
    }
}

/// A window message through the hook: every one is counted, pointer messages twice over.
pub open spec fn after_window_message(s: PenHookState, msg: u32) -> PenHookState {
    if msg == WM_POINTERDOWN || msg == WM_POINTERUPDATE || msg == WM_POINTERUP {
        PenHookState {
            any_window_message_count: bumped(s.any_window_message_count),
            pointer_message_count: bumped(s.pointer_message_count),
            ..s
        }
    } else {
        PenHookState { any_window_message_count: bumped(s.any_window_message_count), ..s }
    }
}

/// The type of the pointer of a message, as the system told it.
pub open spec fn after_pointer_type(s: PenHookState, pointer_type: u32) -> PenHookState {
    PenHookState { last_pointer_type: pointer_type, ..s }
}

/// A pressure sample (the bits of the normalized pressure) read at `now_ms`.
pub open spec fn after_record_pressure(s: PenHookState, bits: u32, now_ms: u64) -> PenHookState {
    PenHookState {
        last_pressure_bits: bits,
        last_pressure_ts_ms: now_ms,
        pressure_signal_detected: true,
        pressure_sample_count: bumped(s.pressure_sample_count),
        ..s
    }
}

/// One call of `install`: counted; for a window (`hwnd`, when the frame has one) that is not the
/// hooked one, the procedure is replaced and the system returns `previous`.
pub open spec fn install_round(s: PenHookState, hwnd: Option<isize>, previous: isize) -> PenHookState {
    let s1 = after_begin_install(s);
    match hwnd {
        Some(h) => if h != s1.hooked_hwnd {
            after_finish_install(s1, h, previous)
        } else {
            s1
        },
        None => s1,
    }
}

/// One message through the hook: counted; for a pointer message whose type the system told
/// (`pointer_type`), the type is kept, and a pressure read from it (`sample`) is recorded.
pub open spec fn message_round(
    s: PenHookState,
    msg: u32,
    pointer_type: Option<u32>,
    sample: Option<u32>,
    now_ms: u64,
) -> PenHookState {
    let s1 = after_window_message(s, msg);
    if !(msg == WM_POINTERDOWN || msg == WM_POINTERUPDATE || msg == WM_POINTERUP) {
        s1
    } else {
        match pointer_type {
            None => s1,
            Some(t) => {
                let s2 = after_pointer_type(s1, t);
                match sample {
                    None => s2,
                    Some(bits) => after_record_pressure(s2, bits, now_ms),
                }
            },
        }
    }
}

/// What the hook's counters keep to: no more successes than attempts, no more samples than
/// pointer messages and no more of those than messages, a replaced procedure exactly when an
/// install succeeded, and the signal detected exactly when a sample was recorded.
pub open spec fn hook_state_wf(s: PenHookState) -> bool {
    &&& s.hook_install_successes <= s.hook_install_attempts
    &&& s.pressure_sample_count <= s.pointer_message_count <= s.any_window_message_count
    &&& (s.prev_wndproc != 0) == (s.hook_install_successes > 0)
    &&& s.pressure_signal_detected == (s.pressure_sample_count > 0)
}

/// No counter is at its largest, so one more event does not wrap it.
pub open spec fn hook_counters_below_max(s: PenHookState) -> bool {
    &&& s.hook_install_attempts < u64::MAX
    &&& s.any_window_message_count < u64::MAX
}

/// Every install and every message keeps the counters in step (see `hook_state_wf`), and none
/// of them goes down, as long as no counter wraps past `u64::MAX`.
pub proof fn lemma_hook_rounds_keep_wf(
    s: PenHookState,
    hwnd: Option<isize>,
    previous: isize,
    msg: u32,
    pointer_type: Option<u32>,
    sample: Option<u32>,
    now_ms: u64,
)
    requires
        hook_state_wf(s),
        hook_counters_below_max(s),
    ensures
        hook_state_wf(install_round(s, hwnd, previous)),
        hook_state_wf(message_round(s, msg, pointer_type, sample, now_ms)),
        counters_not_below(install_round(s, hwnd, previous), s),
        counters_not_below(message_round(s, msg, pointer_type, sample, now_ms), s),
        message_round(s, msg, pointer_type, sample, now_ms).pressure_signal_detected
            == (s.pressure_signal_detected || (msg == WM_POINTERDOWN || msg == WM_POINTERUPDATE
            || msg == WM_POINTERUP) && pointer_type is Some && sample is Some),
{
}

/// None of the counters of `a` is below that of `b`.
pub open spec fn counters_not_below(a: PenHookState, b: PenHookState) -> bool {
    &&& a.hook_install_attempts >= b.hook_install_attempts
    &&& a.hook_install_successes >= b.hook_install_successes
    &&& a.any_window_message_count >= b.any_window_message_count
    &&& a.pointer_message_count >= b.pointer_message_count
    &&& a.pressure_sample_count >= b.pressure_sample_count
}

impl PenHookState {
    /// Nothing hooked, nothing counted, no sample.
    pub fn new() -> (s: Self)
        ensures
            s.hooked_hwnd == 0,
            s.prev_wndproc == 0,
            s.last_pressure_bits == NO_PRESSURE_BITS,
            s.last_pressure_ts_ms == 0,
            !s.pressure_signal_detected,
            s.hook_install_attempts == 0,
            s.hook_install_successes == 0,
            s.any_window_message_count == 0,
            s.pointer_message_count == 0,
            s.pressure_sample_count == 0,
            s.last_pointer_type == 0,
            hook_state_wf(s),
    {
        PenHookState {
            hooked_hwnd: 0,
            prev_wndproc: 0,
            last_pressure_bits: NO_PRESSURE_BITS,
            last_pressure_ts_ms: 0,
            pressure_signal_detected: false,
            hook_install_attempts: 0,
            hook_install_successes: 0,
            any_window_message_count: 0,
            pointer_message_count: 0,
            pressure_sample_count: 0,
            last_pointer_type: 0,
        }
    }

    /// An install is asked for: counted.
    pub fn begin_install(&mut self)
        ensures
            *final(self) == after_begin_install(*old(self)),
    {
        self.hook_install_attempts = bump(self.hook_install_attempts);
    }

    /// Whether the window `hwnd` still has to be hooked: it has, unless it is the hooked one.
    pub fn needs_hook(&self, hwnd: isize) -> (r: bool)
        ensures
            r == (hwnd != self.hooked_hwnd),
    {
        hwnd != self.hooked_hwnd
    }

    /// The system replaced the procedure of `hwnd` and returned `previous`: a nonzero
    /// `previous` means the hook is in, and is kept with the window.
    pub fn finish_install(&mut self, hwnd: isize, previous: isize)
        ensures
            *final(self) == after_finish_install(*old(self), hwnd, previous),
    {
        if previous != 0 {
            self.hooked_hwnd = hwnd;
            self.prev_wndproc = previous;
            self.hook_install_successes = bump(self.hook_install_successes);
        }
    }

    /// A window message came through the hook: every one is counted, pointer messages twice
    /// over. Returns whether `msg` is a pointer message, whose pressure is then read.
    pub fn on_window_message(&mut self, msg: u32) -> (r: bool)
        ensures
            r == (msg == WM_POINTERDOWN || msg == WM_POINTERUPDATE || msg == WM_POINTERUP),
            *final(self) == after_window_message(*old(self), msg),
    {
        self.any_window_message_count = bump(self.any_window_message_count);
        let pointer = is_pointer_message(msg);
        if pointer {
            self.pointer_message_count = bump(self.pointer_message_count);
        }
        pointer
    }

    /// The system told the type of the pointer of the message.
    pub fn on_pointer_type(&mut self, pointer_type: u32)
        ensures
            *final(self) == after_pointer_type(*old(self), pointer_type),
    {
        self.last_pointer_type = pointer_type;
    }

    /// A pressure sample (the bits of the normalized pressure) was read at `now_ms`.
    pub fn record_pressure(&mut self, bits: u32, now_ms: u64)
        ensures
            *final(self) == after_record_pressure(*old(self), bits, now_ms),
    {
        self.last_pressure_bits = bits;
        self.last_pressure_ts_ms = now_ms;
        self.pressure_signal_detected = true;
        self.pressure_sample_count = bump(self.pressure_sample_count);
    }

    /// The last pressure sample if it is at most `max_age_ms` old at `now_ms`.
    pub fn latest_pressure_bits(&self, now_ms: u64, max_age_ms: u64) -> (r: Option<u32>)
        ensures
            r == fresh_pressure(self.last_pressure_bits, self.last_pressure_ts_ms, now_ms, max_age_ms),
    {
        fresh_pressure_bits(self.last_pressure_bits, self.last_pressure_ts_ms, now_ms, max_age_ms)
    }

    /// The procedure that messages are handed on to: the replaced one, if any (else the
    /// default procedure).
    pub fn previous_wndproc(&self) -> (r: Option<isize>)
        ensures
            r == (if self.prev_wndproc != 0 {
                Some(self.prev_wndproc)
            } else {
                None
            }),
    {
        if self.prev_wndproc != 0 {
            Some(self.prev_wndproc)
        } else {
            None
        }
    }
}

/// Whether any pressure sample has been read since the state was made.
pub fn pressure_signal_detected(state: &PenHookState) -> (r: bool)
    ensures
        r == state.pressure_signal_detected,
        hook_state_wf(*state) ==> r == (state.pressure_sample_count > 0),
{
    state.pressure_signal_detected
}

/// The counters: install attempts and successes, window messages, pointer messages, pressure
/// samples, and the type of the last pointer.
pub fn debug_snapshot(state: &PenHookState) -> (r: (u64, u64, u64, u64, u64, u32))
    ensures
        r == (
            state.hook_install_attempts,
            state.hook_install_successes,
            state.any_window_message_count,
            state.pointer_message_count,
            state.pressure_sample_count,
            state.last_pointer_type,
        ),
        hook_state_wf(*state) ==> r.1 <= r.0 && r.4 <= r.3 <= r.2,
{
    (
        state.hook_install_attempts,
        state.hook_install_successes,
        state.any_window_message_count,
        state.pointer_message_count,
        state.pressure_sample_count,
        state.last_pointer_type,
    )
}

/// A pressure sample recorded at `now_ms` is read back, as long as it is one: at any time
/// `t_ms` it comes back unless `t_ms` lies more than `max_age_ms` after `now_ms`, whatever the
/// state held before.
pub proof fn lemma_hook_sample_read_back(s: PenHookState, bits: u32, now_ms: u64, t_ms: u64, max_age_ms: u64)
    requires
        bits != NO_PRESSURE_BITS,
    ensures
        fresh_pressure(
            after_record_pressure(s, bits, now_ms).last_pressure_bits,
            after_record_pressure(s, bits, now_ms).last_pressure_ts_ms,
            t_ms,
            max_age_ms,
        ) == (if t_ms > now_ms && t_ms - now_ms > max_age_ms {
            None::<u32>
        } else {
            Some(bits)
        }),
{
}

} // verus!
