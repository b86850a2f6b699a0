use pinturapp::clock::now_unix_ms;
use pinturapp::platform::windows_pen::{
    self, is_pointer_message, loword, pressure_source, raw_pressure_present, PenHookState, PressureSource,
    PT_PEN, PT_TOUCH, WM_POINTERDOWN, WM_POINTERUP, WM_POINTERUPDATE,
};
use pinturapp::platform::windows_wintab::{self, pressure_range, pressure_span, tip_in_contact, WintabState};
use pinturapp::platform::{bump, fresh_pressure_bits, wrapping_sum, NO_PRESSURE_BITS};

#[test]
fn loword_keeps_the_low_half() {
    assert_eq!(loword(0x1234_5678), 0x5678);
    assert_eq!(loword(0xffff), 0xffff);
    assert_eq!(loword(0x1_0000), 0);
}

#[test]
fn counters_wrap_like_atomics() {
    assert_eq!(bump(0), 1);
    assert_eq!(bump(u64::MAX), 0);
    assert_eq!(wrapping_sum(u64::MAX, 2), 1);
    assert_eq!(wrapping_sum(3, 4), 7);
}

#[test]
fn pointer_messages_and_sources() {
    assert!(is_pointer_message(WM_POINTERDOWN));
    assert!(is_pointer_message(WM_POINTERUPDATE));
    assert!(is_pointer_message(WM_POINTERUP));
    assert!(!is_pointer_message(0x0200));
    assert_eq!(pressure_source(PT_PEN), PressureSource::Pen);
    assert_eq!(pressure_source(PT_TOUCH), PressureSource::Touch);
    assert_eq!(pressure_source(4), PressureSource::PenThenTouch);
    assert!(!raw_pressure_present(0));
    assert!(raw_pressure_present(512));
}

#[test]
fn stale_or_missing_pressure_is_none() {
    assert_eq!(fresh_pressure_bits(NO_PRESSURE_BITS, 0, 0, 100), None);
    assert_eq!(fresh_pressure_bits(7, 1000, 1100, 100), Some(7));
    assert_eq!(fresh_pressure_bits(7, 1000, 1101, 100), None);
    // A clock that went back counts as no age.
    assert_eq!(fresh_pressure_bits(7, 1000, 10, 0), Some(7));
}

#[test]
fn pen_hook_counts_messages_and_samples() {
    let mut s = PenHookState::new();
    assert!(!windows_pen::pressure_signal_detected(&s));
    s.begin_install();
    assert!(s.needs_hook(42));
    s.finish_install(42, 0);
    assert_eq!(s.previous_wndproc(), None);
    s.begin_install();
    s.finish_install(42, 99);
    assert!(!s.needs_hook(42));
    assert_eq!(s.previous_wndproc(), Some(99));
    assert!(s.on_window_message(WM_POINTERDOWN));
    assert!(!s.on_window_message(0x000F));
    s.on_pointer_type(PT_PEN);
    s.record_pressure(0x3f00_0000, 5000);
    assert!(windows_pen::pressure_signal_detected(&s));
    assert_eq!(windows_pen::debug_snapshot(&s), (2, 1, 2, 1, 1, PT_PEN));
    assert_eq!(s.latest_pressure_bits(5100, 120), Some(0x3f00_0000));
    assert_eq!(s.latest_pressure_bits(5121, 120), None);
}

#[test]
fn wintab_range_falls_back_to_1024() {
    assert_eq!(pressure_range(false, 0, 4096), (0, 1024));
    assert_eq!(pressure_range(true, 0, 4096), (0, 4096));
    assert_eq!(pressure_range(true, 10, 10), (0, 1024));
    assert_eq!(pressure_range(true, 100, -5), (0, 1024));
    assert_eq!(pressure_span(512, 0, 1024), Some((512, 1024)));
    assert_eq!(pressure_span(5, 10, 20), Some((-5, 10)));
    assert_eq!(pressure_span(5, 20, 20), None);
}

#[test]
fn wintab_polls_only_with_a_context() {
    let mut s = WintabState::new();
    assert!(!s.needs_backend(0));
    assert!(!s.poll_packets());
    assert!(s.needs_backend(7));
    s.begin_init();
    s.finish_init(7, None);
    assert!(s.needs_backend(7));
    s.begin_init();
    s.finish_init(7, Some((0, 2048)));
    assert!(!s.needs_backend(7));
    assert!(s.needs_backend(8));
    assert!(s.poll_packets());
    assert_eq!(s.on_packets(0), None);
    assert_eq!(s.on_packets(3), Some(2));
    assert!(!tip_in_contact(2));
    assert!(tip_in_contact(3));
    assert!(!s.on_latest_packet(0));
    assert!(s.on_latest_packet(1));
    s.record_pressure(1, now_unix_ms());
    assert!(windows_wintab::pressure_signal_detected(&s));
    assert_eq!(windows_wintab::debug_snapshot(&s), (2, 1, 1, 3, 1, 7));
    assert_eq!((s.pressure_min, s.pressure_max), (0, 2048));
}

#[test]
fn clock_reads_after_2020() {
    assert!(now_unix_ms() > 1_577_836_800_000);
}
