//! Labels shown in the side panels and the status bar.

use crate::renderer::paint_pipeline::BrushFalloff;
use vstd::prelude::*;

verus! {

/// The name of a falloff curve in the brush card.
pub fn falloff_label(mode: BrushFalloff) -> (s: &'static str)
    ensures
        s@ == (match mode {
            BrushFalloff::Smooth => "Smooth"@,
            BrushFalloff::Sphere => "Sphere"@,
            BrushFalloff::Root => "Root"@,
            BrushFalloff::Sharp => "Sharp"@,
            BrushFalloff::Linear => "Linear"@,
            BrushFalloff::Constant => "Constant"@,
        }),
{
    match mode {
        BrushFalloff::Smooth => "Smooth",
        BrushFalloff::Sphere => "Sphere",
        BrushFalloff::Root => "Root",
        BrushFalloff::Sharp => "Sharp",
        BrushFalloff::Linear => "Linear",
        BrushFalloff::Constant => "Constant",
    }
}

/// How the brush reads pressure, for the status bar: `"fixed"` when tablet pressure is off,
/// else `"tablet"` once some source (the session, the pointer hook or Wintab) has seen a pressure
/// sample and `"tablet/no-signal"` before.
pub fn pressure_mode_label(use_tablet_pressure: bool, session_detected: bool, pen_detected: bool, wintab_detected: bool) -> (s: &'static str)
    ensures
        s@ == (if !use_tablet_pressure {
            "fixed"@
        } else if session_detected || pen_detected || wintab_detected {
            "tablet"@
        } else {
            "tablet/no-signal"@
        }),
{
    if !use_tablet_pressure {
        "fixed"
    } else if session_detected || pen_detected || wintab_detected {
        "tablet"
    } else {
        "tablet/no-signal"
    }
}

/// The save state in the status bar.
pub fn dirty_label(is_dirty: bool) -> (s: &'static str)
    ensures
        s@ == (if is_dirty { "Dirty"@ } else { "Saved"@ }),
{
    if is_dirty {
        "Dirty"
    } else {
        "Saved"
    }
}

} // verus!
