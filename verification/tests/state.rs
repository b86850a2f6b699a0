use pinturapp::app::state::{
    clamp_padding_iterations, default_brush_blend_mode, default_seam_padding_iterations,
    default_use_pressure_for_size, default_use_pressure_for_strength, default_use_tablet_pressure,
    recent_projects_path, unix_timestamp_secs, LoadGate, PendingLoadAction, RecentProjects,
    MAX_RECENT_PROJECTS,
};
use pinturapp::renderer::paint_pipeline::BrushBlendMode;
use pinturapp::clock::{millis_or_zero, secs_or_zero};
use pinturapp::text::decimal_string;
use std::path::PathBuf;

#[test]
fn project_defaults() {
    assert_eq!(default_seam_padding_iterations(), 2);
    assert_eq!(default_brush_blend_mode(), BrushBlendMode::Normal);
    assert!(default_use_tablet_pressure());
    assert!(default_use_pressure_for_size());
    assert!(default_use_pressure_for_strength());
}

#[test]
fn padding_is_clamped_to_eight() {
    assert_eq!(clamp_padding_iterations(0), 0);
    assert_eq!(clamp_padding_iterations(8), 8);
    assert_eq!(clamp_padding_iterations(9), 8);
    assert_eq!(clamp_padding_iterations(usize::MAX), 8);
}

#[test]
fn timestamp_is_after_2020() {
    assert!(unix_timestamp_secs() > 1_577_836_800);
}

#[test]
fn recent_projects_file_is_in_the_storage_dir() {
    let p = recent_projects_path(&PathBuf::from("store"));
    assert_eq!(p, PathBuf::from("store").join("recent_projects.json"));
}

fn strings(v: &[&str]) -> Vec<String> {
    v.iter().map(|s| s.to_string()).collect()
}

#[test]
fn recording_puts_the_project_first_once() {
    let mut r = RecentProjects::new();
    r.record("a".to_string());
    r.record("b".to_string());
    r.record("c".to_string());
    assert_eq!(r.paths, strings(&["c", "b", "a"]));
    r.record("a".to_string());
    assert_eq!(r.paths, strings(&["a", "c", "b"]));
    r.record("a".to_string());
    assert_eq!(r.paths, strings(&["a", "c", "b"]));
}

#[test]
fn recent_projects_keep_ten() {
    let mut r = RecentProjects::new();
    for i in 0..15 {
        r.record(format!("p{i}"));
    }
    assert_eq!(MAX_RECENT_PROJECTS, 10);
    assert_eq!(r.paths.len(), 10);
    assert_eq!(r.paths[0], "p14");
    assert_eq!(r.paths[9], "p5");
    r.record("p7".to_string());
    assert_eq!(r.paths.len(), 10);
    assert_eq!(r.paths[0], "p7");
    assert_eq!(r.paths.iter().filter(|p| p.as_str() == "p7").count(), 1);
    assert_eq!(r.paths[9], "p5");
    r.clear();
    assert!(r.paths.is_empty());
}

#[test]
fn a_clean_session_loads_at_once() {
    let mut g = LoadGate::new();
    let run = g.request(false, PendingLoadAction::NewProject);
    assert!(matches!(run, Some(PendingLoadAction::NewProject)));
    assert!(g.pending.is_none());
    assert!(!g.show_discard_confirm);
}

#[test]
fn unsaved_changes_hold_the_load_until_discarded() {
    let mut g = LoadGate::new();
    let run = g.request(true, PendingLoadAction::LoadProject(PathBuf::from("x.pinturaproj")));
    assert!(run.is_none());
    assert!(g.show_discard_confirm);
    match g.discard_and_continue() {
        Some(PendingLoadAction::LoadProject(p)) => assert_eq!(p, PathBuf::from("x.pinturaproj")),
        other => panic!("unexpected {other:?}"),
    }
    assert!(g.pending.is_none());
    assert!(!g.show_discard_confirm);
}

#[test]
fn a_save_that_leaves_changes_keeps_waiting() {
    let mut g = LoadGate::new();
    assert!(g.request(true, PendingLoadAction::LoadAutosave).is_none());
    assert!(g.save_and_continue(true).is_none());
    assert!(g.show_discard_confirm);
    assert!(matches!(g.save_and_continue(false), Some(PendingLoadAction::LoadAutosave)));
    assert!(!g.show_discard_confirm);
}

#[test]
fn cancel_drops_the_waiting_load() {
    let mut g = LoadGate::new();
    assert!(g.request(true, PendingLoadAction::OpenProjectPicker).is_none());
    g.cancel();
    assert!(g.pending.is_none());
    assert!(!g.show_discard_confirm);
    assert!(g.discard_and_continue().is_none());
}

#[test]
fn recording_drops_spellings_of_the_same_path() {
    let mut r = RecentProjects::new();
    r.record("dir/a.pintura".to_string());
    r.record("dir/b.pintura".to_string());
    r.record("dir//a.pintura".to_string());
    assert_eq!(r.paths, strings(&["dir//a.pintura", "dir/b.pintura"]));
}

#[test]
fn recording_by_flags_drops_the_flagged_entries() {
    let mut r = RecentProjects::new();
    r.paths = strings(&["x", "y", "z"]);
    r.record_matching("w".to_string(), &vec![false, true, false]);
    assert_eq!(r.paths, strings(&["w", "x", "z"]));
}

#[test]
fn timestamps_fall_back_to_zero_before_the_epoch() {
    assert_eq!(secs_or_zero(Some(5)), 5);
    assert_eq!(secs_or_zero(None), 0);
    assert_eq!(millis_or_zero(Some(7)), 7);
    assert_eq!(millis_or_zero(Some(u64::MAX as u128 + 3)), 2);
    assert_eq!(millis_or_zero(None), 0);
}

#[test]
fn decimal_strings_match_display() {
    for n in [0u64, 7, 10, 99, 100, 1234567890, u64::MAX] {
        assert_eq!(decimal_string(n), n.to_string());
    }
}
