use pinturapp::app::project::{autosave_due, autosave_status_text, unpack_dir_name};
use pinturapp::renderer::paint_pipeline::BrushFalloff;
use pinturapp::ui::layout::{dirty_label, falloff_label, pressure_mode_label};
use pinturapp::ui::shell::{shortcut_actions, ShortcutActions, ShortcutKeys};

fn keys(command: bool, shift: bool, key: char) -> ShortcutKeys {
    ShortcutKeys { command, shift, n: key == 'n', o: key == 'o', s: key == 's', z: key == 'z', y: key == 'y' }
}

const NONE: ShortcutActions = ShortcutActions {
    new_project: false,
    load_project: false,
    load_autosave: false,
    save_project: false,
    save_project_as: false,
    undo: false,
    redo: false,
};

#[test]
fn falloff_labels() {
    assert_eq!(falloff_label(BrushFalloff::Smooth), "Smooth");
    assert_eq!(falloff_label(BrushFalloff::Sphere), "Sphere");
    assert_eq!(falloff_label(BrushFalloff::Root), "Root");
    assert_eq!(falloff_label(BrushFalloff::Sharp), "Sharp");
    assert_eq!(falloff_label(BrushFalloff::Linear), "Linear");
    assert_eq!(falloff_label(BrushFalloff::Constant), "Constant");
}

#[test]
fn status_labels() {
    assert_eq!(pressure_mode_label(false, true, true, true), "fixed");
    assert_eq!(pressure_mode_label(true, false, false, false), "tablet/no-signal");
    assert_eq!(pressure_mode_label(true, false, false, true), "tablet");
    assert_eq!(dirty_label(true), "Dirty");
    assert_eq!(dirty_label(false), "Saved");
}

#[test]
fn shortcuts_need_the_command_key() {
    assert_eq!(shortcut_actions(keys(false, false, 's')), NONE);
    assert_eq!(shortcut_actions(keys(true, false, 's')), ShortcutActions { save_project: true, ..NONE });
    assert_eq!(shortcut_actions(keys(true, true, 's')), ShortcutActions { save_project_as: true, ..NONE });
    assert_eq!(shortcut_actions(keys(true, false, 'n')), ShortcutActions { new_project: true, ..NONE });
}

#[test]
fn shift_o_loads_only_the_autosave() {
    assert_eq!(shortcut_actions(keys(true, false, 'o')), ShortcutActions { load_project: true, ..NONE });
    assert_eq!(shortcut_actions(keys(true, true, 'o')), ShortcutActions { load_autosave: true, ..NONE });
}

#[test]
fn undo_and_redo_keys() {
    assert_eq!(shortcut_actions(keys(true, false, 'z')), ShortcutActions { undo: true, ..NONE });
    assert_eq!(shortcut_actions(keys(true, true, 'z')), ShortcutActions { redo: true, ..NONE });
    assert_eq!(shortcut_actions(keys(true, false, 'y')), ShortcutActions { redo: true, ..NONE });
}

#[test]
fn autosave_waits_twenty_seconds_of_unsaved_changes() {
    assert!(!autosave_due(false, 100));
    assert!(!autosave_due(true, 19));
    assert!(autosave_due(true, 20));
}

#[test]
fn autosave_status() {
    assert_eq!(autosave_status_text(Some(0), false), "0s ago");
    assert_eq!(autosave_status_text(Some(42), true), "42s ago");
    assert_eq!(autosave_status_text(None, true), "available");
    assert_eq!(autosave_status_text(None, false), "pending");
}

#[test]
fn unpack_dirs_are_stem_and_stamp() {
    assert_eq!(unpack_dir_name("scene", 1_700_000_000), "scene_1700000000");
    assert_eq!(unpack_dir_name("", 0), "_0");
}
