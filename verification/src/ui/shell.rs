//! Keyboard shortcuts: which commands the keys pressed in one frame ask for.

use vstd::prelude::*;

verus! {

/// The modifier state and the shortcut keys pressed in one frame.
#[derive(Debug, Clone, Copy, PartialEq, Eq, Structural)]
pub struct ShortcutKeys {
    /// Ctrl, or Cmd on macOS.
    pub command: bool,
    pub shift: bool,
    pub n: bool,
    pub o: bool,
    pub s: bool,
    pub z: bool,
    pub y: bool,
}

/// The commands that the keys of one frame ask for; several may come at once.
#[derive(Debug, Clone, Copy, PartialEq, Eq, Structural)]
pub struct ShortcutActions {
    pub new_project: bool,
    pub load_project: bool,
    pub load_autosave: bool,
    pub save_project: bool,
    pub save_project_as: bool,
    pub undo: bool,
    pub redo: bool,
}

/// Cmd+N new project, Cmd+O open a project, Cmd+Shift+O load the autosave, Cmd+S save,
/// Cmd+Shift+S save as, Cmd+Z undo, Cmd+Y or Cmd+Shift+Z redo.
pub open spec fn shortcut_actions_spec(k: ShortcutKeys) -> ShortcutActions {
    ShortcutActions {
        new_project: k.command && k.n,
        load_project: k.command && k.o && !k.shift,
        load_autosave: k.command && k.shift && k.o,
        save_project: k.command && k.s && !k.shift,
        save_project_as: k.command && k.shift && k.s,
        undo: k.command && k.z && !k.shift,
        redo: k.command && (k.y || (k.shift && k.z)),
    }
}

/// The commands that `k` asks for (see `shortcut_actions_spec`).
pub fn shortcut_actions(k: ShortcutKeys) -> (a: ShortcutActions)
    ensures
        a == shortcut_actions_spec(k),
{
    ShortcutActions {
        new_project: k.command && k.n,
        load_project: k.command && k.o && !k.shift,
        load_autosave: k.command && k.shift && k.o,
        save_project: k.command && k.s && !k.shift,
        save_project_as: k.command && k.shift && k.s,
        undo: k.command && k.z && !k.shift,
        redo: k.command && (k.y || (k.shift && k.z)),
    }
}

/// Without the command modifier no shortcut fires, and one frame never asks both to open a
/// project and to load the autosave, both to save and to save as, nor both to undo and to redo
/// by the Z key alone.
pub proof fn lemma_shortcuts_exclusive(k: ShortcutKeys)
    ensures
        !k.command ==> shortcut_actions_spec(k) == (ShortcutActions {
            new_project: false,
            load_project: false,
            load_autosave: false,
            save_project: false,
            save_project_as: false,
            undo: false,
            redo: false,
        }),
        !(shortcut_actions_spec(k).load_project && shortcut_actions_spec(k).load_autosave),
        !(shortcut_actions_spec(k).save_project && shortcut_actions_spec(k).save_project_as),
        !k.y ==> !(shortcut_actions_spec(k).undo && shortcut_actions_spec(k).redo),
{
}

} // verus!
