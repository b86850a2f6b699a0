use pinturapp::app::history::{PaintHistory, MAX_HISTORY};

#[test]
fn undo_brings_back_the_snapshot_and_redo_the_stroke() {
    let mut h: PaintHistory<u32> = PaintHistory::new();
    h.begin_stroke(1);
    // The stroke turned texture 1 into texture 2.
    assert_eq!(h.undo(Some(2)), (Some(1), true));
    assert_eq!((h.undo_len(), h.redo_len()), (0, 1));
    assert_eq!(h.redo(Some(1)), (Some(2), true));
    assert_eq!((h.undo_len(), h.redo_len()), (1, 0));
}

#[test]
fn nothing_to_undo_or_redo_keeps_the_texture() {
    let mut h: PaintHistory<u32> = PaintHistory::new();
    assert_eq!(h.undo(Some(5)), (Some(5), false));
    assert_eq!(h.redo(Some(5)), (Some(5), false));
    h.begin_stroke(4);
    assert_eq!(h.undo(None), (None, false));
    assert_eq!(h.undo_len(), 1);
}

#[test]
fn a_new_stroke_drops_the_redo_stack() {
    let mut h: PaintHistory<u32> = PaintHistory::new();
    h.begin_stroke(1);
    assert_eq!(h.undo(Some(2)), (Some(1), true));
    h.begin_stroke(1);
    assert_eq!(h.redo_len(), 0);
    assert_eq!(h.redo(Some(3)), (Some(3), false));
}

#[test]
fn the_stacks_keep_the_last_twenty() {
    let mut h: PaintHistory<u32> = PaintHistory::new();
    for i in 0..25 {
        h.begin_stroke(i);
    }
    assert_eq!(MAX_HISTORY, 20);
    assert_eq!(h.undo_len(), 20);
    let mut current = Some(25);
    let mut seen = Vec::new();
    loop {
        let (next, changed) = h.undo(current);
        current = next;
        if !changed {
            break;
        }
        seen.push(current.unwrap());
    }
    assert_eq!(seen, (5..25).rev().collect::<Vec<u32>>());
    assert_eq!(h.redo_len(), 20);
}

#[test]
fn undo_then_redo_restores_everything() {
    let mut h: PaintHistory<u32> = PaintHistory::new();
    h.begin_stroke(10);
    h.begin_stroke(11);
    let (t, _) = h.undo(Some(12));
    assert_eq!(t, Some(11));
    let (t, _) = h.redo(t);
    assert_eq!(t, Some(12));
    assert_eq!((h.undo_len(), h.redo_len()), (2, 0));
    let (t, _) = h.undo(t);
    let (t, _) = h.undo(t);
    assert_eq!(t, Some(10));
    assert_eq!(h.undo(t), (Some(10), false));
}

#[test]
fn clear_forgets_both_stacks() {
    let mut h: PaintHistory<u32> = PaintHistory::new();
    h.begin_stroke(1);
    h.begin_stroke(2);
    let _ = h.undo(Some(3));
    h.clear();
    assert_eq!((h.undo_len(), h.redo_len()), (0, 0));
}
