//! Undo and redo of paint strokes: two bounded stacks of texture snapshots.

use std::collections::VecDeque;
use vstd::prelude::*;

verus! {

/// How many snapshots each stack keeps; the oldest goes first.
pub const MAX_HISTORY: usize = 20;

/// A stack after a push: when it grew past `MAX_HISTORY`, its oldest entry is dropped.
pub open spec fn capped<T>(s: Seq<T>) -> Seq<T> {
    if s.len() > MAX_HISTORY {
        s.drop_first()
    } else {
        s
    }
}

/// The history as a whole, with the texture shown now (if any).
pub struct HistoryView<T> {
    pub undo: Seq<T>,
    pub redo: Seq<T>,
    pub current: Option<T>,
}

/// A stroke begins on `snapshot` of the texture: it goes on the undo stack, and nothing is
/// left to redo.
pub open spec fn after_stroke<T>(h: HistoryView<T>, snapshot: T) -> HistoryView<T> {
    HistoryView { undo: capped(h.undo.push(snapshot)), redo: Seq::empty(), current: h.current }
}

/// Undo: the texture shown goes on the redo stack and the last snapshot comes back. Nothing
/// happens without a texture or without a snapshot; the flag says whether something changed.
pub open spec fn after_undo<T>(h: HistoryView<T>) -> (HistoryView<T>, bool) {
    match h.current {
        None => (h, false),
        Some(c) => if h.undo.len() == 0 {
            (h, false)
        } else {
            (HistoryView { undo: h.undo.drop_last(), redo: capped(h.redo.push(c)), current: Some(h.undo.last()) }, true)
        },
    }
}

/// Redo: the mirror of undo.
pub open spec fn after_redo<T>(h: HistoryView<T>) -> (HistoryView<T>, bool) {
    match h.current {
        None => (h, false),
        Some(c) => if h.redo.len() == 0 {
            (h, false)
        } else {
            (HistoryView { undo: capped(h.undo.push(c)), redo: h.redo.drop_last(), current: Some(h.redo.last()) }, true)
        },
    }
}

/// Both stacks within their bound.
pub open spec fn bounded<T>(h: HistoryView<T>) -> bool {
    h.undo.len() <= MAX_HISTORY && h.redo.len() <= MAX_HISTORY
}

/// The undo and redo stacks of the paint session.
pub struct PaintHistory<T> {
    undo_stack: VecDeque<T>,
    redo_stack: VecDeque<T>,
}

impl<T> PaintHistory<T> {
    pub closed spec fn undo_seq(&self) -> Seq<T> {
        self.undo_stack@
    }

    pub closed spec fn redo_seq(&self) -> Seq<T> {
        self.redo_stack@
    }

    /// The history with `current` as the texture shown.
    pub open spec fn with_current(&self, current: Option<T>) -> HistoryView<T> {
        HistoryView { undo: self.undo_seq(), redo: self.redo_seq(), current }
    }

    /// Each stack holds at most `MAX_HISTORY` snapshots.
    pub open spec fn wf(&self) -> bool {
        self.undo_seq().len() <= MAX_HISTORY && self.redo_seq().len() <= MAX_HISTORY
    }

    /// No snapshots.
    pub fn new() -> (h: Self)
        ensures
            h.wf(),
            h.undo_seq() == Seq::<T>::empty(),
            h.redo_seq() == Seq::<T>::empty(),
    {
        PaintHistory { undo_stack: VecDeque::new(), redo_stack: VecDeque::new() }
    }

    /// Forgets every snapshot.
    pub fn clear(&mut self)
        ensures
            final(self).wf(),
            final(self).undo_seq() == Seq::<T>::empty(),
            final(self).redo_seq() == Seq::<T>::empty(),
    {
        self.undo_stack.clear();
        self.redo_stack.clear();
    }

    /// How many strokes can be undone.
    pub fn undo_len(&self) -> (n: usize)
        ensures
            n == self.undo_seq().len(),
    {
        self.undo_stack.len()
    }

    /// How many undone strokes can be redone.
    pub fn redo_len(&self) -> (n: usize)
        ensures
            n == self.redo_seq().len(),
    {
        self.redo_stack.len()
    }

    /// A stroke begins on `snapshot`, the texture as it is before the stroke.
    pub fn begin_stroke(&mut self, snapshot: T)
        requires
            old(self).wf(),
        ensures
            final(self).wf(),
            final(self).with_current(None) == after_stroke(old(self).with_current(None), snapshot),
    {
        self.undo_stack.push_back(snapshot);
        if self.undo_stack.len() > MAX_HISTORY {
            let _ = self.undo_stack.pop_front();
        }
        self.redo_stack.clear();
    }

    /// Undoes the last stroke on `current`, the texture shown now. Returns the texture to show
    /// and whether anything changed.
    pub fn undo(&mut self, current: Option<T>) -> (r: (Option<T>, bool))
        requires
            old(self).wf(),
        ensures
            final(self).wf(),
            (final(self).with_current(r.0), r.1) == after_undo(old(self).with_current(current)),
    {
        match current {
            None => (None, false),
            Some(c) => match self.undo_stack.pop_back() {
                None => (Some(c), false),
                Some(previous) => {
                    self.redo_stack.push_back(c);
                    if self.redo_stack.len() > MAX_HISTORY {
                        let _ = self.redo_stack.pop_front();
                    }
                    (Some(previous), true)
                },
            },
        }
    }

    /// Redoes the last undone stroke on `current`, the texture shown now. Returns the texture
    /// to show and whether anything changed.
    pub fn redo(&mut self, current: Option<T>) -> (r: (Option<T>, bool))
        requires
            old(self).wf(),
        ensures
            final(self).wf(),
            (final(self).with_current(r.0), r.1) == after_redo(old(self).with_current(current)),
    {
        match current {
            None => (None, false),
            Some(c) => match self.redo_stack.pop_back() {
                None => (Some(c), false),
                Some(next) => {
                    self.undo_stack.push_back(c);
                    if self.undo_stack.len() > MAX_HISTORY {
                        let _ = self.undo_stack.pop_front();
                    }
                    (Some(next), true)
                },
            },
        }
    }
}

/// Redo takes back an undo: the texture, both stacks and all, as long as the redo stack had
/// room for one more snapshot.
pub proof fn lemma_redo_undoes_undo<T>(h: HistoryView<T>)
    requires
        h.current is Some,
        h.undo.len() > 0,
        h.redo.len() < MAX_HISTORY,
        h.undo.len() <= MAX_HISTORY,
    ensures
        after_undo(h).1,
        after_redo(after_undo(h).0).1,
        after_redo(after_undo(h).0).0 == h,
{
    let u = after_undo(h).0;
    assert(u.redo.drop_last() =~= h.redo);
    assert(u.undo.push(h.undo.last()) =~= h.undo);
}

/// Undo takes back a redo, under the same condition on the undo stack.
pub proof fn lemma_undo_undoes_redo<T>(h: HistoryView<T>)
    requires
        h.current is Some,
        h.redo.len() > 0,
        h.undo.len() < MAX_HISTORY,
        h.redo.len() <= MAX_HISTORY,
    ensures
        after_redo(h).1,
        after_undo(after_redo(h).0).1,
        after_undo(after_redo(h).0).0 == h,
{
    let r = after_redo(h).0;
    assert(r.undo.drop_last() =~= h.undo);
    assert(r.redo.push(h.redo.last()) =~= h.redo);
}

/// Every step keeps both stacks within `MAX_HISTORY`.
pub proof fn lemma_steps_stay_bounded<T>(h: HistoryView<T>, snapshot: T)
    requires
        bounded(h),
    ensures
        bounded(after_stroke(h, snapshot)),
        bounded(after_undo(h).0),
        bounded(after_redo(h).0),
{
}

} // verus!
