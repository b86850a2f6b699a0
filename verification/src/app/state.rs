//! Session settings and bookkeeping: the defaults a saved project falls back on, load requests
//! that wait on unsaved changes, and the list of recent projects.

use crate::clock::{duration_secs, duration_since_unix_epoch, secs_or_zero, system_time_now};
use crate::renderer::paint_pipeline::BrushBlendMode;
use std::path::PathBuf;
use vstd::prelude::*;

verus! {

#[verifier::external_type_specification]
#[verifier::external_body]
pub struct ExPathBuf(PathBuf);

/// Seam padding rings of a project that does not say.
pub fn default_seam_padding_iterations() -> (n: usize)
    ensures
        n == 2,
{
    2
}

/// Blend mode of a project that does not say.
pub fn default_brush_blend_mode() -> (m: BrushBlendMode)
    ensures
        m == BrushBlendMode::Normal,
{
    BrushBlendMode::Normal
}

/// Whether tablet pressure is used, for a project that does not say.
pub fn default_use_tablet_pressure() -> (b: bool)
    ensures
        b,
{
    true
}

/// Whether pressure scales the brush size, for a project that does not say.
pub fn default_use_pressure_for_size() -> (b: bool)
    ensures
        b,
{
    true
}

/// Whether pressure scales the brush strength, for a project that does not say.
pub fn default_use_pressure_for_strength() -> (b: bool)
    ensures
        b,
{
    true
}

/// The most seam padding rings a project may ask for.
pub const MAX_SEAM_PADDING_ITERATIONS: usize = 8;

/// The padding rings of a loaded project, clamped to `0..=8`.
pub fn clamp_padding_iterations(n: usize) -> (r: usize)
    ensures
        r == (if n > MAX_SEAM_PADDING_ITERATIONS {
            MAX_SEAM_PADDING_ITERATIONS
        } else {
            n
        }),
{
    if n > MAX_SEAM_PADDING_ITERATIONS {
        MAX_SEAM_PADDING_ITERATIONS
    } else {
        n
    }
}

/// Whole seconds since the Unix epoch, or 0 when the clock reads earlier than the epoch (see
/// `secs_or_zero`).
pub fn unix_timestamp_secs() -> u64 {
    let now = system_time_now();
    let since_epoch = match duration_since_unix_epoch(&now) {
        Ok(d) => Some(duration_secs(&d)),
        Err(_) => None,
    };
    secs_or_zero(since_epoch)
}

/// A path string that every platform splits the same way, into a root and the segments
/// between its slashes as written: it starts with `/`, holds no backslash and no `:`, no two slashes
/// in a row, no `.` segment, and no slash at the end (but for `/` itself). `Path::components`
/// normalizes nothing in such a string, so two of them name the same path exactly when they are
/// equal.
pub open spec fn plain_absolute_path(p: Seq<char>) -> bool {
    &&& p.len() >= 1
    &&& p[0] == '/'
    &&& forall|i: int| 0 <= i < p.len() ==> #[trigger] p[i] != '\\' && p[i] != ':'
    &&& forall|i: int| 0 <= i < p.len() - 1 && #[trigger] p[i] == '/' ==> p[i + 1] != '/'
    &&& (p.len() > 1 ==> p[p.len() - 1] != '/')
    &&& forall|i: int|
        1 <= i < p.len() && #[trigger] p[i] == '.' && p[i - 1] == '/' ==> i + 1 < p.len() && p[i + 1] != '/'
}

/// `Path`'s `==` on two path strings: whether they name the same path, component by
/// component (`Path::components`). Equal strings name the same path. How other strings split
/// into components depends on the platform's separators and prefixes; for two strings that
/// `plain_absolute_path` admits it does not, and they name the same path exactly when they are
/// equal. Of other pairs of different strings nothing is stated.
#[verifier::external_body]
fn same_path(a: &String, b: &String) -> (r: bool)
    ensures
        a@ == b@ ==> r,
        plain_absolute_path(a@) && plain_absolute_path(b@) ==> (r == (a@ == b@)),
{
    std::path::Path::new(a) == std::path::Path::new(b)
}

/// `Path::join`: `dir` with `name` appended as a last component. `PathBuf` is opaque here, so
/// nothing is stated of the path.
#[verifier::external_body]
fn join_path(dir: &PathBuf, name: &str) -> PathBuf {
    dir.join(name)
}

/// The file, in the storage directory, that lists the recent projects.
pub fn recent_projects_path(storage_dir: &PathBuf) -> PathBuf {
    join_path(storage_dir, "recent_projects.json")
}

/// A load that the user asked for.
#[derive(Debug)]
pub enum PendingLoadAction {
    NewProject,
    OpenProjectPicker,
    LoadProject(PathBuf),
    LoadAutosave,
}

/// A load request that waits while the session has unsaved changes, until the user saves,
/// discards or cancels.
#[derive(Debug)]
pub struct LoadGate {
    pub pending: Option<PendingLoadAction>,
    pub show_discard_confirm: bool,
}

/// A request for `action`: the new gate and what runs now. With unsaved changes the
/// action waits (replacing any waiting one) behind the discard dialog; else it runs.
pub open spec fn gate_request(g: LoadGate, is_dirty: bool, action: PendingLoadAction) -> (LoadGate, Option<PendingLoadAction>) {
    if is_dirty {
        (LoadGate { pending: Some(action), show_discard_confirm: true }, None)
    } else {
        (g, Some(action))
    }
}

/// Discarding the changes: the new gate and what runs, the waiting action.
pub open spec fn gate_discard(g: LoadGate) -> (LoadGate, Option<PendingLoadAction>) {
    (LoadGate { pending: None, show_discard_confirm: false }, g.pending)
}

/// Saving first, when the save left the session `is_dirty_after_save`: only a clean session
/// goes on, as with a discard.
pub open spec fn gate_save(g: LoadGate, is_dirty_after_save: bool) -> (LoadGate, Option<PendingLoadAction>) {
    if is_dirty_after_save {
        (g, None)
    } else {
        gate_discard(g)
    }
}

impl LoadGate {
    /// Nothing waits.
    pub fn new() -> (g: Self)
        ensures
            g.pending is None,
            !g.show_discard_confirm,
    {
        LoadGate { pending: None, show_discard_confirm: false }
    }

    /// The user asks for `action`; returns what runs now (see `gate_request`).
    pub fn request(&mut self, is_dirty: bool, action: PendingLoadAction) -> (run: Option<PendingLoadAction>)
        ensures
            (*final(self), run) == gate_request(*old(self), is_dirty, action),
    {
        if is_dirty {
            self.pending = Some(action);
            self.show_discard_confirm = true;
            None
        } else {
            Some(action)
        }
    }

    /// The user chose to discard the changes; returns what runs (see `gate_discard`).
    pub fn discard_and_continue(&mut self) -> (run: Option<PendingLoadAction>)
        ensures
            (*final(self), run) == gate_discard(*old(self)),
    {
        self.show_discard_confirm = false;
        self.pending.take()
    }

    /// The user chose to save first; returns what runs (see `gate_save`).
    pub fn save_and_continue(&mut self, is_dirty_after_save: bool) -> (run: Option<PendingLoadAction>)
        ensures
            (*final(self), run) == gate_save(*old(self), is_dirty_after_save),
    {
        if is_dirty_after_save {
            return None;
        }
        self.show_discard_confirm = false;
        self.pending.take()
    }

    /// The user cancelled, or closed the dialog: nothing runs and nothing waits.
    pub fn cancel(&mut self)
        ensures
            final(self).pending is None,
            !final(self).show_discard_confirm,
    {
        self.show_discard_confirm = false;
        self.pending = None;
    }
}

/// A load asked for with unsaved changes runs later, the very one asked for, once the user
/// discards the changes or saves them cleanly; nothing runs before, and nothing waits after.
pub proof fn lemma_waiting_load_runs_after_confirm(g: LoadGate, action: PendingLoadAction, saved_dirty: bool)
    ensures
        gate_request(g, true, action).1 is None,
        gate_discard(gate_request(g, true, action).0).1 == Some(action),
        gate_discard(gate_request(g, true, action).0).0.pending is None,
        !saved_dirty ==> gate_save(gate_request(g, true, action).0, saved_dirty).1 == Some(action),
        saved_dirty ==> gate_save(gate_request(g, true, action).0, saved_dirty).1 is None,
{
}

/// How many recent projects are remembered.
pub const MAX_RECENT_PROJECTS: usize = 10;

/// `list` without the entries equal to `p`, in order.
pub open spec fn without(list: Seq<Seq<char>>, p: Seq<char>) -> Seq<Seq<char>>
    decreases list.len(),
{
    if list.len() == 0 {
        seq![]
    } else {
        let rest = without(list.drop_last(), p);
        if list.last() == p {
            rest
        } else {
            rest.push(list.last())
        }
    }
}

/// `s` cut to its first `MAX_RECENT_PROJECTS` entries.
pub open spec fn cap_recent(s: Seq<Seq<char>>) -> Seq<Seq<char>> {
    if s.len() > MAX_RECENT_PROJECTS {
        s.take(MAX_RECENT_PROJECTS as int)
    } else {
        s
    }
}

/// The recent list after opening or saving `p`, where entries name the same path exactly when
/// they are equal strings: `p` first, then the others in their order
/// without `p`, the oldest dropped past `MAX_RECENT_PROJECTS`.
pub open spec fn recorded(list: Seq<Seq<char>>, p: Seq<char>) -> Seq<Seq<char>> {
    cap_recent(seq![p] + without(list, p))
}

/// The entries of `list` whose flag in `same` is false, in order.
pub open spec fn kept(list: Seq<Seq<char>>, same: Seq<bool>) -> Seq<Seq<char>>
    decreases list.len(),
{
    if list.len() == 0 {
        seq![]
    } else {
        let rest = kept(list.drop_last(), same.take(list.len() - 1));
        if same[list.len() - 1] {
            rest
        } else {
            rest.push(list.last())
        }
    }
}

/// The recent list after opening or saving `p`, where `same` flags the entries that name the
/// same path as `p`: `p` first, then the unflagged entries in their order, the oldest dropped
/// past `MAX_RECENT_PROJECTS`.
pub open spec fn recorded_with(list: Seq<Seq<char>>, p: Seq<char>, same: Seq<bool>) -> Seq<Seq<char>> {
    cap_recent(seq![p] + kept(list, same))
}

pub open spec fn path_views(v: Seq<String>) -> Seq<Seq<char>> {
    v.map_values(|s: String| s@)
}

/// The recently opened or saved projects, most recent first, as they are stored.
#[derive(Debug)]
pub struct RecentProjects {
    pub paths: Vec<String>,
}

proof fn lemma_kept_push(list: Seq<Seq<char>>, same: Seq<bool>, x: Seq<char>, b: bool)
    requires
        same.len() == list.len(),
    ensures
        kept(list.push(x), same.push(b)) == (if b {
            kept(list, same)
        } else {
            kept(list, same).push(x)
        }),
{
    assert(list.push(x).drop_last() =~= list);
    assert(same.push(b).take(list.len() as int) =~= same);
}

proof fn lemma_cap_push(s: Seq<Seq<char>>, x: Seq<char>)
    ensures
        cap_recent(s.push(x)) == (if s.len() < MAX_RECENT_PROJECTS {
            s.push(x)
        } else {
            cap_recent(s)
        }),
{
    if s.len() >= MAX_RECENT_PROJECTS {
        assert(s.push(x).take(MAX_RECENT_PROJECTS as int) =~= cap_recent(s));
    }
}

impl RecentProjects {
    /// No recent projects.
    pub fn new() -> (r: Self)
        ensures
            r.paths@ == Seq::<String>::empty(),
    {
        RecentProjects { paths: Vec::new() }
    }

    /// Forgets every recent project.
    pub fn clear(&mut self)
        ensures
            final(self).paths@ == Seq::<String>::empty(),
    {
        self.paths = Vec::new();
    }

    /// Puts `path` first, dropping the entries flagged in `same` as naming the same path (see
    /// `recorded_with`).
    pub fn record_matching(&mut self, path: String, same: &Vec<bool>)
        requires
            same@.len() == old(self).paths@.len(),
        ensures
            path_views(final(self).paths@) == recorded_with(path_views(old(self).paths@), path@, same@),
    {
        let ghost p = path@;
        let ghost olds = path_views(self.paths@);
        let n = self.paths.len();
        let mut out: Vec<String> = Vec::new();
        out.push(path);
        proof {
            assert(olds.take(0) =~= seq![]);
            assert(seq![p] + kept(olds.take(0), same@.take(0)) =~= seq![p]);
            assert(path_views(out@) =~= seq![p]);
        }
        let mut i: usize = 0;
        while i < n
            invariant
                i <= n,
                n == self.paths@.len(),
                olds == path_views(self.paths@),
                out@.len() >= 1,
                out@[0]@ == p,
                same@.len() == n,
                path_views(out@) == cap_recent(seq![p] + kept(olds.take(i as int), same@.take(i as int))),
            decreases n - i,
        {
            proof {
                assert(olds.take(i + 1) =~= olds.take(i as int).push(olds[i as int]));
                assert(same@.take(i + 1) =~= same@.take(i as int).push(same@[i as int]));
                lemma_kept_push(olds.take(i as int), same@.take(i as int), olds[i as int], same@[i as int]);
                assert(seq![p] + kept(olds.take(i as int), same@.take(i as int)).push(olds[i as int]) =~= (seq![p]
                    + kept(olds.take(i as int), same@.take(i as int))).push(olds[i as int]));
                lemma_cap_push(seq![p] + kept(olds.take(i as int), same@.take(i as int)), olds[i as int]);
            }
            if out.len() < MAX_RECENT_PROJECTS && !same[i] {
                let q = self.paths[i].clone();
                out.push(q);
                proof {
                    assert(path_views(out@) =~= path_views(out@.drop_last()).push(olds[i as int]));
                }
            }
            i += 1;
        }
        proof {
            assert(olds.take(n as int) =~= olds);
            assert(same@.take(n as int) =~= same@);
        }
        self.paths = out;
    }

    /// Puts `path` first and drops every entry that `Path` equality finds naming the same path
    /// (entries equal to `path` as strings among them); see `recorded_with`.
    pub fn record(&mut self, path: String)
        ensures
            exists|same: Seq<bool>|
                same.len() == old(self).paths@.len() && (forall|i: int|
                    0 <= i < same.len() && path_views(old(self).paths@)[i] == path@ ==> #[trigger] same[i])
                    && (forall|i: int|
                    0 <= i < same.len() && plain_absolute_path(path_views(old(self).paths@)[i])
                        && plain_absolute_path(path@) && path_views(old(self).paths@)[i] != path@ ==> !#[trigger] same[i])
                    && path_views(final(self).paths@) == recorded_with(
                    path_views(old(self).paths@),
                    path@,
                    same,
                ),
    {
        let n = self.paths.len();
        let mut same: Vec<bool> = Vec::new();
        let mut i: usize = 0;
        while i < n
            invariant
                i <= n,
                n == self.paths@.len(),
                same@.len() == i,
                forall|j: int| 0 <= j < i && self.paths@[j]@ == path@ ==> #[trigger] same@[j],
                forall|j: int|
                    0 <= j < i && plain_absolute_path(self.paths@[j]@) && plain_absolute_path(path@)
                        && self.paths@[j]@ != path@ ==> !#[trigger] same@[j],
            decreases n - i,
        {
            let s = same_path(&self.paths[i], &path);
            same.push(s);
            i += 1;
        }
        let ghost flags = same@;
        let ghost olds = self.paths@;
        self.record_matching(path, &same);
        assert(forall|i: int| 0 <= i < flags.len() && path_views(olds)[i] == path@ ==> #[trigger] flags[i]);
        assert(forall|i: int|
            0 <= i < flags.len() && plain_absolute_path(path_views(olds)[i]) && plain_absolute_path(path@)
                && path_views(olds)[i] != path@ ==> !#[trigger] flags[i]);
    }
}

/// Recording `p` puts it first, keeps it once, keeps at most `MAX_RECENT_PROJECTS` entries,
/// and recording it again right after changes nothing.
pub proof fn lemma_recorded_shape(list: Seq<Seq<char>>, p: Seq<char>)
    ensures
        recorded(list, p).len() >= 1,
        recorded(list, p)[0] == p,
        recorded(list, p).len() <= MAX_RECENT_PROJECTS,
        forall|i: int| 1 <= i < recorded(list, p).len() ==> #[trigger] recorded(list, p)[i] != p,
        recorded(recorded(list, p), p) == recorded(list, p),
{
    lemma_without_excludes(list, p);
    let w = without(list, p);
    let r = recorded(list, p);
    assert forall|i: int| 1 <= i < r.len() implies #[trigger] r[i] != p by {
        assert(r[i] == w[i - 1]);
    }
    let t = r.drop_first();
    assert(r =~= seq![p] + t);
    assert forall|i: int| 0 <= i < t.len() implies #[trigger] t[i] != p by {
        assert(t[i] == r[i + 1]);
    }
    lemma_without_keeps(t, p);
    lemma_without_concat(seq![p], t, p);
    assert(without(seq![p], p) =~= seq![]) by {
        assert(seq![p].drop_last() =~= Seq::<Seq<char>>::empty());
        reveal_with_fuel(without, 2);
    }
    assert(without(r, p) =~= t);
    assert(seq![p] + t =~= r);
}

/// Recording `p` where `same` flags at least every entry equal to `p`: `p` comes first, no
/// later entry equals it, and at most `MAX_RECENT_PROJECTS` entries stay.
pub proof fn lemma_recorded_with_shape(list: Seq<Seq<char>>, p: Seq<char>, same: Seq<bool>)
    requires
        same.len() == list.len(),
        forall|i: int| 0 <= i < list.len() && list[i] == p ==> #[trigger] same[i],
    ensures
        recorded_with(list, p, same).len() >= 1,
        recorded_with(list, p, same)[0] == p,
        recorded_with(list, p, same).len() <= MAX_RECENT_PROJECTS,
        forall|i: int|
            1 <= i < recorded_with(list, p, same).len() ==> #[trigger] recorded_with(list, p, same)[i] != p,
{
    lemma_kept_excludes(list, p, same);
    let k = kept(list, same);
    let r = recorded_with(list, p, same);
    assert forall|i: int| 1 <= i < r.len() implies #[trigger] r[i] != p by {
        assert(r[i] == k[i - 1]);
    }
}

/// Where `same` flags exactly the entries equal to `p`, recording by the flags is `recorded`.
pub proof fn lemma_string_flags_record(list: Seq<Seq<char>>, p: Seq<char>, same: Seq<bool>)
    requires
        same.len() == list.len(),
        forall|i: int| 0 <= i < list.len() ==> #[trigger] same[i] == (list[i] == p),
    ensures
        recorded_with(list, p, same) == recorded(list, p),
{
    lemma_kept_is_without(list, p, same);
}

/// Recording keeps every entry not flagged as naming the same path, as long as the list had
/// room: with fewer than `MAX_RECENT_PROJECTS` entries before, an unflagged entry is still there
/// after `p` is recorded.
pub proof fn lemma_recorded_keeps_other_paths(list: Seq<Seq<char>>, p: Seq<char>, same: Seq<bool>, i: int)
    requires
        same.len() == list.len(),
        list.len() < MAX_RECENT_PROJECTS,
        0 <= i < list.len(),
        !same[i],
    ensures
        recorded_with(list, p, same).contains(list[i]),
{
    lemma_kept_has(list, same, i);
    lemma_kept_len(list, same);
    let k = kept(list, same);
    let j = choose|j: int| 0 <= j < k.len() && k[j] == list[i];
    assert((seq![p] + k)[j + 1] == list[i]);
}

proof fn lemma_kept_has(list: Seq<Seq<char>>, same: Seq<bool>, i: int)
    requires
        same.len() == list.len(),
        0 <= i < list.len(),
        !same[i],
    ensures
        kept(list, same).contains(list[i]),
    decreases list.len(),
{
    let l2 = list.drop_last();
    let s2 = same.take(list.len() - 1);
    let rest = kept(l2, s2);
    if i < list.len() - 1 {
        assert(l2[i] == list[i]);
        assert(s2[i] == same[i]);
        lemma_kept_has(l2, s2, i);
        let j = choose|j: int| 0 <= j < rest.len() && rest[j] == list[i];
        if !same[list.len() - 1] {
            assert(rest.push(list.last())[j] == list[i]);
        }
    } else {
        assert(rest.push(list.last())[rest.len() as int] == list[i]);
    }
}

proof fn lemma_kept_len(list: Seq<Seq<char>>, same: Seq<bool>)
    requires
        same.len() == list.len(),
    ensures
        kept(list, same).len() <= list.len(),
    decreases list.len(),
{
    if list.len() > 0 {
        lemma_kept_len(list.drop_last(), same.take(list.len() - 1));
    }
}

proof fn lemma_kept_excludes(list: Seq<Seq<char>>, p: Seq<char>, same: Seq<bool>)
    requires
        same.len() == list.len(),
        forall|i: int| 0 <= i < list.len() && list[i] == p ==> #[trigger] same[i],
    ensures
        forall|i: int| 0 <= i < kept(list, same).len() ==> #[trigger] kept(list, same)[i] != p,
    decreases list.len(),
{
    if list.len() > 0 {
        let l2 = list.drop_last();
        let s2 = same.take(list.len() - 1);
        assert forall|i: int| 0 <= i < l2.len() && l2[i] == p implies #[trigger] s2[i] by {
            assert(list[i] == l2[i]);
        }
        lemma_kept_excludes(l2, p, s2);
        let rest = kept(l2, s2);
        if !same[list.len() - 1] {
            assert forall|i: int| 0 <= i < kept(list, same).len() implies #[trigger] kept(list, same)[i] != p by {
                if i < rest.len() {
                    assert(kept(list, same)[i] == rest[i]);
                }
            }
        }
    }
}

proof fn lemma_kept_is_without(list: Seq<Seq<char>>, p: Seq<char>, same: Seq<bool>)
    requires
        same.len() == list.len(),
        forall|i: int| 0 <= i < list.len() ==> #[trigger] same[i] == (list[i] == p),
    ensures
        kept(list, same) == without(list, p),
    decreases list.len(),
{
    if list.len() > 0 {
        let l2 = list.drop_last();
        let s2 = same.take(list.len() - 1);
        assert forall|i: int| 0 <= i < l2.len() implies #[trigger] s2[i] == (l2[i] == p) by {
            assert(list[i] == l2[i]);
            assert(same[i] == s2[i]);
        }
        lemma_kept_is_without(l2, p, s2);
        assert(same[list.len() - 1] == (list[list.len() - 1] == p));
    }
}

proof fn lemma_without_excludes(list: Seq<Seq<char>>, p: Seq<char>)
    ensures
        forall|i: int| 0 <= i < without(list, p).len() ==> #[trigger] without(list, p)[i] != p,
    decreases list.len(),
{
    if list.len() > 0 {
        lemma_without_excludes(list.drop_last(), p);
        let rest = without(list.drop_last(), p);
        if list.last() != p {
            assert forall|i: int| 0 <= i < without(list, p).len() implies #[trigger] without(list, p)[i] != p by {
                if i < rest.len() {
                    assert(without(list, p)[i] == rest[i]);
                }
            }
        }
    }
}

proof fn lemma_without_keeps(list: Seq<Seq<char>>, p: Seq<char>)
    requires
        forall|i: int| 0 <= i < list.len() ==> #[trigger] list[i] != p,
    ensures
        without(list, p) == list,
    decreases list.len(),
{
    if list.len() > 0 {
        lemma_without_keeps(list.drop_last(), p);
        assert(list.drop_last().push(list.last()) =~= list);
    }
}

proof fn lemma_without_concat(a: Seq<Seq<char>>, b: Seq<Seq<char>>, p: Seq<char>)
    ensures
        without(a + b, p) == without(a, p) + without(b, p),
    decreases b.len(),
{
    if b.len() == 0 {
        assert(a + b =~= a);
        assert(without(a, p) + without(b, p) =~= without(a, p));
    } else {
        lemma_without_concat(a, b.drop_last(), p);
        assert((a + b).drop_last() =~= a + b.drop_last());
        assert((a + b).last() == b.last());
        if b.last() != p {
            assert(without(a, p) + without(b.drop_last(), p).push(b.last()) =~= (without(a, p) + without(
                b.drop_last(),
                p,
            )).push(b.last()));
        }
    }
}

} // verus!
