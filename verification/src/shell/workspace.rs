//! Virtual desktops ("workspaces"), layered on top of the tiling trees.
//!
//! Each output keeps its own set of workspaces, indexed from zero: tiled
//! windows live in the output's per-workspace tiling trees, and floating
//! windows are tracked here in a small per-workspace registry.

use vstd::prelude::*;
use crate::shell::tiling::{WindowId, Node, vec_contains, tree_in_range};
use crate::shell::{
    Action, OutputView, Shell, ShellView, WindowHome, tv_remove, tv_insert, tree_view, home_of, set_home, slots_push,
    lemma_with_tree_twice,
};

verus! {

/// How long the workspace-dot overlay stays on screen after a switch.
pub const OVERLAY_DURATION_MS: u64 = 1200;

/// Whether switching workspaces affects one output or all of them.
#[derive(Clone, Copy, Debug, PartialEq, Eq, Structural)]
pub enum WorkspaceMode {
    /// Switching only touches the output the switch was requested on.
    PerMonitor,
    /// Every output switches to the same index at once.
    Combined,
}

/// The `[workspaces]` settings.
#[derive(Clone, Copy, Debug, PartialEq, Eq, Structural)]
pub struct WorkspaceSettings {
    pub mode: WorkspaceMode,
    /// How many workspaces an output starts with (at least one is kept).
    pub count: usize,
    /// Grow past the last workspace on demand and prune trailing empty ones.
    pub dynamic: bool,
    /// Flash the workspace-dot overlay after a switch.
    pub overlay: bool,
}

/// The next workspace index `delta` steps from `cur`, or `None` if that step
/// is out of bounds (below zero, or past the last workspace in fixed mode).
pub open spec fn spec_target_index(cur: int, count: int, delta: int, dynamic: bool) -> Option<int> {
    let next = cur + delta;
    if next < 0 {
        None
    } else if !dynamic && next >= count {
        None
    } else {
        Some(next)
    }
}

pub fn target_index(cur: usize, count: usize, delta: i32, dynamic: bool) -> (r: Option<usize>)
    requires
        cur <= i32::MAX,
    ensures
        match r {
            None => spec_target_index(cur as int, count as int, delta as int, dynamic) is None,
            Some(n) => spec_target_index(cur as int, count as int, delta as int, dynamic) == Some(n as int),
        },
{
    let next: i64 = cur as i64 + delta as i64;
    if next < 0 {
        return None;
    }
    let next: usize = next as usize;
    if !dynamic && next >= count {
        return None;
    }
    Some(next)
}

/// Per-output workspace bookkeeping: which workspace is active, how many
/// exist, and the floating windows homed to each one.
pub struct WorkspaceState {
    active: usize,
    count: usize,
    floating: Vec<Vec<WindowId>>,
}

impl WorkspaceState {
    pub closed spec fn spec_active(self) -> nat {
        self.active as nat
    }

    pub closed spec fn spec_count(self) -> nat {
        self.count as nat
    }

    /// The floating windows homed to each workspace slot touched so far.
    pub closed spec fn spec_floating(self) -> Seq<Seq<WindowId>> {
        self.floating@.map_values(|v: Vec<WindowId>| v@)
    }

    /// At least one workspace exists, and the active one is among them.
    pub open spec fn wf(self) -> bool {
        1 <= self.spec_count() && self.spec_active() < self.spec_count() && self.spec_count() <= i32::MAX + 1
    }

    /// A fresh output's state: workspace 0 of one, nothing floating.
    pub fn new() -> (s: WorkspaceState)
        ensures
            s.spec_active() == 0,
            s.spec_count() == 1,
            s.spec_floating() == Seq::<Seq<WindowId>>::empty(),
            s.wf(),
    {
        let s = WorkspaceState { active: 0, count: 1, floating: Vec::new() };
        assert(s.spec_floating() =~= Seq::<Seq<WindowId>>::empty());
        s
    }

    /// A state with the given active index and workspace count.
    pub fn with_position(active: usize, count: usize) -> (s: WorkspaceState)
        requires
            1 <= count <= i32::MAX + 1,
            active < count,
        ensures
            s.spec_active() == active,
            s.spec_count() == count,
            s.spec_floating() == Seq::<Seq<WindowId>>::empty(),
            s.wf(),
    {
        let s = WorkspaceState { active, count, floating: Vec::new() };
        assert(s.spec_floating() =~= Seq::<Seq<WindowId>>::empty());
        s
    }

    pub fn active(&self) -> (r: usize)
        ensures
            r == self.spec_active(),
    {
        self.active
    }

    pub fn count(&self) -> (r: usize)
        ensures
            r == self.spec_count(),
    {
        self.count
    }

    /// The floating windows homed to workspace `idx` (none if that slot was
    /// never touched).
    pub fn floating_at(&self, idx: usize) -> (r: Vec<WindowId>)
        ensures
            r@ == floating_slot(self.spec_floating(), idx as int),
    {
        if idx < self.floating.len() {
            self.floating[idx].clone()
        } else {
            Vec::new()
        }
    }
}

/// Slot `idx` of a floating registry, empty if it was never touched.
pub open spec fn floating_slot(f: Seq<Seq<WindowId>>, idx: int) -> Seq<WindowId> {
    if 0 <= idx < f.len() {
        f[idx]
    } else {
        Seq::empty()
    }
}


/// `f` grown with empty slots so that slot `i` exists.
pub open spec fn grow_slots(f: Seq<Seq<WindowId>>, i: int) -> Seq<Seq<WindowId>> {
    if i < f.len() {
        f
    } else {
        f + Seq::new((i + 1 - f.len()) as nat, |k: int| Seq::<WindowId>::empty())
    }
}

/// `s` without any entry for `w`.
pub open spec fn without(s: Seq<WindowId>, w: WindowId) -> Seq<WindowId> {
    s.filter(other_than(w))
}

pub open spec fn other_than(w: WindowId) -> spec_fn(WindowId) -> bool {
    |x: WindowId| x != w
}

pub open spec fn alive_filter(alive: Seq<WindowId>) -> spec_fn(Seq<WindowId>) -> Seq<WindowId> {
    |s: Seq<WindowId>| only_alive(s, alive)
}

/// The entries of `s` that are in `alive`, in order.
pub open spec fn only_alive(s: Seq<WindowId>, alive: Seq<WindowId>) -> Seq<WindowId> {
    s.filter(|x: WindowId| alive.contains(x))
}

pub proof fn lemma_filter_step(s: Seq<WindowId>, f: spec_fn(WindowId) -> bool, i: int)
    requires
        0 <= i < s.len(),
    ensures
        s.take(i + 1).filter(f) == if f(s[i]) {
            s.take(i).filter(f).push(s[i])
        } else {
            s.take(i).filter(f)
        },
{
    reveal(Seq::filter);
    assert(s.take(i + 1).drop_last() == s.take(i));
}

fn remove_id(v: &Vec<WindowId>, w: WindowId) -> (r: Vec<WindowId>)
    ensures
        r@ == without(v@, w),
{
    let mut r: Vec<WindowId> = Vec::new();
    for i in 0..v.len()
        invariant
            r@ == v@.take(i as int).filter(other_than(w)),
    {
        proof {
            lemma_filter_step(v@, other_than(w), i as int);
        }
        if v[i] != w {
            r.push(v[i]);
        }
    }
    assert(v@.take(v.len() as int) == v@);
    r
}

fn retain_ids(v: &Vec<WindowId>, alive: &Vec<WindowId>) -> (r: Vec<WindowId>)
    ensures
        r@ == only_alive(v@, alive@),
{
    let mut r: Vec<WindowId> = Vec::new();
    for i in 0..v.len()
        invariant
            r@ == v@.take(i as int).filter(|x: WindowId| alive@.contains(x)),
    {
        proof {
            lemma_filter_step(v@, |x: WindowId| alive@.contains(x), i as int);
        }
        if vec_contains(alive, v[i]) {
            r.push(v[i]);
        }
    }
    assert(v@.take(v.len() as int) == v@);
    r
}

impl WorkspaceState {
    /// Makes workspace `active` of `count` the current one.
    pub fn set_position(&mut self, active: usize, count: usize)
        requires
            1 <= count <= i32::MAX + 1,
            active < count,
        ensures
            final(self).spec_active() == active,
            final(self).spec_count() == count,
            final(self).spec_floating() == old(self).spec_floating(),
            final(self).wf(),
    {
        self.active = active;
        self.count = count;
    }

    fn grow(&mut self, idx: usize)
        requires
            idx < usize::MAX,
        ensures
            final(self).active == old(self).active,
            final(self).count == old(self).count,
            idx < final(self).floating@.len(),
            final(self).spec_floating() == grow_slots(old(self).spec_floating(), idx as int),
    {
        let ghost old_f = self.spec_floating();
        let ghost old_len = self.floating@.len();
        assert(forall|j: int| 0 <= j < old_len ==> (#[trigger] self.floating@[j])@ == old_f[j]);
        while self.floating.len() <= idx
            invariant
                idx < usize::MAX,
                self.active == old(self).active,
                self.count == old(self).count,
                old_len <= self.floating@.len(),
                self.floating@.len() <= (if idx < old_len { old_len as int } else { idx + 1 }),
                forall|j: int| 0 <= j < old_len ==> (#[trigger] self.floating@[j])@ == old_f[j],
                forall|j: int| old_len <= j < self.floating@.len() ==> (#[trigger] self.floating@[j])@ == Seq::<WindowId>::empty(),
                old_f.len() == old_len,
            decreases idx + 1 - self.floating@.len(),
        {
            self.floating.push(Vec::new());
        }
        assert(self.spec_floating() =~= grow_slots(old_f, idx as int));
    }

    /// Records `w` as floating on workspace `idx`; with `unique`, only if it
    /// is not already recorded there.
    pub fn slot_push(&mut self, idx: usize, w: WindowId, unique: bool)
        requires
            idx < usize::MAX,
        ensures
            final(self).spec_active() == old(self).spec_active(),
            final(self).spec_count() == old(self).spec_count(),
            final(self).spec_floating() == ({
                let g = grow_slots(old(self).spec_floating(), idx as int);
                if unique && g[idx as int].contains(w) {
                    g
                } else {
                    g.update(idx as int, g[idx as int].push(w))
                }
            }),
    {
        self.grow(idx);
        let ghost g = self.spec_floating();
        if unique && vec_contains(&self.floating[idx], w) {
            return;
        }
        self.floating[idx].push(w);
        assert(self.spec_floating() =~= g.update(idx as int, g[idx as int].push(w)));
    }

    /// Drops every record of `w`, on every workspace.
    pub fn forget(&mut self, w: WindowId)
        ensures
            final(self).spec_active() == old(self).spec_active(),
            final(self).spec_count() == old(self).spec_count(),
            final(self).spec_floating() == old(self).spec_floating().map_values(|s: Seq<WindowId>| without(s, w)),
    {
        let ghost g = self.spec_floating();
        let n = self.floating.len();
        for i in 0..n
            invariant
                self.floating@.len() == n,
                g.len() == n,
                self.active == old(self).active,
                self.count == old(self).count,
                g == old(self).spec_floating(),
                forall|j: int| 0 <= j < i ==> (#[trigger] self.floating@[j])@ == without(g[j], w),
                forall|j: int| i <= j < n ==> (#[trigger] self.floating@[j])@ == g[j],
        {
            let kept = remove_id(&self.floating[i], w);
            self.floating.set(i, kept);
        }
        assert(self.spec_floating() =~= g.map_values(|s: Seq<WindowId>| without(s, w)));
    }

    /// Drops every record of `w` on workspace `idx`.
    pub fn slot_remove(&mut self, idx: usize, w: WindowId)
        requires
            idx < usize::MAX,
        ensures
            final(self).spec_active() == old(self).spec_active(),
            final(self).spec_count() == old(self).spec_count(),
            final(self).spec_floating() == ({
                let g = grow_slots(old(self).spec_floating(), idx as int);
                g.update(idx as int, without(g[idx as int], w))
            }),
    {
        self.grow(idx);
        let ghost g = self.spec_floating();
        let kept = remove_id(&self.floating[idx], w);
        self.floating.set(idx, kept);
        assert(self.spec_floating() =~= g.update(idx as int, without(g[idx as int], w)));
    }

    /// Drops dead windows from workspace `idx`'s registry, if that slot
    /// exists.
    pub fn slot_retain_alive(&mut self, idx: usize, alive: &Vec<WindowId>)
        ensures
            final(self).spec_active() == old(self).spec_active(),
            final(self).spec_count() == old(self).spec_count(),
            final(self).spec_floating() == if idx < old(self).spec_floating().len() {
                old(self).spec_floating().update(idx as int, only_alive(old(self).spec_floating()[idx as int], alive@))
            } else {
                old(self).spec_floating()
            },
    {
        if idx < self.floating.len() {
            let ghost g = self.spec_floating();
            let kept = retain_ids(&self.floating[idx], alive);
            self.floating.set(idx, kept);
            assert(self.spec_floating() =~= g.update(idx as int, only_alive(g[idx as int], alive@)));
        }
    }

    /// Drops dead windows from every workspace's registry. Returns whether
    /// any was dropped.
    pub fn retain_alive(&mut self, alive: &Vec<WindowId>) -> (changed: bool)
        ensures
            final(self).spec_active() == old(self).spec_active(),
            final(self).spec_count() == old(self).spec_count(),
            final(self).spec_floating() == old(self).spec_floating().map_values(alive_filter(alive@)),
            changed == exists|i: int, j: int|
                0 <= i < old(self).spec_floating().len() && 0 <= j < old(self).spec_floating()[i].len()
                    && !alive@.contains(#[trigger] old(self).spec_floating()[i][j]),
    {
        let ghost g = self.spec_floating();
        assert(forall|k: int| 0 <= k < g.len() ==> (#[trigger] self.floating@[k])@ == g[k]);
        let mut changed = false;
        let mut i: usize = 0;
        while i < self.floating.len()
            invariant
                i <= self.floating@.len(),
                g.len() == self.floating@.len(),
                self.active == old(self).active,
                self.count == old(self).count,
                g == old(self).spec_floating(),
                forall|k: int| 0 <= k < i ==> (#[trigger] self.floating@[k])@ == only_alive(g[k], alive@),
                forall|k: int| i <= k < g.len() ==> (#[trigger] self.floating@[k])@ == g[k],
                changed == exists|a: int, b: int| 0 <= a < i && 0 <= b < g[a].len() && !alive@.contains(#[trigger] g[a][b]),
            decreases self.floating@.len() - i,
        {
            let kept = retain_ids(&self.floating[i], alive);
            let mut j: usize = 0;
            let ghost before = changed;
            while j < self.floating[i].len()
                invariant
                    j <= self.floating@[i as int]@.len(),
                    i < self.floating@.len(),
                    g.len() == self.floating@.len(),
                    self.floating@[i as int]@ == g[i as int],
                    changed == (before || exists|b: int| 0 <= b < j && !alive@.contains(#[trigger] g[i as int][b])),
                decreases self.floating@[i as int]@.len() - j,
            {
                if !vec_contains(alive, self.floating[i][j]) {
                    changed = true;
                }
                j = j + 1;
            }
            self.floating.set(i, kept);
            proof {
                if changed && !before {
                    let b = choose|b: int| 0 <= b < j && !alive@.contains(#[trigger] g[i as int][b]);
                    assert(0 <= i < g.len() && !alive@.contains(g[i as int][b]));
                }
                if before {
                    let (a, b) = choose|a: int, b: int| 0 <= a < i && 0 <= b < g[a].len() && !alive@.contains(#[trigger] g[a][b]);
                    assert(0 <= a < i + 1 && 0 <= b < g[a].len() && !alive@.contains(g[a][b]));
                }
                if exists|a: int, b: int| 0 <= a < i + 1 && 0 <= b < g[a].len() && !alive@.contains(#[trigger] g[a][b]) {
                    let (a, b) = choose|a: int, b: int| 0 <= a < i + 1 && 0 <= b < g[a].len() && !alive@.contains(#[trigger] g[a][b]);
                    if a < i {
                        assert(before);
                    } else {
                        assert(0 <= b < j);
                    }
                }
            }
            i = i + 1;
        }
        assert(self.spec_floating() =~= g.map_values(alive_filter(alive@)));
        changed
    }
}

/// The state after registering a newly mapped window as belonging to output
/// `o`'s active workspace (floating windows also join its registry).
pub open spec fn spec_assign_new_window(v: ShellView, w: WindowId, o: int, floating: bool) -> ShellView {
    let idx = v.outputs[o].active;
    let v1 = v.with_home(w, WindowHome { output: v.outputs[o].id, index: idx as usize });
    if floating {
        v1.with_slot_push(o, idx as int, w, true)
    } else {
        v1
    }
}

/// The state after recording that `w` became floating, pulled out of output
/// `o`'s workspace `idx`.
pub open spec fn spec_mark_floating(v: ShellView, w: WindowId, o: int, idx: int) -> ShellView {
    v.with_home(w, WindowHome { output: v.outputs[o].id, index: idx as usize }).with_slot_push(o, idx, w, true)
}

/// Registers a newly mapped window (tiled or floating) as belonging to
/// output `o`'s currently active workspace.
pub fn assign_new_window(shell: &mut Shell, w: WindowId, o: usize, floating: bool)
    requires
        old(shell).wf(),
        o < old(shell)@.outputs.len(),
    ensures
        final(shell).wf(),
        final(shell).outputs@.len() == old(shell).outputs@.len(),
        final(shell)@ == spec_assign_new_window(old(shell)@, w, o as int, floating),
{
    let idx = shell.outputs[o].workspaces.active();
    let id = shell.outputs[o].id;
    shell.set_home(w, WindowHome { output: id, index: idx });
    assert(shell.outputs@[o as int].wf());
    if floating {
        shell.slot_push(o, idx, w, true);
    }
}

/// Records that `w` just became floating, having been pulled out of output
/// `o`'s workspace `idx` tiling tree. The returned action has the compositor
/// remember its current on-screen position for when that workspace is next
/// shown.
pub fn mark_floating(shell: &mut Shell, w: WindowId, o: usize, idx: usize) -> (acts: Vec<Action>)
    requires
        old(shell).wf(),
        o < old(shell)@.outputs.len(),
        idx < usize::MAX,
    ensures
        final(shell).wf(),
        final(shell).outputs@.len() == old(shell).outputs@.len(),
        final(shell)@ == spec_mark_floating(old(shell)@, w, o as int, idx as int),
        acts@ == seq![Action::RememberPosition(w)],
{
    let id = shell.outputs[o].id;
    shell.set_home(w, WindowHome { output: id, index: idx });
    shell.slot_push(o, idx, w, true);
    let mut acts: Vec<Action> = Vec::new();
    acts.push(Action::RememberPosition(w));
    assert(acts@ =~= seq![Action::RememberPosition(w)]);
    acts
}

/// The workspace count after dropping trailing empty workspaces (no tiled
/// and no floating windows), down to one and never below the active one.
pub open spec fn pruned_count(out: OutputView, count: nat) -> nat
    decreases count,
{
    if count > 1 && count - 1 != out.active && out.windows_at(count - 1).len() == 0
        && out.floating_at(count - 1).len() == 0 {
        pruned_count(out, (count - 1) as nat)
    } else {
        count
    }
}

pub open spec fn spec_prune_trailing_empty(v: ShellView, o: int) -> ShellView {
    v.with_position(o, v.outputs[o].active, pruned_count(v.outputs[o], v.outputs[o].count))
}

proof fn lemma_pruned_count_bounds(out: OutputView, count: nat)
    requires
        out.active < count,
    ensures
        out.active < pruned_count(out, count) <= count,
    decreases count,
{
    if count > 1 && count - 1 != out.active && out.windows_at(count - 1).len() == 0
        && out.floating_at(count - 1).len() == 0 {
        lemma_pruned_count_bounds(out, (count - 1) as nat);
    }
}

/// Pruning drops only empty trailing workspaces, never the active one or
/// the last remaining one, and drops all of them: afterwards the last
/// workspace is the only one, the active one, or holds a tiled or a
/// floating window.
pub proof fn law_pruning_drops_every_trailing_empty_workspace(v: ShellView, o: int)
    requires
        0 <= o < v.outputs.len(),
        v.outputs[o].active < v.outputs[o].count,
    ensures
        ({
            let out = v.outputs[o];
            let c = spec_prune_trailing_empty(v, o).outputs[o].count;
            &&& out.active < c <= out.count
            &&& forall|k: int| c <= k < out.count ==> #[trigger] out.windows_at(k).len() == 0 && out.floating_at(k).len() == 0
            &&& (c == 1 || c - 1 == out.active || out.windows_at(c - 1).len() > 0 || out.floating_at(c - 1).len() > 0)
        }),
{
    lemma_pruning_stops_at_kept(v.outputs[o], v.outputs[o].count);
}

proof fn lemma_pruning_stops_at_kept(out: OutputView, count: nat)
    requires
        out.active < count,
    ensures
        ({
            let c = pruned_count(out, count);
            &&& out.active < c <= count
            &&& forall|k: int| c <= k < count ==> #[trigger] out.windows_at(k).len() == 0 && out.floating_at(k).len() == 0
            &&& (c == 1 || c - 1 == out.active || out.windows_at(c - 1).len() > 0 || out.floating_at(c - 1).len() > 0)
        }),
    decreases count,
{
    if count > 1 && count - 1 != out.active && out.windows_at(count - 1).len() == 0
        && out.floating_at(count - 1).len() == 0 {
        lemma_pruning_stops_at_kept(out, (count - 1) as nat);
    }
}

/// Drops trailing empty workspaces of output `o`, down to a minimum of one
/// and never below the active one.
pub fn prune_trailing_empty(shell: &mut Shell, o: usize)
    requires
        old(shell).wf(),
        o < old(shell)@.outputs.len(),
    ensures
        final(shell).wf(),
        final(shell).outputs@.len() == old(shell).outputs@.len(),
        final(shell)@ == spec_prune_trailing_empty(old(shell)@, o as int),
{
    let ghost out = shell@.outputs[o as int];
    assert(shell.outputs@[o as int].wf());
    let active = shell.outputs[o].workspaces.active();
    let mut count = shell.outputs[o].workspaces.count();
    while count > 1 && count - 1 != active && shell.slot_empty(o, count - 1)
        invariant
            shell.wf(),
            o < shell@.outputs.len(),
            out == shell@.outputs[o as int],
            active == out.active,
            active < count <= out.count,
            out.count <= i32::MAX + 1,
            pruned_count(out, out.count) == pruned_count(out, count as nat),
        decreases count,
    {
        count = count - 1;
    }
    proof {
        lemma_pruned_count_bounds(out, count as nat);
    }
    shell.set_position(o, active, count);
}

/// The actions hiding a workspace: unmap its live tiled windows, then for
/// each live floating window remember its position and unmap it.
pub open spec fn hide_actions(tiled: Seq<WindowId>, floating: Seq<WindowId>, alive: Seq<WindowId>) -> Seq<Action> {
    unmap_all(only_alive(tiled, alive)) + remember_and_unmap(only_alive(floating, alive))
}

pub open spec fn unmap_all(s: Seq<WindowId>) -> Seq<Action> {
    s.map_values(|w: WindowId| Action::Unmap(w))
}

pub open spec fn remember_and_unmap(s: Seq<WindowId>) -> Seq<Action>
    decreases s.len(),
{
    if s.len() == 0 {
        seq![]
    } else {
        seq![Action::RememberPosition(s[0]), Action::Unmap(s[0])] + remember_and_unmap(s.drop_first())
    }
}

pub open spec fn map_floating_all(s: Seq<WindowId>) -> Seq<Action> {
    s.map_values(|w: WindowId| Action::MapFloating(w))
}

/// Switching output `o` to workspace `new`: hide the current workspace,
/// make `new` active (growing the count to include it), drop dead windows
/// from its floating registry, re-flow its tiled windows and map its
/// floating ones, focus its first live window, and in dynamic mode prune
/// trailing empty workspaces. Nothing if `new` is already active.
pub open spec fn spec_set_active(v: ShellView, o: int, new: nat, alive: Seq<WindowId>) -> (ShellView, Seq<Action>) {
    let out = v.outputs[o];
    let old_idx = out.active;
    if old_idx == new {
        (v, seq![])
    } else {
        let hide = hide_actions(out.windows_at(old_idx as int), out.floating_at(old_idx as int), alive);
        let count = if new + 1 > out.count {
            new + 1
        } else {
            out.count
        };
        let v1 = v.with_position(o, new, count as nat).with_slot_retain(o, new as int, alive);
        let show = seq![Action::ApplyLayout(o as usize)] + map_floating_all(v1.outputs[o].floating_at(new as int));
        let focus = v1.focus_first_actions(o, new as int, alive);
        let v2 = if v.settings.dynamic {
            spec_prune_trailing_empty(v1, o)
        } else {
            v1
        };
        (v2, hide + show + focus)
    }
}

fn push_unmaps(acts: &mut Vec<Action>, s: &Vec<WindowId>)
    ensures
        final(acts)@ == old(acts)@ + unmap_all(s@),
{
    let ghost start = acts@;
    for i in 0..s.len()
        invariant
            acts@ == start + unmap_all(s@.take(i as int)),
    {
        acts.push(Action::Unmap(s[i]));
        assert(unmap_all(s@.take(i + 1)) =~= unmap_all(s@.take(i as int)).push(Action::Unmap(s@[i as int])));
    }
    assert(s@.take(s.len() as int) == s@);
}

fn push_map_floating(acts: &mut Vec<Action>, s: &Vec<WindowId>)
    ensures
        final(acts)@ == old(acts)@ + map_floating_all(s@),
{
    let ghost start = acts@;
    for i in 0..s.len()
        invariant
            acts@ == start + map_floating_all(s@.take(i as int)),
    {
        acts.push(Action::MapFloating(s[i]));
        assert(map_floating_all(s@.take(i + 1)) =~= map_floating_all(s@.take(i as int)).push(Action::MapFloating(s@[i as int])));
    }
    assert(s@.take(s.len() as int) == s@);
}

proof fn lemma_remember_and_unmap_push(s: Seq<WindowId>, w: WindowId)
    ensures
        remember_and_unmap(s.push(w)) == remember_and_unmap(s) + seq![Action::RememberPosition(w), Action::Unmap(w)],
    decreases s.len(),
{
    if s.len() == 0 {
        assert(s.push(w).drop_first() == Seq::<WindowId>::empty());
        assert(remember_and_unmap(Seq::<WindowId>::empty()) == Seq::<Action>::empty());
        assert(s.push(w)[0] == w);
        assert(remember_and_unmap(s.push(w)) =~= seq![Action::RememberPosition(w), Action::Unmap(w)]);
    } else {
        assert(s.push(w).drop_first() == s.drop_first().push(w));
        lemma_remember_and_unmap_push(s.drop_first(), w);
        assert(remember_and_unmap(s.push(w)) =~= remember_and_unmap(s) + seq![Action::RememberPosition(w), Action::Unmap(w)]);
    }
}

fn push_remember_and_unmap(acts: &mut Vec<Action>, s: &Vec<WindowId>)
    ensures
        final(acts)@ == old(acts)@ + remember_and_unmap(s@),
{
    let ghost start = acts@;
    for i in 0..s.len()
        invariant
            acts@ == start + remember_and_unmap(s@.take(i as int)),
    {
        acts.push(Action::RememberPosition(s[i]));
        acts.push(Action::Unmap(s[i]));
        proof {
            assert(s@.take(i + 1) == s@.take(i as int).push(s@[i as int]));
            lemma_remember_and_unmap_push(s@.take(i as int), s@[i as int]);
            assert(acts@ =~= start + remember_and_unmap(s@.take(i + 1)));
        }
    }
    assert(s@.take(s.len() as int) == s@);
}

fn only_alive_vec(s: &Vec<WindowId>, alive: &Vec<WindowId>) -> (r: Vec<WindowId>)
    ensures
        r@ == only_alive(s@, alive@),
{
    retain_ids(s, alive)
}

/// Makes `new` the active workspace of output `o`, per `spec_set_active`.
pub fn set_active(shell: &mut Shell, o: usize, new: usize, alive: &Vec<WindowId>) -> (acts: Vec<Action>)
    requires
        old(shell).wf(),
        o < old(shell)@.outputs.len(),
        new <= i32::MAX,
    ensures
        final(shell).wf(),
        final(shell).outputs@.len() == old(shell).outputs@.len(),
        (final(shell)@, acts@) == spec_set_active(old(shell)@, o as int, new as nat, alive@),
{
    let ghost v = shell@;
    assert(shell.outputs@[o as int].wf());
    let old_idx = shell.outputs[o].workspaces.active();
    if old_idx == new {
        return Vec::new();
    }
    let mut acts: Vec<Action> = Vec::new();
    let tiled = if old_idx < shell.outputs[o].tiling.len() {
        shell.outputs[o].tiling[old_idx].windows()
    } else {
        Vec::new()
    };
    assert(tiled@ == v.outputs[o as int].windows_at(old_idx as int));
    let live_tiled = only_alive_vec(&tiled, alive);
    push_unmaps(&mut acts, &live_tiled);
    let floating = shell.outputs[o].workspaces.floating_at(old_idx);
    let live_floating = only_alive_vec(&floating, alive);
    push_remember_and_unmap(&mut acts, &live_floating);
    let count = shell.outputs[o].workspaces.count();
    let new_count = if new + 1 > count { new + 1 } else { count };
    shell.set_position(o, new, new_count);
    shell.slot_retain_alive(o, new, alive);
    acts.push(Action::ApplyLayout(o));
    let shown = shell.outputs[o].workspaces.floating_at(new);
    push_map_floating(&mut acts, &shown);
    let focus = shell.focus_first_in_workspace(o, new, alive);
    let ghost before_focus = acts@;
    let mut k: usize = 0;
    while k < focus.len()
        invariant
            k <= focus@.len(),
            acts@ == before_focus + focus@.take(k as int),
        decreases focus@.len() - k,
    {
        acts.push(focus[k]);
        assert(focus@.take(k + 1) == focus@.take(k as int).push(focus@[k as int]));
        k = k + 1;
    }
    assert(focus@.take(focus@.len() as int) == focus@);
    if shell.settings.dynamic {
        prune_trailing_empty(shell, o);
    }
    proof {
        let sa = spec_set_active(v, o as int, new as nat, alive@);
        assert(acts@ =~= sa.1);
    }
    acts
}

/// Applies `spec_set_active` to each listed output in turn.
pub open spec fn set_active_each(v: ShellView, outs: Seq<int>, new: nat, alive: Seq<WindowId>) -> (ShellView, Seq<Action>)
    decreases outs.len(),
{
    if outs.len() == 0 {
        (v, seq![])
    } else {
        let (v1, a1) = spec_set_active(v, outs[0], new, alive);
        let (v2, a2) = set_active_each(v1, outs.drop_first(), new, alive);
        (v2, a1 + a2)
    }
}

/// The outputs a workspace switch requested on output `o` applies to: all
/// of them in combined mode, else just `o`.
pub open spec fn switch_targets(v: ShellView, o: int) -> Seq<int> {
    if v.settings.mode == WorkspaceMode::Combined {
        Seq::new(v.outputs.len(), |k: int| k)
    } else {
        seq![o]
    }
}

pub open spec fn overlay_actions(v: ShellView) -> Seq<Action> {
    if v.settings.overlay {
        seq![Action::ShowOverlay]
    } else {
        seq![]
    }
}

/// Activating workspace `idx` on the targets of a switch requested on
/// output `o`, then flashing the overlay.
pub open spec fn spec_activate_workspace(v: ShellView, o: int, idx: nat, alive: Seq<WindowId>) -> (ShellView, Seq<Action>) {
    let (v1, acts) = set_active_each(v, switch_targets(v, o), idx, alive);
    (v1, acts + overlay_actions(v))
}

/// Switching `delta` workspaces over from output `o`'s active one: nothing
/// if that step is out of bounds, else activating the target index as
/// `spec_activate_workspace` does.
pub open spec fn spec_switch_workspace(v: ShellView, o: int, delta: int, alive: Seq<WindowId>) -> (ShellView, Seq<Action>) {
    match spec_target_index(v.outputs[o].active as int, v.outputs[o].count as int, delta, v.settings.dynamic) {
        None => (v, seq![]),
        Some(new) => spec_activate_workspace(v, o, new as nat, alive),
    }
}

/// `w` has the same outputs as `v`, each with the same tiling trees (and
/// identity, geometry and tiling area), and the same homes and settings.
pub open spec fn same_tiling(v: ShellView, w: ShellView) -> bool {
    &&& w.outputs.len() == v.outputs.len()
    &&& forall|k: int| 0 <= k < v.outputs.len() ==> {
        &&& (#[trigger] w.outputs[k]).trees == v.outputs[k].trees
        &&& w.outputs[k].id == v.outputs[k].id
        &&& w.outputs[k].geometry == v.outputs[k].geometry
        &&& w.outputs[k].area == v.outputs[k].area
    }
    &&& w.homes == v.homes
    &&& w.settings == v.settings
}

proof fn lemma_set_active_keeps_tiling(v: ShellView, o: int, new: nat, alive: Seq<WindowId>)
    requires
        0 <= o < v.outputs.len(),
    ensures
        same_tiling(v, spec_set_active(v, o, new, alive).0),
{
    let out = v.outputs[o];
    if out.active != new {
        let count = if new + 1 > out.count { new + 1 } else { out.count };
        let v1 = v.with_position(o, new, count as nat).with_slot_retain(o, new as int, alive);
        assert(same_tiling(v, v1));
        if v.settings.dynamic {
            assert(same_tiling(v, spec_prune_trailing_empty(v1, o)));
        }
    }
}

proof fn lemma_set_active_each_keeps_tiling(v: ShellView, outs: Seq<int>, new: nat, alive: Seq<WindowId>)
    requires
        forall|k: int| 0 <= k < outs.len() ==> 0 <= #[trigger] outs[k] < v.outputs.len(),
    ensures
        same_tiling(v, set_active_each(v, outs, new, alive).0),
    decreases outs.len(),
{
    if outs.len() > 0 {
        lemma_set_active_keeps_tiling(v, outs[0], new, alive);
        let v1 = spec_set_active(v, outs[0], new, alive).0;
        assert forall|k: int| 0 <= k < outs.drop_first().len() implies 0 <= #[trigger] outs.drop_first()[k] < v1.outputs.len() by {
            assert(outs.drop_first()[k] == outs[k + 1]);
        }
        lemma_set_active_each_keeps_tiling(v1, outs.drop_first(), new, alive);
    }
}

/// Switching or activating workspaces only changes which workspace each
/// output shows (and drops dead floating windows from the one shown):
/// every tiling tree, every window's home, and every output's identity and
/// geometry stay as they were, hidden workspaces included.
pub proof fn law_switching_keeps_tiling(v: ShellView, o: int, delta: int, idx: nat, alive: Seq<WindowId>)
    requires
        0 <= o < v.outputs.len(),
    ensures
        same_tiling(v, spec_activate_workspace(v, o, idx, alive).0),
        same_tiling(v, spec_switch_workspace(v, o, delta, alive).0),
{
    assert forall|k: int| 0 <= k < switch_targets(v, o).len() implies 0 <= #[trigger] switch_targets(v, o)[k] < v.outputs.len() by {}
    lemma_set_active_each_keeps_tiling(v, switch_targets(v, o), idx, alive);
    match spec_target_index(v.outputs[o].active as int, v.outputs[o].count as int, delta, v.settings.dynamic) {
        None => {},
        Some(new) => {
            lemma_set_active_each_keeps_tiling(v, switch_targets(v, o), new as nat, alive);
        },
    }
}

fn activate_each(shell: &mut Shell, o: usize, idx: usize, alive: &Vec<WindowId>) -> (acts: Vec<Action>)
    requires
        old(shell).wf(),
        o < old(shell)@.outputs.len(),
        idx <= i32::MAX,
    ensures
        final(shell).wf(),
        final(shell).outputs@.len() == old(shell).outputs@.len(),
        final(shell).settings == old(shell).settings,
        (final(shell)@, acts@) == set_active_each(old(shell)@, switch_targets(old(shell)@, o as int), idx as nat, alive@),
{
    let ghost v = shell@;
    let mut acts: Vec<Action> = Vec::new();
    if shell.settings.mode == WorkspaceMode::Combined {
        let n = shell.outputs.len();
        let ghost targets = switch_targets(v, o as int);
        let mut k: usize = 0;
        proof {
            assert(targets.skip(0) == targets);
            let (vr, ar) = set_active_each(shell@, targets, idx as nat, alive@);
            assert(acts@ + ar =~= ar);
        }
        while k < n
            invariant
                shell.wf(),
                n == shell.outputs@.len(),
                n == v.outputs.len(),
                k <= n,
                shell.settings == v.settings,
                idx <= i32::MAX,
                targets == Seq::new(n as nat, |j: int| j),
                set_active_each(v, targets, idx as nat, alive@) == ({
                    let (vr, ar) = set_active_each(shell@, targets.skip(k as int), idx as nat, alive@);
                    (vr, acts@ + ar)
                }),
            decreases n - k,
        {
            let ghost before = shell@;
            let ghost before_acts = acts@;
            let a = set_active(shell, k, idx, alive);
            proof {
                let rest = targets.skip(k as int);
                assert(rest[0] == k as int);
                assert(rest.drop_first() == targets.skip(k + 1));
            }
            let mut j: usize = 0;
            while j < a.len()
                invariant
                    j <= a@.len(),
                    acts@ == before_acts + a@.take(j as int),
                decreases a@.len() - j,
            {
                acts.push(a[j]);
                assert(a@.take(j + 1) == a@.take(j as int).push(a@[j as int]));
                j = j + 1;
            }
            assert(a@.take(a@.len() as int) == a@);
            proof {
                let (vr, ar) = set_active_each(shell@, targets.skip(k + 1), idx as nat, alive@);
                assert(before_acts + (a@ + ar) == (before_acts + a@) + ar);
            }
            k = k + 1;
        }
        proof {
            assert(targets.skip(n as int) == Seq::<int>::empty());
            assert(set_active_each(shell@, Seq::<int>::empty(), idx as nat, alive@) == (shell@, Seq::<Action>::empty()));
        }
        assert(acts@ + Seq::<Action>::empty() == acts@);
        acts
    } else {
        let a = set_active(shell, o, idx, alive);
        proof {
            let t = switch_targets(v, o as int);
            assert(t == seq![o as int]);
            assert(t.drop_first() == Seq::<int>::empty());
            assert(set_active_each(shell@, Seq::<int>::empty(), idx as nat, alive@) == (shell@, Seq::<Action>::empty()));
            assert(a@ + Seq::<Action>::empty() == a@);
        }
        a
    }
}

/// Activates workspace `idx` on output `o` (and, in combined mode, on every
/// output), e.g. on a protocol client's request. `idx` is not checked
/// against the workspace count.
pub fn activate_workspace(shell: &mut Shell, o: usize, idx: usize, alive: &Vec<WindowId>) -> (acts: Vec<Action>)
    requires
        old(shell).wf(),
        o < old(shell)@.outputs.len(),
        idx <= i32::MAX,
    ensures
        final(shell).wf(),
        (final(shell)@, acts@) == spec_activate_workspace(old(shell)@, o as int, idx as nat, alive@),
{
    let ghost v = shell@;
    let mut acts = activate_each(shell, o, idx, alive);
    if shell.settings.overlay {
        acts.push(Action::ShowOverlay);
    }
    assert(acts@ =~= spec_activate_workspace(v, o as int, idx as nat, alive@).1);
    acts
}

/// Switches output `o` (and, in combined mode, every output) `delta`
/// workspaces over (-1 = previous, +1 = next). No-op if that would go out
/// of bounds.
pub fn switch_workspace(shell: &mut Shell, o: usize, delta: i32, alive: &Vec<WindowId>) -> (acts: Vec<Action>)
    requires
        old(shell).wf(),
        o < old(shell)@.outputs.len(),
        old(shell)@.outputs[o as int].active + delta <= i32::MAX,
    ensures
        final(shell).wf(),
        (final(shell)@, acts@) == spec_switch_workspace(old(shell)@, o as int, delta as int, alive@),
{
    assert(shell.outputs@[o as int].wf());
    let active = shell.outputs[o].workspaces.active();
    let count = shell.outputs[o].workspaces.count();
    match target_index(active, count, delta, shell.settings.dynamic) {
        None => Vec::new(),
        Some(new) => activate_workspace(shell, o, new, alive),
    }
}

/// `(active, count)` of output `o`'s workspaces, for the dot overlay.
pub fn overlay_info(shell: &Shell, o: usize) -> (r: (usize, usize))
    requires
        o < shell@.outputs.len(),
    ensures
        r.0 == shell@.outputs[o as int].active,
        r.1 == shell@.outputs[o as int].count,
{
    (shell.outputs[o].workspaces.active(), shell.outputs[o].workspaces.count())
}

impl Shell {
    /// Output `o`'s workspace `idx` holds no tiled and no floating window.
    pub fn slot_empty(&self, o: usize, idx: usize) -> (r: bool)
        requires
            o < self@.outputs.len(),
        ensures
            r == (self@.outputs[o as int].windows_at(idx as int).len() == 0
                && self@.outputs[o as int].floating_at(idx as int).len() == 0),
    {
        let tiled_empty = if idx < self.outputs[o].tiling.len() {
            self.outputs[o].tiling[idx].is_empty()
        } else {
            true
        };
        tiled_empty && self.outputs[o].workspaces.floating_at(idx).len() == 0
    }
}

/// The index of the first output from `k` on with handle `id`.
pub open spec fn output_index_from(v: ShellView, id: u64, k: int) -> Option<int>
    decreases v.outputs.len() - k,
{
    if k < 0 || k >= v.outputs.len() {
        None
    } else if v.outputs[k].id == id {
        Some(k)
    } else {
        output_index_from(v, id, k + 1)
    }
}

/// The index of the first output with handle `id`.
pub open spec fn output_index(v: ShellView, id: u64) -> Option<int> {
    output_index_from(v, id, 0)
}

impl Shell {
    pub fn output_index(&self, id: u64) -> (r: Option<usize>)
        ensures
            match r {
                None => output_index(self@, id) is None,
                Some(o) => output_index(self@, id) == Some(o as int) && o < self@.outputs.len(),
            },
    {
        let mut o: usize = 0;
        while o < self.outputs.len()
            invariant
                o <= self@.outputs.len(),
                output_index(self@, id) == output_index_from(self@, id, o as int),
            decreases self@.outputs.len() - o,
        {
            if self.outputs[o].id == id {
                return Some(o);
            }
            o = o + 1;
        }
        None
    }
}

/// Where the focused window is moved from: the output whose tree holds it
/// (tiled), else the output it is homed to (floating). A floating window
/// homed to an output that has since been removed has no source: the shell
/// keeps no workspaces for outputs it no longer holds, so it stays put.
pub open spec fn move_source(v: ShellView, w: WindowId) -> Option<(int, bool)> {
    match v.locate(w) {
        Some((o, _)) => Some((o, true)),
        None => match home_of(v.homes, w) {
            Some(h) => match output_index(v, h.output) {
                Some(o) => Some((o, false)),
                None => None,
            },
            None => None,
        },
    }
}

/// Which window moves, from which output (and whether it is tiled there),
/// to which workspace index: nothing if no window is focused, it has no
/// output, or the step from the output's active workspace is out of bounds
/// or lands on the active workspace itself.
pub open spec fn spec_move_plan(v: ShellView, delta: int, focused: Option<WindowId>) -> Option<(WindowId, int, bool, int)> {
    match focused {
        None => None,
        Some(w) => match move_source(v, w) {
            None => None,
            Some((o, was_tiled)) => {
                let out = v.outputs[o];
                match spec_target_index(out.active as int, out.count as int, delta, v.settings.dynamic) {
                    None => None,
                    Some(t) => if t == out.active {
                        None
                    } else {
                        Some((w, o, was_tiled, t))
                    },
                }
            },
        },
    }
}

/// The state after moving `w` from output `o`'s active workspace to
/// workspace `t`: it leaves the active workspace's tree (or floating
/// registry), is homed to `t` (the count growing to include `t`), and joins
/// `t`'s tree, split against the last window tiled there or its first
/// window (or `t`'s floating registry).
pub open spec fn spec_move_apply(v: ShellView, w: WindowId, o: int, was_tiled: bool, t: int) -> ShellView {
    let out = v.outputs[o];
    let active = out.active as int;
    let v1 = if was_tiled {
        v.with_tree(o, active, tv_remove(out.tree_at(active), w))
    } else {
        v.with_slot_remove(o, active, w)
    };
    let v2 = v1.with_home(w, WindowHome { output: out.id, index: t as usize });
    let v3 = if t + 1 > out.count {
        v2.with_position(o, active as nat, (t + 1) as nat)
    } else {
        v2
    };
    if was_tiled {
        v3.with_tree(o, t, tv_insert(v3.outputs[o].tree_at(t), w, out.area, None))
    } else {
        v3.with_slot_push(o, t, w, false)
    }
}

pub proof fn lemma_home_of_set_home(homes: Seq<(WindowId, WindowHome)>, w: WindowId, h: WindowHome)
    ensures
        home_of(set_home(homes, w, h), w) == Some(h),
    decreases homes.len(),
{
    if homes.len() > 0 && homes[0].0 != w {
        lemma_home_of_set_home(homes.drop_first(), w, h);
        let s = set_home(homes, w, h);
        assert(s.drop_first() == set_home(homes.drop_first(), w, h));
    }
}

/// Moving window `w` from output `o`'s active workspace to workspace `t`
/// homes it to `t` on that output and registers it there: in `t`'s tiling
/// tree if it was tiled, else among `t`'s floating windows.
pub proof fn law_moved_window_lands_in_target(v: ShellView, w: WindowId, o: int, was_tiled: bool, t: int)
    requires
        0 <= o < v.outputs.len(),
        0 <= t,
    ensures
        home_of(spec_move_apply(v, w, o, was_tiled, t).homes, w) == Some(
            WindowHome { output: v.outputs[o].id, index: t as usize },
        ),
        was_tiled ==> spec_move_apply(v, w, o, was_tiled, t).outputs[o].windows_at(t).contains(w),
        !was_tiled ==> spec_move_apply(v, w, o, was_tiled, t).outputs[o].floating_at(t).contains(w),
{
    let out = v.outputs[o];
    let active = out.active as int;
    let v1 = if was_tiled {
        v.with_tree(o, active, tv_remove(out.tree_at(active), w))
    } else {
        v.with_slot_remove(o, active, w)
    };
    let h = WindowHome { output: out.id, index: t as usize };
    let v2 = v1.with_home(w, h);
    let v3 = if t + 1 > out.count {
        v2.with_position(o, active as nat, (t + 1) as nat)
    } else {
        v2
    };
    lemma_home_of_set_home(v1.homes, w, h);
    let r = spec_move_apply(v, w, o, was_tiled, t);
    if was_tiled {
        let tt = v3.outputs[o].tree_at(t);
        let ins = tv_insert(tt, w, out.area, None);
        assert(r == v3.with_tree(o, t, ins));
        assert(r.outputs[o].tree_at(t) == ins);
        match tt.0 {
            None => {
                assert(ins.0 == Some(Node::Leaf(w)));
                assert(Node::Leaf(w).leaves()[0] == w);
            },
            Some(root) => {
                crate::shell::tiling::law_insert_places_window_after_target(root, w, out.area, None, tt.1);
            },
        }
    } else {
        let f = v3.outputs[o].floating;
        let g = grow_slots(f, t);
        assert(g.len() > t);
        let pushed = slots_push(f, t, w, false);
        assert(r.outputs[o].floating == pushed);
        assert(pushed[t] == g[t].push(w));
        assert(pushed[t][g[t].len() as int] == w);
    }
}

/// Moving the focused window `delta` workspaces over on its own output, per
/// `spec_move_plan` and `spec_move_apply`: the source workspace is re-flowed
/// (tiled) or the window's position remembered (floating), the window is
/// unmapped, focus moves to the first live window left on the source
/// workspace, trailing empty workspaces are pruned in dynamic mode, and the
/// overlay flashes.
pub open spec fn spec_move_focused_window(v: ShellView, delta: int, focused: Option<WindowId>, alive: Seq<WindowId>) -> (ShellView, Seq<Action>) {
    match spec_move_plan(v, delta, focused) {
        None => (v, seq![]),
        Some((w, o, was_tiled, t)) => {
            let active = v.outputs[o].active as int;
            let v4 = spec_move_apply(v, w, o, was_tiled, t);
            let moved = if was_tiled {
                seq![Action::ApplyLayout(o as usize), Action::Unmap(w)]
            } else {
                seq![Action::RememberPosition(w), Action::Unmap(w)]
            };
            let focus = v4.focus_first_actions(o, active, alive);
            let v5 = if v.settings.dynamic {
                spec_prune_trailing_empty(v4, o)
            } else {
                v4
            };
            (v5, moved + focus + overlay_actions(v))
        },
    }
}

pub fn append_actions(acts: &mut Vec<Action>, more: &Vec<Action>)
    ensures
        final(acts)@ == old(acts)@ + more@,
{
    let ghost start = acts@;
    for j in 0..more.len()
        invariant
            acts@ == start + more@.take(j as int),
    {
        acts.push(more[j]);
        assert(more@.take(j + 1) == more@.take(j as int).push(more@[j as int]));
    }
    assert(more@.take(more.len() as int) == more@);
}

fn move_plan(shell: &Shell, delta: i32, focused: Option<WindowId>) -> (r: Option<(WindowId, usize, bool, usize)>)
    requires
        shell.wf(),
        move_in_range(shell@, delta as int, focused),
    ensures
        match r {
            None => spec_move_plan(shell@, delta as int, focused) is None,
            Some((w, o, was_tiled, t)) => {
                &&& spec_move_plan(shell@, delta as int, focused) == Some((w, o as int, was_tiled, t as int))
                &&& o < shell@.outputs.len()
                &&& t <= i32::MAX
            },
        },
{
    let w = match focused {
        None => return None,
        Some(w) => w,
    };
    let (o, was_tiled) = match shell.locate(w) {
        Some((o, _)) => (o, true),
        None => match shell.home(w) {
            Some(h) => match shell.output_index(h.output) {
                Some(o) => (o, false),
                None => return None,
            },
            None => return None,
        },
    };
    assert(shell.outputs@[o as int].wf());
    let active = shell.outputs[o].workspaces.active();
    let count = shell.outputs[o].workspaces.count();
    let t = match target_index(active, count, delta, shell.settings.dynamic) {
        None => return None,
        Some(t) => t,
    };
    if t == active {
        return None;
    }
    Some((w, o, was_tiled, t))
}

fn move_apply(shell: &mut Shell, w: WindowId, o: usize, was_tiled: bool, t: usize)
    requires
        old(shell).wf(),
        o < old(shell)@.outputs.len(),
        t <= i32::MAX,
        was_tiled ==> tree_in_range(old(shell)@.outputs[o as int].tree_at(t as int), old(shell)@.outputs[o as int].area),
        t != old(shell)@.outputs[o as int].active,
    ensures
        final(shell).wf(),
        final(shell).outputs@.len() == old(shell).outputs@.len(),
        final(shell).settings == old(shell).settings,
        final(shell)@ == spec_move_apply(old(shell)@, w, o as int, was_tiled, t as int),
{
    let ghost v = shell@;
    assert(shell.outputs@[o as int].wf());
    let active = shell.outputs[o].workspaces.active();
    let count = shell.outputs[o].workspaces.count();
    let id = shell.outputs[o].id;
    let area = shell.outputs[o].area;
    if was_tiled {
        let ghost v0 = shell@;
        let mut tree = shell.take_tree(o, active);
        tree.remove(w);
        shell.put_tree(o, active, tree);
        proof {
            lemma_with_tree_twice(v0, o as int, active as int, crate::shell::empty_tree(), tree_view(tree));
        }
    } else {
        shell.slot_remove(o, active, w);
    }
    shell.set_home(w, WindowHome { output: id, index: t });
    if t + 1 > count {
        shell.set_position(o, active, t + 1);
    }
    if was_tiled {
        let ghost v30 = shell@;
        assert(v30.outputs[o as int].windows_at(t as int) == v.outputs[o as int].windows_at(t as int));
        assert(v30.outputs[o as int].tree_at(t as int) == v.outputs[o as int].tree_at(t as int));
        let mut tree = shell.take_tree(o, t);
        tree.insert(w, area, None);
        shell.put_tree(o, t, tree);
        proof {
            lemma_with_tree_twice(v30, o as int, t as int, crate::shell::empty_tree(), tree_view(tree));
        }
    } else {
        shell.slot_push(o, t, w, false);
    }
}

/// Moves the focused window `delta` workspaces over on its own output
/// (-1 = previous, +1 = next).
/// What moving the focused window computes stays in range: the step from
/// the active workspace of the output it moves on is an `i32` value, and a
/// tiled window's destination tree lays out inside `i32` (inserting reads
/// its layout).
pub open spec fn move_in_range(v: ShellView, delta: int, focused: Option<WindowId>) -> bool {
    &&& match focused {
        Some(w) => match move_source(v, w) {
            Some((o, _)) => v.outputs[o].active + delta <= i32::MAX,
            None => true,
        },
        None => true,
    }
    &&& match spec_move_plan(v, delta, focused) {
        Some((_, o, was_tiled, t)) => was_tiled ==> tree_in_range(v.outputs[o].tree_at(t), v.outputs[o].area),
        None => true,
    }
}

pub fn move_focused_window(shell: &mut Shell, delta: i32, focused: Option<WindowId>, alive: &Vec<WindowId>) -> (acts: Vec<Action>)
    requires
        old(shell).wf(),
        move_in_range(old(shell)@, delta as int, focused),
    ensures
        final(shell).wf(),
        (final(shell)@, acts@) == spec_move_focused_window(old(shell)@, delta as int, focused, alive@),
{
    let ghost v = shell@;
    let (w, o, was_tiled, t) = match move_plan(shell, delta, focused) {
        None => return Vec::new(),
        Some(p) => p,
    };
    assert(shell.outputs@[o as int].wf());
    let active = shell.outputs[o].workspaces.active();
    move_apply(shell, w, o, was_tiled, t);
    let mut acts: Vec<Action> = Vec::new();
    if was_tiled {
        acts.push(Action::ApplyLayout(o));
        acts.push(Action::Unmap(w));
    } else {
        acts.push(Action::RememberPosition(w));
        acts.push(Action::Unmap(w));
    }
    let focus = shell.focus_first_in_workspace(o, active, alive);
    append_actions(&mut acts, &focus);
    if shell.settings.dynamic {
        prune_trailing_empty(shell, o);
    }
    if shell.settings.overlay {
        acts.push(Action::ShowOverlay);
    }
    proof {
        let r = spec_move_focused_window(v, delta as int, focused, alive@);
        assert(acts@ =~= r.1);
    }
    acts
}

/// The state with dead windows dropped from every output's floating
/// registry.
pub open spec fn spec_cleanup_floating(v: ShellView, alive: Seq<WindowId>) -> ShellView {
    ShellView {
        outputs: v.outputs.map_values(|out: OutputView| out.with_floating(out.floating.map_values(alive_filter(alive)))),
        ..v
    }
}

/// Some floating window of output `out` is dead.
pub open spec fn has_dead_floating(out: OutputView, alive: Seq<WindowId>) -> bool {
    exists|i: int, j: int| 0 <= i < out.floating.len() && 0 <= j < out.floating[i].len() && !alive.contains(#[trigger] out.floating[i][j])
}

/// Drops dead windows from every output's floating registry. Returns whether
/// any was dropped.
pub fn cleanup_dead(shell: &mut Shell, alive: &Vec<WindowId>) -> (changed: bool)
    requires
        old(shell).wf(),
    ensures
        final(shell).wf(),
        final(shell).outputs@.len() == old(shell).outputs@.len(),
        final(shell)@ == spec_cleanup_floating(old(shell)@, alive@),
        changed == exists|o: int| 0 <= o < old(shell)@.outputs.len() && has_dead_floating(#[trigger] old(shell)@.outputs[o], alive@),
{
    let ghost v = shell@;
    let ghost target = spec_cleanup_floating(v, alive@);
    let mut changed = false;
    let mut o: usize = 0;
    while o < shell.outputs.len()
        invariant
            shell.wf(),
            o <= shell.outputs@.len(),
            shell.outputs@.len() == v.outputs.len(),
            shell@.homes == v.homes,
            shell@.settings == v.settings,
            target == spec_cleanup_floating(v, alive@),
            forall|k: int| 0 <= k < o ==> #[trigger] shell@.outputs[k] == target.outputs[k],
            forall|k: int| o <= k < v.outputs.len() ==> #[trigger] shell@.outputs[k] == v.outputs[k],
            changed == exists|k: int| 0 <= k < o && has_dead_floating(#[trigger] v.outputs[k], alive@),
        decreases shell.outputs@.len() - o,
    {
        assert(shell.outputs@[o as int].wf());
        let ghost before = shell.outputs@;
        let ghost sv = shell@;
        assert(sv.outputs[o as int] == v.outputs[o as int]);
        assert(sv.outputs[o as int] == before[o as int].view());
        assert(target.outputs.len() == v.outputs.len());
        let c = shell.outputs[o].workspaces.retain_alive(alive);
        proof {
            assert(shell.outputs@[o as int].wf());
            assert forall|k: int| 0 <= k < shell.outputs@.len() && k != o implies #[trigger] shell@.outputs[k] == sv.outputs[k] by {
                assert(shell.outputs@[k] == before[k]);
            }
            let ws0 = before[o as int].workspaces;
            assert(v.outputs[o as int].floating == ws0.spec_floating());
            assert(target.outputs[o as int] == v.outputs[o as int].with_floating(v.outputs[o as int].floating.map_values(alive_filter(alive@))));
            assert(shell@.outputs[o as int] == target.outputs[o as int]);
            if c {
                let (i, j) = choose|i: int, j: int| 0 <= i < v.outputs[o as int].floating.len() && 0 <= j < v.outputs[o as int].floating[i].len() && !alive@.contains(#[trigger] v.outputs[o as int].floating[i][j]);
                assert(has_dead_floating(v.outputs[o as int], alive@));
            }
            if has_dead_floating(v.outputs[o as int], alive@) {
                let (i, j) = choose|i: int, j: int| 0 <= i < v.outputs[o as int].floating.len() && 0 <= j < v.outputs[o as int].floating[i].len() && !alive@.contains(#[trigger] v.outputs[o as int].floating[i][j]);
                assert(c);
            }
        }
        changed = changed || c;
        o = o + 1;
    }
    assert(shell@.outputs =~= target.outputs);
    changed
}

/// Output `o`'s initial workspace position: in combined mode, that of the
/// first other output, so a hot-plugged monitor joins the same virtual
/// desktop; otherwise (or with no other output) workspace 0 of the
/// configured count (at least one).
pub open spec fn initial_position(v: ShellView, o: int) -> (nat, nat) {
    let fresh = (0nat, if v.settings.count >= 1 { v.settings.count as nat } else { 1nat });
    if v.settings.mode == WorkspaceMode::Combined {
        match first_other(v, o, 0) {
            Some(p) => (v.outputs[p].active, v.outputs[p].count),
            None => fresh,
        }
    } else {
        fresh
    }
}

/// The first output index from `k` on other than `o`.
pub open spec fn first_other(v: ShellView, o: int, k: int) -> Option<int>
    decreases v.outputs.len() - k,
{
    if k < 0 || k >= v.outputs.len() {
        None
    } else if k != o {
        Some(k)
    } else {
        first_other(v, o, k + 1)
    }
}

/// Sets up output `o`'s workspaces when it connects, per
/// `initial_position`.
pub fn init_output(shell: &mut Shell, o: usize)
    requires
        old(shell).wf(),
        o < old(shell)@.outputs.len(),
        old(shell)@.settings.count <= i32::MAX,
    ensures
        final(shell).wf(),
        final(shell)@ == old(shell)@.with_position(o as int, initial_position(old(shell)@, o as int).0, initial_position(old(shell)@, o as int).1),
{
    let fresh_count = if shell.settings.count >= 1 { shell.settings.count } else { 1 };
    let (active, count) = if shell.settings.mode == WorkspaceMode::Combined {
        let other = if o == 0 {
            if shell.outputs.len() > 1 { Some(1usize) } else { None }
        } else {
            Some(0usize)
        };
        proof {
            if o == 0 {
                assert(first_other(shell@, 0, 0) == first_other(shell@, 0, 1));
            }
        }
        match other {
            Some(p) => {
                assert(shell.outputs@[p as int].wf());
                (shell.outputs[p].workspaces.active(), shell.outputs[p].workspaces.count())
            },
            None => (0, fresh_count),
        }
    } else {
        (0, fresh_count)
    };
    shell.set_position(o, active, count);
}
} // verus!
