//! Window management: per-output BSP tiling trees and workspaces.
//!
//! [`Shell`] holds, for every output in the space's order, its geometry, the
//! area tiled windows may use, its workspaces, and one tiling tree per
//! workspace, plus each window's home (output and workspace). Operations
//! change this state and return the [`Action`]s the compositor must carry
//! out on its scene, in order.

use vstd::prelude::*;
use crate::geometry::Rect;
use crate::shell::tiling::{Node, TilingLayout, WindowId, opt_leaves, opt_wf, inserted};
use crate::shell::workspace::{WorkspaceSettings, WorkspaceState, grow_slots, without, only_alive};

pub mod tiling;
pub mod workspace;

verus! {

/// One output's window-management state.
pub struct OutputState {
    /// The compositor's handle for this output.
    pub id: u64,
    /// Where the output sits in the space.
    pub geometry: Rect,
    /// The part of the output tiled windows may use.
    pub area: Rect,
    pub workspaces: WorkspaceState,
    /// One tiling tree per workspace slot touched so far, by index.
    pub tiling: Vec<TilingLayout>,
}

/// Which output and workspace a window is homed to.
#[derive(Clone, Copy, Debug, PartialEq, Eq, Structural)]
pub struct WindowHome {
    pub output: u64,
    pub index: usize,
}

/// Something the compositor has to do to its scene.
#[derive(Clone, Copy, Debug, PartialEq, Eq, Structural)]
pub enum Action {
    /// Re-flow the tiled windows of this output's active workspace to the
    /// rectangles its tree lays out.
    ApplyLayout(usize),
    /// Raise the window, give it keyboard focus and, if configured, warp the
    /// pointer to it.
    RaiseAndFocus(WindowId),
    /// Give keyboard focus to nothing.
    ClearFocus,
    /// Record where the window currently sits, if mapped, as the position to
    /// restore it to when its workspace is shown again.
    RememberPosition(WindowId),
    /// Take the window out of the space.
    Unmap(WindowId),
    /// Map a floating window at its remembered position (the origin if none).
    MapFloating(WindowId),
    /// Flash the workspace overlay.
    ShowOverlay,
}

/// A tiling tree's root and last inserted window.
pub type TreeView = (Option<Node>, Option<WindowId>);

pub struct OutputView {
    pub id: u64,
    pub geometry: Rect,
    pub area: Rect,
    pub active: nat,
    pub count: nat,
    pub floating: Seq<Seq<WindowId>>,
    pub trees: Seq<TreeView>,
}

pub struct ShellView {
    pub outputs: Seq<OutputView>,
    pub homes: Seq<(WindowId, WindowHome)>,
    pub settings: WorkspaceSettings,
}

pub open spec fn tree_view(t: TilingLayout) -> TreeView {
    (t.root_view(), t.last_view())
}

pub open spec fn empty_tree() -> TreeView {
    (None, None)
}

impl OutputState {
    pub open spec fn view(self) -> OutputView {
        OutputView {
            id: self.id,
            geometry: self.geometry,
            area: self.area,
            active: self.workspaces.spec_active(),
            count: self.workspaces.spec_count(),
            floating: self.workspaces.spec_floating(),
            trees: self.tiling@.map_values(|t: TilingLayout| tree_view(t)),
        }
    }

    pub open spec fn wf(self) -> bool {
        &&& self.workspaces.wf()
        &&& forall|i: int| 0 <= i < self.tiling@.len() ==> (#[trigger] self.tiling@[i]).wf()
    }
}

impl OutputState {
    /// A newly connected output: one workspace, nothing tiled or floating.
    pub fn new(id: u64, geometry: Rect, area: Rect) -> (s: OutputState)
        ensures
            s.wf(),
            s.view() == (OutputView {
                id,
                geometry,
                area,
                active: 0,
                count: 1,
                floating: Seq::empty(),
                trees: Seq::empty(),
            }),
    {
        let s = OutputState { id, geometry, area, workspaces: WorkspaceState::new(), tiling: Vec::new() };
        assert(s.view().trees =~= Seq::<TreeView>::empty());
        s
    }
}

/// The first home recorded for `w`.
pub open spec fn home_of(homes: Seq<(WindowId, WindowHome)>, w: WindowId) -> Option<WindowHome>
    decreases homes.len(),
{
    if homes.len() == 0 {
        None
    } else if homes[0].0 == w {
        Some(homes[0].1)
    } else {
        home_of(homes.drop_first(), w)
    }
}

/// `homes` with `w` homed to `h`: its first entry updated, or a new entry.
pub open spec fn set_home(homes: Seq<(WindowId, WindowHome)>, w: WindowId, h: WindowHome) -> Seq<(WindowId, WindowHome)>
    decreases homes.len(),
{
    if homes.len() == 0 {
        seq![(w, h)]
    } else if homes[0].0 == w {
        homes.update(0, (w, h))
    } else {
        seq![homes[0]] + set_home(homes.drop_first(), w, h)
    }
}

/// `trees` grown with empty trees so that slot `i` exists.
pub open spec fn grow_trees(trees: Seq<TreeView>, i: int) -> Seq<TreeView> {
    if i < trees.len() {
        trees
    } else {
        trees + Seq::new((i + 1 - trees.len()) as nat, |k: int| empty_tree())
    }
}

impl OutputView {
    /// Workspace `i`'s tree; empty if that slot was never touched.
    pub open spec fn tree_at(self, i: int) -> TreeView {
        if 0 <= i < self.trees.len() {
            self.trees[i]
        } else {
            empty_tree()
        }
    }

    pub open spec fn windows_at(self, i: int) -> Seq<WindowId> {
        opt_leaves(self.tree_at(i).0)
    }

    pub open spec fn with_tree(self, i: int, t: TreeView) -> OutputView {
        OutputView { trees: grow_trees(self.trees, i).update(i, t), ..self }
    }

    pub open spec fn with_position(self, active: nat, count: nat) -> OutputView {
        OutputView { active, count, ..self }
    }

    pub open spec fn with_floating(self, f: Seq<Seq<WindowId>>) -> OutputView {
        OutputView { floating: f, ..self }
    }

    /// The floating windows homed to workspace `i`.
    pub open spec fn floating_at(self, i: int) -> Seq<WindowId> {
        crate::shell::workspace::floating_slot(self.floating, i)
    }
}

/// `f` with `w` recorded on slot `idx` (grown as needed); with `unique`, only
/// if it is not already recorded there.
pub open spec fn slots_push(f: Seq<Seq<WindowId>>, idx: int, w: WindowId, unique: bool) -> Seq<Seq<WindowId>> {
    let g = grow_slots(f, idx);
    if unique && g[idx].contains(w) {
        g
    } else {
        g.update(idx, g[idx].push(w))
    }
}

/// `f` with every record of `w` on slot `idx` dropped (grown as needed).
pub open spec fn slots_remove(f: Seq<Seq<WindowId>>, idx: int, w: WindowId) -> Seq<Seq<WindowId>> {
    let g = grow_slots(f, idx);
    g.update(idx, without(g[idx], w))
}

/// `f` with dead windows dropped from slot `idx`, if it exists.
pub open spec fn slots_retain(f: Seq<Seq<WindowId>>, idx: int, alive: Seq<WindowId>) -> Seq<Seq<WindowId>> {
    if 0 <= idx < f.len() {
        f.update(idx, only_alive(f[idx], alive))
    } else {
        f
    }
}

impl ShellView {
    pub open spec fn with_slot_push(self, o: int, idx: int, w: WindowId, unique: bool) -> ShellView {
        self.with_output(o, self.outputs[o].with_floating(slots_push(self.outputs[o].floating, idx, w, unique)))
    }

    pub open spec fn with_slot_remove(self, o: int, idx: int, w: WindowId) -> ShellView {
        self.with_output(o, self.outputs[o].with_floating(slots_remove(self.outputs[o].floating, idx, w)))
    }

    pub open spec fn with_slot_retain(self, o: int, idx: int, alive: Seq<WindowId>) -> ShellView {
        self.with_output(o, self.outputs[o].with_floating(slots_retain(self.outputs[o].floating, idx, alive)))
    }

    /// `w` dropped from the floating windows of every workspace of every
    /// output.
    pub open spec fn forget_floating(self, w: WindowId) -> ShellView {
        ShellView {
            outputs: self.outputs.map_values(
                |ov: OutputView| ov.with_floating(ov.floating.map_values(|s: Seq<WindowId>| without(s, w))),
            ),
            ..self
        }
    }

    pub open spec fn with_position(self, o: int, active: nat, count: nat) -> ShellView {
        self.with_output(o, self.outputs[o].with_position(active, count))
    }

    pub open spec fn with_output(self, o: int, v: OutputView) -> ShellView {
        ShellView { outputs: self.outputs.update(o, v), ..self }
    }

    pub open spec fn with_tree(self, o: int, i: int, t: TreeView) -> ShellView {
        self.with_output(o, self.outputs[o].with_tree(i, t))
    }

    pub open spec fn with_home(self, w: WindowId, h: WindowHome) -> ShellView {
        ShellView { homes: set_home(self.homes, w, h), ..self }
    }

    /// Window `w` is tiled on output `o`'s workspace `i`.
    pub open spec fn tiled_at(self, w: WindowId, o: int, i: int) -> bool {
        0 <= o < self.outputs.len() && 0 <= i < self.outputs[o].trees.len()
            && opt_leaves(self.outputs[o].trees[i].0).contains(w)
    }

    /// `(o, i)` is the first place, in output order and then workspace
    /// order, where `w` is tiled.
    pub open spec fn is_location(self, w: WindowId, o: int, i: int) -> bool {
        &&& self.tiled_at(w, o, i)
        &&& forall|o2: int, i2: int| (o2 < o || (o2 == o && i2 < i)) ==> !#[trigger] self.tiled_at(w, o2, i2)
    }

    /// Which output's tiling tree, at which workspace index, holds `w`:
    /// the first one found, searching outputs in order and each output's
    /// workspaces in order.
    pub open spec fn locate(self, w: WindowId) -> Option<(int, int)> {
        if exists|o: int, i: int| self.is_location(w, o, i) {
            Some(choose|o: int, i: int| self.is_location(w, o, i))
        } else {
            None
        }
    }
}

/// The window-management state of every output.
pub struct Shell {
    /// Outputs in the space's order.
    pub outputs: Vec<OutputState>,
    /// Each window's home; the first entry for a window is the one in force.
    pub homes: Vec<(WindowId, WindowHome)>,
    pub settings: WorkspaceSettings,
}

impl View for Shell {
    type V = ShellView;

    open spec fn view(&self) -> ShellView {
        ShellView {
            outputs: self.outputs@.map_values(|o: OutputState| o.view()),
            homes: self.homes@,
            settings: self.settings,
        }
    }
}

impl Shell {
    pub open spec fn wf(self) -> bool {
        forall|o: int| 0 <= o < self.outputs@.len() ==> (#[trigger] self.outputs@[o]).wf()
    }

    pub fn new(settings: WorkspaceSettings) -> (s: Shell)
        ensures
            s@.outputs.len() == 0,
            s@.homes.len() == 0,
            s@.settings == settings,
            s.wf(),
    {
        Shell { outputs: Vec::new(), homes: Vec::new(), settings }
    }
}


pub proof fn lemma_with_tree_twice(v: ShellView, o: int, i: int, a: TreeView, b: TreeView)
    requires
        0 <= o < v.outputs.len(),
        0 <= i,
    ensures
        v.with_tree(o, i, a).with_tree(o, i, b) == v.with_tree(o, i, b),
{
    let g = grow_trees(v.outputs[o].trees, i);
    assert(grow_trees(g.update(i, a), i) == g.update(i, a));
    assert(g.update(i, a).update(i, b) =~= g.update(i, b));
    assert(v.with_tree(o, i, a).outputs.update(o, v.with_tree(o, i, a).outputs[o].with_tree(i, b))
        =~= v.outputs.update(o, v.outputs[o].with_tree(i, b)));
}

impl Shell {
    /// Takes workspace `i`'s tree of output `o` out, leaving an empty tree in
    /// its slot (growing the output's tree list as needed).
    pub fn take_tree(&mut self, o: usize, i: usize) -> (t: TilingLayout)
        requires
            old(self).wf(),
            o < old(self).outputs@.len(),
            i < usize::MAX || i < old(self).outputs@[o as int].tiling@.len(),
        ensures
            final(self).wf(),
            final(self).outputs@.len() == old(self).outputs@.len(),
            t.wf(),
            tree_view(t) == old(self)@.outputs[o as int].tree_at(i as int),
            final(self)@ == old(self)@.with_tree(o as int, i as int, empty_tree()),
            i < final(self).outputs@[o as int].tiling@.len(),
    {
        let ghost old_trees = self@.outputs[o as int].trees;
        let ghost old_tiling = self.outputs@[o as int].tiling@;
        assert(self.outputs@[o as int].wf());
        while self.outputs[o].tiling.len() <= i
            invariant
                self.wf(),
                o < self.outputs@.len(),
                i < usize::MAX || i < old_tiling.len(),
                old_tiling.len() <= self.outputs@[o as int].tiling@.len(),
                self.outputs@[o as int].tiling@.len() <= (if i < old_tiling.len() { old_tiling.len() as int } else { i + 1 }),
                forall|j: int| 0 <= j < old_tiling.len() ==> #[trigger] self.outputs@[o as int].tiling@[j] == old_tiling[j],
                forall|j: int| old_tiling.len() <= j < self.outputs@[o as int].tiling@.len() ==> tree_view(#[trigger] self.outputs@[o as int].tiling@[j]) == empty_tree(),
                forall|p: int| 0 <= p < self.outputs@.len() && p != o ==> #[trigger] self.outputs@[p] == old(self).outputs@[p],
                self.outputs@[o as int].id == old(self).outputs@[o as int].id,
                self.outputs@[o as int].geometry == old(self).outputs@[o as int].geometry,
                self.outputs@[o as int].area == old(self).outputs@[o as int].area,
                self.outputs@[o as int].workspaces == old(self).outputs@[o as int].workspaces,
                self.outputs@.len() == old(self).outputs@.len(),
                self.homes == old(self).homes,
                self.settings == old(self).settings,
            decreases i + 1 - self.outputs@[o as int].tiling@.len(),
        {
            let e = TilingLayout::new();
            self.outputs[o].tiling.push(e);
            assert(self.outputs@[o as int].wf());
        }
        let mut t = TilingLayout::new();
        std::mem::swap(&mut self.outputs[o].tiling[i], &mut t);
        proof {
            assert(self.outputs@[o as int].wf());
            let nt = self.outputs@[o as int].tiling@.map_values(|x: TilingLayout| tree_view(x));
            let g = grow_trees(old_trees, i as int);
            assert(nt =~= g.update(i as int, empty_tree()));
            assert(self@.outputs =~= old(self)@.outputs.update(o as int, old(self)@.outputs[o as int].with_tree(i as int, empty_tree())));
        }
        t
    }

    /// Puts `t` into workspace `i`'s slot of output `o`.
    pub fn put_tree(&mut self, o: usize, i: usize, t: TilingLayout)
        requires
            old(self).wf(),
            t.wf(),
            o < old(self).outputs@.len(),
            i < old(self).outputs@[o as int].tiling@.len(),
        ensures
            final(self).wf(),
            final(self).outputs@.len() == old(self).outputs@.len(),
            final(self).outputs@[o as int].tiling@.len() == old(self).outputs@[o as int].tiling@.len(),
            final(self)@ == old(self)@.with_tree(o as int, i as int, tree_view(t)),
    {
        let ghost old_trees = self@.outputs[o as int].trees;
        self.outputs[o].tiling.set(i, t);
        proof {
            assert(self.outputs@[o as int].wf());
            let nt = self.outputs@[o as int].tiling@.map_values(|x: TilingLayout| tree_view(x));
            assert(grow_trees(old_trees, i as int) == old_trees);
            assert(nt =~= old_trees.update(i as int, tree_view(t)));
            assert(self@.outputs =~= old(self)@.outputs.update(o as int, old(self)@.outputs[o as int].with_tree(i as int, tree_view(t))));
        }
    }
}

impl Shell {
    pub fn set_position(&mut self, o: usize, active: usize, count: usize)
        requires
            old(self).wf(),
            o < old(self).outputs@.len(),
            1 <= count <= i32::MAX + 1,
            active < count,
        ensures
            final(self).wf(),
            final(self).outputs@.len() == old(self).outputs@.len(),
            final(self)@ == old(self)@.with_output(o as int, old(self)@.outputs[o as int].with_position(active as nat, count as nat)),
    {
        self.outputs[o].workspaces.set_position(active, count);
        proof {
            assert(self.outputs@[o as int].wf());
            assert(self@.outputs =~= old(self)@.outputs.update(o as int, old(self)@.outputs[o as int].with_position(active as nat, count as nat)));
        }
    }

    pub fn slot_push(&mut self, o: usize, idx: usize, w: WindowId, unique: bool)
        requires
            old(self).wf(),
            o < old(self).outputs@.len(),
            idx < usize::MAX,
        ensures
            final(self).wf(),
            final(self).outputs@.len() == old(self).outputs@.len(),
            final(self)@ == old(self)@.with_slot_push(o as int, idx as int, w, unique),
    {
        self.outputs[o].workspaces.slot_push(idx, w, unique);
        proof {
            assert(self.outputs@[o as int].wf());
            assert(self@.outputs =~= old(self)@.outputs.update(o as int, self@.outputs[o as int]));
        }
    }

    pub fn slot_remove(&mut self, o: usize, idx: usize, w: WindowId)
        requires
            old(self).wf(),
            o < old(self).outputs@.len(),
            idx < usize::MAX,
        ensures
            final(self).wf(),
            final(self).outputs@.len() == old(self).outputs@.len(),
            final(self)@ == old(self)@.with_slot_remove(o as int, idx as int, w),
    {
        self.outputs[o].workspaces.slot_remove(idx, w);
        proof {
            assert(self.outputs@[o as int].wf());
            assert(self@.outputs =~= old(self)@.outputs.update(o as int, self@.outputs[o as int]));
        }
    }

    /// Drops `w` from the floating windows of every workspace of every
    /// output.
    pub fn forget_floating(&mut self, w: WindowId)
        requires
            old(self).wf(),
        ensures
            final(self).wf(),
            final(self).outputs@.len() == old(self).outputs@.len(),
            final(self)@ == old(self)@.forget_floating(w),
    {
        let ghost v = self@;
        let n = self.outputs.len();
        for o in 0..n
            invariant
                self.wf(),
                n == self.outputs@.len(),
                v == old(self)@,
                v.outputs.len() == n,
                self.homes == old(self).homes,
                self.settings == old(self).settings,
                forall|k: int| 0 <= k < o ==> #[trigger] self@.outputs[k] == v.forget_floating(w).outputs[k],
                forall|k: int| o <= k < n ==> #[trigger] self@.outputs[k] == v.outputs[k],
        {
            let ghost before = self@;
            let ghost before_vec = self.outputs@;
            assert(self.outputs@[o as int].wf());
            self.outputs[o].workspaces.forget(w);
            proof {
                let out = self.outputs@[o as int];
                assert(out.id == before_vec[o as int].id && out.geometry == before_vec[o as int].geometry
                    && out.area == before_vec[o as int].area && out.tiling == before_vec[o as int].tiling);
                assert(self.outputs@ == before_vec.update(o as int, out));
                assert(self.outputs@[o as int].wf());
                assert(before.outputs[o as int] == v.outputs[o as int]);
                assert forall|k: int| 0 <= k < n implies #[trigger] self@.outputs[k] == (if k == o {
                    v.forget_floating(w).outputs[k]
                } else {
                    before.outputs[k]
                }) by {
                    if k == o {
                        assert(self@.outputs[k].floating =~= v.outputs[k].floating.map_values(
                            |s: Seq<WindowId>| without(s, w),
                        ));
                    }
                }
            }
        }
        assert(self@.outputs =~= v.forget_floating(w).outputs);
    }

    pub fn slot_retain_alive(&mut self, o: usize, idx: usize, alive: &Vec<WindowId>)
        requires
            old(self).wf(),
            o < old(self).outputs@.len(),
        ensures
            final(self).wf(),
            final(self).outputs@.len() == old(self).outputs@.len(),
            final(self)@ == old(self)@.with_slot_retain(o as int, idx as int, alive@),
    {
        self.outputs[o].workspaces.slot_retain_alive(idx, alive);
        proof {
            assert(self.outputs@[o as int].wf());
            assert(self@.outputs =~= old(self)@.outputs.update(o as int, self@.outputs[o as int]));
        }
    }

    /// Records that `w` is homed to `h`.
    pub fn set_home(&mut self, w: WindowId, h: WindowHome)
        ensures
            final(self).outputs == old(self).outputs,
            final(self).settings == old(self).settings,
            final(self)@ == old(self)@.with_home(w, h),
    {
        let mut i: usize = 0;
        proof {
            lemma_set_home_start(self.homes@, w, h);
        }
        while i < self.homes.len()
            invariant
                i <= self.homes@.len(),
                self.homes == old(self).homes,
                self.outputs == old(self).outputs,
                self.settings == old(self).settings,
                set_home(self.homes@, w, h) == self.homes@.take(i as int) + set_home(self.homes@.skip(i as int), w, h),
                forall|k: int| 0 <= k < i ==> (#[trigger] self.homes@[k]).0 != w,
            decreases self.homes@.len() - i,
        {
            let ghost s = self.homes@.skip(i as int);
            assert(s[0] == self.homes@[i as int]);
            if self.homes[i].0 == w {
                let ghost before = self.homes@;
                self.homes.set(i, (w, h));
                assert(self.homes@ =~= before.take(i as int) + s.update(0, (w, h)));
                return;
            }
            assert(s.drop_first() == self.homes@.skip(i + 1));
            assert(self.homes@.take(i + 1) == self.homes@.take(i as int) + seq![s[0]]);
            assert(self.homes@.take(i as int) + (seq![s[0]] + set_home(s.drop_first(), w, h)) == self.homes@.take(i + 1) + set_home(self.homes@.skip(i + 1), w, h));
            i = i + 1;
        }
        let ghost before = self.homes@;
        assert(before.take(i as int) == before);
        assert(before.skip(i as int).len() == 0);
        self.homes.push((w, h));
        assert(self.homes@ =~= before + seq![(w, h)]);
        assert(self@.homes == set_home(old(self)@.homes, w, h));
    }

    /// The home recorded for `w`, if any.
    pub fn home(&self, w: WindowId) -> (r: Option<WindowHome>)
        ensures
            r == home_of(self@.homes, w),
    {
        let mut i: usize = 0;
        assert(self.homes@.skip(0) == self.homes@);
        while i < self.homes.len()
            invariant
                i <= self.homes@.len(),
                home_of(self.homes@, w) == home_of(self.homes@.skip(i as int), w),
            decreases self.homes@.len() - i,
        {
            let ghost s = self.homes@.skip(i as int);
            assert(s[0] == self.homes@[i as int]);
            if self.homes[i].0 == w {
                return Some(self.homes[i].1);
            }
            assert(s.drop_first() == self.homes@.skip(i + 1));
            i = i + 1;
        }
        None
    }
}

proof fn lemma_set_home_start(homes: Seq<(WindowId, WindowHome)>, w: WindowId, h: WindowHome)
    ensures
        set_home(homes, w, h) == homes.take(0) + set_home(homes.skip(0), w, h),
{
    assert(homes.take(0) + set_home(homes.skip(0), w, h) =~= set_home(homes, w, h)) by {
        assert(homes.skip(0) == homes);
    }
}

/// The tree after removing `w`'s first leaf (see `TilingLayout::remove`).
pub open spec fn tv_remove(t: TreeView, w: WindowId) -> TreeView {
    (
        match t.0 {
            None => None,
            Some(r) => r.remove_first(w),
        },
        if t.1 == Some(w) {
            None
        } else {
            t.1
        },
    )
}

/// The tree after tiling `w` (see `TilingLayout::insert`).
pub open spec fn tv_insert(t: TreeView, w: WindowId, area: Rect, target: Option<WindowId>) -> TreeView {
    (
        match t.0 {
            None => Some(Node::Leaf(w)),
            Some(r) => Some(inserted(r, w, area, target, t.1)),
        },
        Some(w),
    )
}

/// The tree after swapping `a` and `b` (see `TilingLayout::swap`).
pub open spec fn tv_swap(t: TreeView, a: WindowId, b: WindowId) -> TreeView {
    (
        match t.0 {
            None => None,
            Some(r) => Some(r.swapped(a, b)),
        },
        t.1,
    )
}

/// The tree after resizing on behalf of `w` (see `TilingLayout::adjust_ratio`).
pub open spec fn tv_adjust(t: TreeView, w: WindowId, vertical: bool, delta: int) -> TreeView {
    (
        match t.0 {
            None => None,
            Some(r) => Some(r.adjusted(w, vertical, delta).0),
        },
        t.1,
    )
}

/// The tree after dropping dead windows (see `TilingLayout::retain_alive`).
pub open spec fn tv_retain(t: TreeView, alive: Seq<WindowId>) -> TreeView {
    (
        match t.0 {
            None => None,
            Some(r) => r.retained(alive),
        },
        match t.1 {
            Some(l) => if opt_leaves(t.0).contains(l) && !alive.contains(l) {
                None
            } else {
                Some(l)
            },
            None => None,
        },
    )
}

pub open spec fn tv_layout(t: TreeView, area: Rect) -> Seq<(WindowId, Rect)> {
    match t.0 {
        Some(r) => r.layout(area),
        None => seq![],
    }
}

/// The first window of `s` that is alive.
pub open spec fn first_alive(s: Seq<WindowId>, alive: Seq<WindowId>) -> Option<WindowId>
    decreases s.len(),
{
    if s.len() == 0 {
        None
    } else if alive.contains(s[0]) {
        Some(s[0])
    } else {
        first_alive(s.drop_first(), alive)
    }
}

pub fn first_alive_exec(s: &Vec<WindowId>, alive: &Vec<WindowId>) -> (r: Option<WindowId>)
    ensures
        r == first_alive(s@, alive@),
{
    let mut i: usize = 0;
    assert(s@.skip(0) == s@);
    while i < s.len()
        invariant
            i <= s@.len(),
            first_alive(s@, alive@) == first_alive(s@.skip(i as int), alive@),
        decreases s@.len() - i,
    {
        let ghost t = s@.skip(i as int);
        assert(t[0] == s@[i as int]);
        if crate::shell::tiling::vec_contains(alive, s[i]) {
            return Some(s[i]);
        }
        assert(t.drop_first() == s@.skip(i + 1));
        i = i + 1;
    }
    None
}

impl ShellView {
    /// What focusing workspace `idx` of output `o` does: focus its first
    /// live tiled window, else its first live floating window, else nothing.
    pub open spec fn focus_first_actions(self, o: int, idx: int, alive: Seq<WindowId>) -> Seq<Action> {
        match first_alive(self.outputs[o].windows_at(idx), alive) {
            Some(w) => seq![Action::RaiseAndFocus(w)],
            None => match first_alive(self.outputs[o].floating_at(idx), alive) {
                Some(w) => seq![Action::RaiseAndFocus(w)],
                None => seq![Action::ClearFocus],
            },
        }
    }
}

proof fn lemma_location_unique(v: ShellView, w: WindowId, o1: int, i1: int, o2: int, i2: int)
    requires
        v.is_location(w, o1, i1),
        v.is_location(w, o2, i2),
    ensures
        o1 == o2 && i1 == i2,
{
    if o1 < o2 || (o1 == o2 && i1 < i2) {
        assert(!v.tiled_at(w, o1, i1));
    } else if o2 < o1 || (o1 == o2 && i2 < i1) {
        assert(!v.tiled_at(w, o2, i2));
    }
}

impl Shell {
    /// Finds which output's tiling tree, at which workspace index, holds `w`,
    /// searching every workspace, not just the active one.
    pub fn locate(&self, w: WindowId) -> (r: Option<(usize, usize)>)
        ensures
            match r {
                None => self@.locate(w) is None,
                Some((o, i)) => self@.locate(w) == Some((o as int, i as int)) && o < self@.outputs.len()
                    && i < self@.outputs[o as int].trees.len() && i < self.outputs@[o as int].tiling@.len(),
            },
    {
        let ghost v = self@;
        let mut o: usize = 0;
        while o < self.outputs.len()
            invariant
                o <= self.outputs@.len(),
                v == self@,
                forall|o2: int, i2: int| 0 <= o2 < o ==> !#[trigger] v.tiled_at(w, o2, i2),
            decreases self.outputs@.len() - o,
        {
            let mut i: usize = 0;
            while i < self.outputs[o].tiling.len()
                invariant
                    o < self.outputs@.len(),
                    i <= self.outputs@[o as int].tiling@.len(),
                    v == self@,
                    forall|o2: int, i2: int| 0 <= o2 < o ==> !#[trigger] v.tiled_at(w, o2, i2),
                    forall|i2: int| 0 <= i2 < i ==> !#[trigger] v.tiled_at(w, o as int, i2),
                decreases self.outputs@[o as int].tiling@.len() - i,
            {
                if self.outputs[o].tiling[i].contains(w) {
                    proof {
                        assert(v.tiled_at(w, o as int, i as int));
                        assert forall|o2: int, i2: int| (o2 < o || (o2 == o && i2 < i)) implies !#[trigger] v.tiled_at(w, o2, i2) by {
                            if o2 < 0 {
                            }
                        }
                        assert(v.is_location(w, o as int, i as int));
                        let (a, b) = choose|a: int, b: int| v.is_location(w, a, b);
                        lemma_location_unique(v, w, a, b, o as int, i as int);
                    }
                    return Some((o, i));
                }
                i = i + 1;
            }
            proof {
                assert forall|o2: int, i2: int| 0 <= o2 < o + 1 implies !#[trigger] v.tiled_at(w, o2, i2) by {
                    if o2 == o && 0 <= i2 && i2 >= i {
                    }
                }
            }
            o = o + 1;
        }
        proof {
            assert forall|a: int, b: int| !v.is_location(w, a, b) by {
                if v.is_location(w, a, b) {
                    assert(v.tiled_at(w, a, b));
                }
            }
        }
        None
    }

    /// Actions focusing workspace `idx` of output `o`, per
    /// `focus_first_actions`.
    pub fn focus_first_in_workspace(&self, o: usize, idx: usize, alive: &Vec<WindowId>) -> (acts: Vec<Action>)
        requires
            o < self@.outputs.len(),
        ensures
            acts@ == self@.focus_first_actions(o as int, idx as int, alive@),
    {
        let tiled = if idx < self.outputs[o].tiling.len() {
            self.outputs[o].tiling[idx].windows()
        } else {
            Vec::new()
        };
        assert(tiled@ == self@.outputs[o as int].windows_at(idx as int));
        let mut acts: Vec<Action> = Vec::new();
        match first_alive_exec(&tiled, alive) {
            Some(w) => {
                acts.push(Action::RaiseAndFocus(w));
            },
            None => {
                let floating = self.outputs[o].workspaces.floating_at(idx);
                match first_alive_exec(&floating, alive) {
                    Some(w) => {
                        acts.push(Action::RaiseAndFocus(w));
                    },
                    None => {
                        acts.push(Action::ClearFocus);
                    },
                }
            },
        }
        assert(acts@ =~= self@.focus_first_actions(o as int, idx as int, alive@));
        acts
    }
}
} // verus!
