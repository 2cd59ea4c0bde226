//! The workspace list as a client of the workspace protocol sees it: one
//! group per output, each with its workspaces in the order they entered the
//! group, numbered from 0. A bridge process keeps this up to date from the
//! compositor's events, prints it as JSON after every `done`, and turns
//! `activate` commands into requests on the right workspace object.
//!
//! Protocol objects are identified by their ids.

use vstd::prelude::*;

verus! {

/// One workspace of a group.
#[derive(Debug, Clone)]
pub struct WorkspaceEntry {
    pub handle: u64,
    pub index: usize,
    pub name: String,
    pub active: bool,
}

/// One workspace group: the output it is on, once known, and its
/// workspaces.
#[derive(Debug, Clone)]
pub struct GroupEntry {
    pub handle: u64,
    pub output_name: Option<String>,
    pub workspaces: Vec<WorkspaceEntry>,
}

pub struct WorkspaceView {
    pub handle: u64,
    pub index: usize,
    pub name: Seq<char>,
    pub active: bool,
}

pub struct GroupView {
    pub handle: u64,
    pub output: Option<Seq<char>>,
    pub workspaces: Seq<WorkspaceView>,
}

pub open spec fn workspace_view(w: WorkspaceEntry) -> WorkspaceView {
    WorkspaceView { handle: w.handle, index: w.index, name: w.name@, active: w.active }
}

pub open spec fn group_view(g: GroupEntry) -> GroupView {
    GroupView {
        handle: g.handle,
        output: match g.output_name {
            Some(n) => Some(n@),
            None => None,
        },
        workspaces: g.workspaces@.map_values(|w: WorkspaceEntry| workspace_view(w)),
    }
}

/// Each workspace's number is its position in its group.
pub open spec fn numbered(ws: Seq<WorkspaceView>) -> bool {
    forall|k: int| 0 <= k < ws.len() ==> (#[trigger] ws[k]).index == k
}

/// `ws` renumbered by position.
pub open spec fn renumbered(ws: Seq<WorkspaceView>) -> Seq<WorkspaceView> {
    Seq::new(ws.len(), |k: int| WorkspaceView { index: k as usize, ..ws[k] })
}

/// The workspaces other than `handle`, in order.
pub open spec fn without_workspace(ws: Seq<WorkspaceView>, handle: u64) -> Seq<WorkspaceView>
    decreases ws.len(),
{
    if ws.len() == 0 {
        seq![]
    } else {
        let rest = without_workspace(ws.drop_last(), handle);
        if ws.last().handle == handle {
            rest
        } else {
            rest.push(ws.last())
        }
    }
}

/// The groups other than `handle`, in order.
pub open spec fn without_group(gs: Seq<GroupView>, handle: u64) -> Seq<GroupView>
    decreases gs.len(),
{
    if gs.len() == 0 {
        seq![]
    } else {
        let rest = without_group(gs.drop_last(), handle);
        if gs.last().handle == handle {
            rest
        } else {
            rest.push(gs.last())
        }
    }
}

/// Group `i` is the first with handle `h`.
pub open spec fn first_group_at(gs: Seq<GroupView>, h: u64, i: int) -> bool {
    0 <= i < gs.len() && gs[i].handle == h && forall|j: int| 0 <= j < i ==> gs[j].handle != h
}

/// The position of the first group with handle `h`.
pub open spec fn find_group(gs: Seq<GroupView>, h: u64) -> Option<int> {
    if exists|i: int| first_group_at(gs, h, i) {
        Some(choose|i: int| first_group_at(gs, h, i))
    } else {
        None
    }
}

/// Workspace `k` of group `g` is the first workspace with handle `h`,
/// groups taken in order and each group's workspaces in order.
pub open spec fn first_workspace_at(gs: Seq<GroupView>, h: u64, g: int, k: int) -> bool {
    &&& 0 <= g < gs.len()
    &&& 0 <= k < gs[g].workspaces.len()
    &&& gs[g].workspaces[k].handle == h
    &&& forall|g2: int, k2: int| 0 <= g2 < gs.len() && 0 <= k2 < gs[g2].workspaces.len()
        && (g2 < g || (g2 == g && k2 < k)) ==> gs[g2].workspaces[k2].handle != h
}

pub open spec fn find_workspace(gs: Seq<GroupView>, h: u64) -> Option<(int, int)> {
    if exists|g: int, k: int| first_workspace_at(gs, h, g, k) {
        Some(choose|g: int, k: int| first_workspace_at(gs, h, g, k))
    } else {
        None
    }
}

pub open spec fn with_group(gs: Seq<GroupView>, i: int, g: GroupView) -> Seq<GroupView> {
    gs.update(i, g)
}

/// One output's entry of the printed state: its name and, per workspace,
/// number, name and whether it is active.
pub type OutputState = (String, Vec<(usize, String, bool)>);

pub open spec fn output_state_view(o: OutputState) -> (Seq<char>, Seq<(usize, Seq<char>, bool)>) {
    (o.0@, o.1@.map_values(|w: (usize, String, bool)| (w.0, w.1@, w.2)))
}

/// The printed state: every group whose output is known, in order.
pub open spec fn spec_snapshot(gs: Seq<GroupView>) -> Seq<(Seq<char>, Seq<(usize, Seq<char>, bool)>)>
    decreases gs.len(),
{
    if gs.len() == 0 {
        seq![]
    } else {
        let rest = spec_snapshot(gs.drop_last());
        match gs.last().output {
            Some(name) => rest.push(
                (name, gs.last().workspaces.map_values(|w: WorkspaceView| (w.index, w.name, w.active))),
            ),
            None => rest,
        }
    }
}

/// The group whose output is named `output`, first in order.
pub open spec fn first_output_at(gs: Seq<GroupView>, output: Seq<char>, i: int) -> bool {
    0 <= i < gs.len() && gs[i].output == Some(output) && forall|j: int| 0 <= j < i ==> gs[j].output != Some(output)
}

/// The workspace object an `activate` command for `output`, `index` goes
/// to: workspace `index` of the first group on that output.
pub open spec fn spec_activation_target(gs: Seq<GroupView>, output: Seq<char>, index: usize) -> Option<u64> {
    if exists|i: int| first_output_at(gs, output, i) {
        let g = gs[choose|i: int| first_output_at(gs, output, i)];
        if exists|k: int| 0 <= k < g.workspaces.len() && g.workspaces[k].index == index
            && forall|j: int| 0 <= j < k ==> g.workspaces[j].index != index {
            Some(g.workspaces[choose|k: int| 0 <= k < g.workspaces.len() && g.workspaces[k].index == index
                && forall|j: int| 0 <= j < k ==> g.workspaces[j].index != index].handle)
        } else {
            None
        }
    } else {
        None
    }
}

proof fn lemma_first_output_unique(gs: Seq<GroupView>, output: Seq<char>, i: int)
    requires
        first_output_at(gs, output, i),
    ensures
        (choose|c: int| first_output_at(gs, output, c)) == i,
{
    let c = choose|c: int| first_output_at(gs, output, c);
    if c < i {
        assert(gs[c].output == Some(output));
    }
    if i < c {
        assert(gs[i].output == Some(output));
    }
}

/// Every group the compositor announced, in order.
pub struct WorkspaceGroups {
    groups: Vec<GroupEntry>,
}

impl WorkspaceGroups {
    pub closed spec fn groups(&self) -> Seq<GroupView> {
        self.groups@.map_values(|g: GroupEntry| group_view(g))
    }

    /// Every group's workspaces are numbered by position.
    pub open spec fn wf(&self) -> bool {
        forall|i: int| 0 <= i < self.groups().len() ==> numbered(#[trigger] self.groups()[i].workspaces)
    }

    pub fn new() -> (r: WorkspaceGroups)
        ensures
            r.groups() == Seq::<GroupView>::empty(),
            r.wf(),
    {
        let r = WorkspaceGroups { groups: Vec::new() };
        assert(r.groups() =~= Seq::<GroupView>::empty());
        r
    }

    /// A new group was announced; its output and workspaces follow.
    pub fn add_group(&mut self, handle: u64)
        requires
            old(self).wf(),
        ensures
            final(self).wf(),
            final(self).groups() == old(self).groups().push(
                GroupView { handle, output: None, workspaces: Seq::empty() },
            ),
    {
        let ghost before = self.groups@;
        self.groups.push(GroupEntry { handle, output_name: None, workspaces: Vec::new() });
        proof {
            let g = self.groups@.last();
            assert(group_view(g).workspaces =~= Seq::<WorkspaceView>::empty());
            assert(self.groups() =~= before.map_values(|g: GroupEntry| group_view(g)).push(group_view(g)));
        }
    }

    fn group_index(&self, handle: u64) -> (r: Option<usize>)
        ensures
            match r {
                Some(i) => find_group(self.groups(), handle) == Some(i as int) && i < self.groups@.len(),
                None => find_group(self.groups(), handle) is None,
            },
    {
        for i in 0..self.groups.len()
            invariant
                forall|j: int| 0 <= j < i ==> self.groups()[j].handle != handle,
        {
            if self.groups[i].handle == handle {
                proof {
                    assert(first_group_at(self.groups(), handle, i as int));
                    let c = choose|c: int| first_group_at(self.groups(), handle, c);
                    assert(c == i);
                }
                return Some(i);
            }
        }
        None
    }

    /// Group `group` entered an output, named `name` if the name is known.
    pub fn set_output(&mut self, group: u64, name: Option<String>)
        requires
            old(self).wf(),
        ensures
            final(self).wf(),
            match find_group(old(self).groups(), group) {
                Some(i) => final(self).groups() == with_group(
                    old(self).groups(),
                    i,
                    GroupView {
                        output: match name {
                            Some(n) => Some(n@),
                            None => None,
                        },
                        ..old(self).groups()[i]
                    },
                ),
                None => final(self).groups() == old(self).groups(),
            },
    {
        match self.group_index(group) {
            Some(i) => {
                let ghost before = self.groups@;
                let mut g = self.groups.remove(i);
                g.output_name = name;
                self.groups.insert(i, g);
                proof {
                    assert(self.groups@ == before.update(i as int, g));
                    assert(self.groups() =~= with_group(
                        before.map_values(|g: GroupEntry| group_view(g)),
                        i as int,
                        group_view(g),
                    ));
                    assert forall|j: int| 0 <= j < self.groups().len() implies numbered(#[trigger] self.groups()[j].workspaces) by {
                        if j != i {
                            assert(self.groups()[j] == before.map_values(|g: GroupEntry| group_view(g))[j]);
                        } else {
                            assert(self.groups()[j].workspaces == before.map_values(|g: GroupEntry| group_view(g))[j].workspaces);
                        }
                    }
                }
            },
            None => {},
        }
    }

    /// Workspace `workspace` entered group `group`, with the name and
    /// active flag it announced so far (an empty name if none); it is
    /// numbered after the group's other workspaces.
    pub fn workspace_enter(&mut self, group: u64, workspace: u64, name: Option<String>, active: bool)
        requires
            old(self).wf(),
        ensures
            final(self).wf(),
            match find_group(old(self).groups(), group) {
                Some(i) => final(self).groups() == with_group(
                    old(self).groups(),
                    i,
                    GroupView {
                        workspaces: old(self).groups()[i].workspaces.push(
                            WorkspaceView {
                                handle: workspace,
                                index: old(self).groups()[i].workspaces.len() as usize,
                                name: match name {
                                    Some(n) => n@,
                                    None => Seq::empty(),
                                },
                                active,
                            },
                        ),
                        ..old(self).groups()[i]
                    },
                ),
                None => final(self).groups() == old(self).groups(),
            },
    {
        match self.group_index(group) {
            Some(i) => {
                let ghost before = self.groups@;
                let mut g = self.groups.remove(i);
                let ghost gw = g.workspaces@;
                let n = g.workspaces.len();
                let name = match name {
                    Some(n) => n,
                    None => String::new(),
                };
                g.workspaces.push(WorkspaceEntry { handle: workspace, index: n, name, active });
                self.groups.insert(i, g);
                proof {
                    assert(self.groups@ == before.update(i as int, g));
                    assert(group_view(g).workspaces =~= gw.map_values(|w: WorkspaceEntry| workspace_view(w)).push(
                        workspace_view(g.workspaces@.last()),
                    ));
                    assert(self.groups() =~= with_group(
                        before.map_values(|g: GroupEntry| group_view(g)),
                        i as int,
                        group_view(g),
                    ));
                    assert forall|j: int| 0 <= j < self.groups().len() implies numbered(#[trigger] self.groups()[j].workspaces) by {
                        if j != i {
                            assert(self.groups()[j] == before.map_values(|g: GroupEntry| group_view(g))[j]);
                        } else {
                            let old_ws = before.map_values(|g: GroupEntry| group_view(g))[j].workspaces;
                            assert(numbered(old_ws));
                            assert forall|k: int| 0 <= k < self.groups()[j].workspaces.len()
                                implies (#[trigger] self.groups()[j].workspaces[k]).index == k by {
                                if k < old_ws.len() {
                                    assert(self.groups()[j].workspaces[k] == old_ws[k]);
                                }
                            }
                        }
                    }
                }
            },
            None => {},
        }
    }

    /// Workspace `workspace` left group `group`: the remaining workspaces
    /// are renumbered by position.
    pub fn workspace_leave(&mut self, group: u64, workspace: u64)
        requires
            old(self).wf(),
        ensures
            final(self).wf(),
            match find_group(old(self).groups(), group) {
                Some(i) => final(self).groups() == with_group(
                    old(self).groups(),
                    i,
                    GroupView {
                        workspaces: renumbered(without_workspace(old(self).groups()[i].workspaces, workspace)),
                        ..old(self).groups()[i]
                    },
                ),
                None => final(self).groups() == old(self).groups(),
            },
    {
        match self.group_index(group) {
            Some(i) => {
                let ghost before = self.groups@;
                let mut g = self.groups.remove(i);
                let ghost g_old = g;
                let mut rest = Vec::new();
                std::mem::swap(&mut rest, &mut g.workspaces);
                let ghost orig = rest@.map_values(|w: WorkspaceEntry| workspace_view(w));
                let ghost orig_entries = rest@;
                assert(g_old == before[i as int]);
                assert(g.handle == g_old.handle && g.output_name == g_old.output_name);
                assert(orig == group_view(before[i as int]).workspaces);
                let n = rest.len();
                let mut k: usize = 0;
                while rest.len() > 0
                    invariant
                        k + rest@.len() == orig.len(),
                        orig.len() == n,
                        orig == orig_entries.map_values(|w: WorkspaceEntry| workspace_view(w)),
                        rest@ == orig_entries.skip(k as int),
                        g.handle == g_old.handle,
                        g.output_name == g_old.output_name,
                        g.workspaces@.map_values(|w: WorkspaceEntry| workspace_view(w))
                            == renumbered(without_workspace(orig.take(k as int), workspace)),
                    decreases rest@.len(),
                {
                    let mut w = rest.remove(0);
                    let ghost done = g.workspaces@;
                    let ghost w0 = w;
                    proof {
                        assert(orig_entries[k as int] == w);
                        assert(rest@ == orig_entries.skip(k + 1));
                        assert(orig.take(k + 1).drop_last() == orig.take(k as int));
                        assert(orig.take(k + 1).last() == workspace_view(w));
                    }
                    if w.handle != workspace {
                        w.index = g.workspaces.len();
                        g.workspaces.push(w);
                        proof {
                            let prev = without_workspace(orig.take(k as int), workspace);
                            assert(without_workspace(orig.take(k + 1), workspace) == prev.push(orig[k as int]));
                            let done_v = done.map_values(|w: WorkspaceEntry| workspace_view(w));
                            assert(done_v.len() == done.len());
                            assert(renumbered(prev).len() == prev.len());
                            assert(orig[k as int] == workspace_view(w0));
                            assert(g.workspaces@ == done.push(w));
                            assert forall|m: int| 0 <= m < done.len() + 1 implies g.workspaces@.map_values(
                                |w: WorkspaceEntry| workspace_view(w),
                            )[m] == #[trigger] renumbered(prev.push(orig[k as int]))[m] by {
                                if m < done.len() {
                                    assert(done_v[m] == renumbered(prev)[m]);
                                }
                            }
                            assert(g.workspaces@.map_values(|w: WorkspaceEntry| workspace_view(w))
                                =~= renumbered(prev.push(orig[k as int])));
                        }
                    }
                    k = k + 1;
                }
                assert(orig.take(k as int) == orig);
                let len = g.workspaces.len();
                assert(renumbered(without_workspace(orig, workspace)).len() == len);
                assert(group_view(g) =~= (GroupView {
                    workspaces: renumbered(without_workspace(orig, workspace)),
                    ..group_view(before[i as int])
                }));
                self.groups.insert(i, g);
                proof {
                    assert(self.groups@ == before.update(i as int, g));
                    assert(self.groups() =~= with_group(
                        before.map_values(|g: GroupEntry| group_view(g)),
                        i as int,
                        group_view(g),
                    ));
                    assert forall|j: int| 0 <= j < self.groups().len() implies numbered(#[trigger] self.groups()[j].workspaces) by {
                        if j != i {
                            assert(self.groups()[j] == before.map_values(|g: GroupEntry| group_view(g))[j]);
                        } else {
                            let r = renumbered(without_workspace(orig, workspace));
                            assert(self.groups()[j].workspaces == r);
                            assert forall|m: int| 0 <= m < r.len() implies (#[trigger] r[m]).index == m by {
                                assert(m < len);
                            }
                        }
                    }
                }
            },
            None => {},
        }
    }

    /// Group `group` was removed.
    pub fn group_removed(&mut self, group: u64)
        requires
            old(self).wf(),
        ensures
            final(self).wf(),
            final(self).groups() == without_group(old(self).groups(), group),
    {
        let ghost orig = self.groups();
        let mut rest = Vec::new();
        std::mem::swap(&mut rest, &mut self.groups);
        let ghost orig_entries = rest@;
        let n = rest.len();
        let mut k: usize = 0;
        while rest.len() > 0
            invariant
                k + rest@.len() == orig.len(),
                orig.len() == n,
                orig == orig_entries.map_values(|g: GroupEntry| group_view(g)),
                forall|i: int| 0 <= i < orig.len() ==> numbered(#[trigger] orig[i].workspaces),
                rest@ == orig_entries.skip(k as int),
                self.groups() == without_group(orig.take(k as int), group),
                self.wf(),
            decreases rest@.len(),
        {
            let g = rest.remove(0);
            let ghost before = self.groups@;
            proof {
                assert(orig_entries[k as int] == g);
                assert(rest@ == orig_entries.skip(k + 1));
                assert(orig.take(k + 1).drop_last() == orig.take(k as int));
                assert(orig.take(k + 1).last() == group_view(g));
            }
            if g.handle != group {
                self.groups.push(g);
                proof {
                    assert(self.groups() =~= before.map_values(|g: GroupEntry| group_view(g)).push(group_view(g)));
                    assert(numbered(orig[k as int].workspaces));
                    assert forall|j: int| 0 <= j < self.groups().len() implies numbered(#[trigger] self.groups()[j].workspaces) by {
                        if j < before.len() {
                            assert(self.groups()[j] == before.map_values(|g: GroupEntry| group_view(g))[j]);
                        }
                    }
                }
            }
            k = k + 1;
        }
        assert(orig.take(k as int) == orig);
    }

    fn workspace_position(&self, handle: u64) -> (r: Option<(usize, usize)>)
        ensures
            match r {
                Some((g, k)) => find_workspace(self.groups(), handle) == Some((g as int, k as int))
                    && g < self.groups@.len() && k < self.groups@[g as int].workspaces@.len(),
                None => find_workspace(self.groups(), handle) is None,
            },
    {
        let ghost gs = self.groups();
        for g in 0..self.groups.len()
            invariant
                gs == self.groups(),
                forall|g2: int, k2: int| 0 <= g2 < g && 0 <= k2 < gs[g2].workspaces.len()
                    ==> gs[g2].workspaces[k2].handle != handle,
        {
            let ws = &self.groups[g].workspaces;
            assert(gs[g as int].workspaces == ws@.map_values(|w: WorkspaceEntry| workspace_view(w)));
            for k in 0..ws.len()
                invariant
                    gs == self.groups(),
                    g < self.groups@.len(),
                    ws@ == self.groups@[g as int].workspaces@,
                    gs[g as int].workspaces == ws@.map_values(|w: WorkspaceEntry| workspace_view(w)),
                    forall|g2: int, k2: int| 0 <= g2 < g && 0 <= k2 < gs[g2].workspaces.len()
                        ==> gs[g2].workspaces[k2].handle != handle,
                    forall|k2: int| 0 <= k2 < k ==> gs[g as int].workspaces[k2].handle != handle,
            {
                if ws[k].handle == handle {
                    proof {
                        assert(gs[g as int].workspaces.len() == ws@.len());
                        assert(gs[g as int].workspaces[k as int].handle == handle);
                        assert(first_workspace_at(gs, handle, g as int, k as int));
                        let (cg, ck) = choose|cg: int, ck: int| first_workspace_at(gs, handle, cg, ck);
                        if cg < g || (cg == g && ck < k) {
                            assert(false);
                        }
                        if g < cg || (g == cg && k < ck) {
                            assert(false);
                        }
                    }
                    return Some((g, k));
                }
            }
        }
        None
    }

    /// A workspace announced its name. Returns `false` if it has not entered
    /// a group yet, so the caller keeps the name until it does.
    pub fn rename_workspace(&mut self, workspace: u64, name: String) -> (filed: bool)
        requires
            old(self).wf(),
        ensures
            final(self).wf(),
            filed == find_workspace(old(self).groups(), workspace) is Some,
            match find_workspace(old(self).groups(), workspace) {
                Some((g, k)) => final(self).groups() == with_group(
                    old(self).groups(),
                    g,
                    GroupView {
                        workspaces: old(self).groups()[g].workspaces.update(
                            k,
                            WorkspaceView { name: name@, ..old(self).groups()[g].workspaces[k] },
                        ),
                        ..old(self).groups()[g]
                    },
                ),
                None => final(self).groups() == old(self).groups(),
            },
    {
        match self.workspace_position(workspace) {
            Some((g, k)) => {
                let ghost before = self.groups@;
                proof {
                    assert forall|i: int| 0 <= i < before.len() implies numbered(#[trigger] group_view(before[i]).workspaces) by {
                        assert(self.groups()[i] == group_view(before[i]));
                    }
                }
                let mut grp = self.groups.remove(g);
                let ghost gw = grp.workspaces@;
                let mut w = grp.workspaces.remove(k);
                w.name = name;
                grp.workspaces.insert(k, w);
                assert(grp.workspaces@ =~= gw.update(k as int, w));
                self.groups.insert(g, grp);
                assert(self.groups@ =~= before.update(g as int, grp));
                proof {
                    self.lemma_update_workspace(before, g as int, grp, gw, k as int, w);
                }
                true
            },
            None => false,
        }
    }

    /// A workspace announced whether it is active. Returns `false` if it has
    /// not entered a group yet, so the caller keeps the flag until it does.
    pub fn set_workspace_active(&mut self, workspace: u64, active: bool) -> (filed: bool)
        requires
            old(self).wf(),
        ensures
            final(self).wf(),
            filed == find_workspace(old(self).groups(), workspace) is Some,
            match find_workspace(old(self).groups(), workspace) {
                Some((g, k)) => final(self).groups() == with_group(
                    old(self).groups(),
                    g,
                    GroupView {
                        workspaces: old(self).groups()[g].workspaces.update(
                            k,
                            WorkspaceView { active, ..old(self).groups()[g].workspaces[k] },
                        ),
                        ..old(self).groups()[g]
                    },
                ),
                None => final(self).groups() == old(self).groups(),
            },
    {
        match self.workspace_position(workspace) {
            Some((g, k)) => {
                let ghost before = self.groups@;
                proof {
                    assert forall|i: int| 0 <= i < before.len() implies numbered(#[trigger] group_view(before[i]).workspaces) by {
                        assert(self.groups()[i] == group_view(before[i]));
                    }
                }
                let mut grp = self.groups.remove(g);
                let ghost gw = grp.workspaces@;
                let mut w = grp.workspaces.remove(k);
                w.active = active;
                grp.workspaces.insert(k, w);
                assert(grp.workspaces@ =~= gw.update(k as int, w));
                self.groups.insert(g, grp);
                assert(self.groups@ =~= before.update(g as int, grp));
                proof {
                    self.lemma_update_workspace(before, g as int, grp, gw, k as int, w);
                }
                true
            },
            None => false,
        }
    }

    proof fn lemma_update_workspace(
        &self,
        before: Seq<GroupEntry>,
        g: int,
        grp: GroupEntry,
        gw: Seq<WorkspaceEntry>,
        k: int,
        w: WorkspaceEntry,
    )
        requires
            0 <= g < before.len(),
            0 <= k < gw.len(),
            gw == before[g].workspaces@,
            grp.workspaces@ == gw.update(k, w),
            grp.handle == before[g].handle,
            grp.output_name == before[g].output_name,
            w.index == gw[k].index,
            w.handle == gw[k].handle,
            self.groups@ == before.update(g, grp),
            forall|i: int| 0 <= i < before.len() ==> numbered(#[trigger] group_view(before[i]).workspaces),
        ensures
            self.wf(),
            group_view(grp) == (GroupView {
                workspaces: group_view(before[g]).workspaces.update(k, workspace_view(w)),
                ..group_view(before[g])
            }),
            self.groups() == with_group(before.map_values(|x: GroupEntry| group_view(x)), g, group_view(grp)),
    {
        assert(group_view(grp).workspaces =~= group_view(before[g]).workspaces.update(k, workspace_view(w)));
        assert(self.groups() =~= with_group(before.map_values(|x: GroupEntry| group_view(x)), g, group_view(grp)));
        assert forall|j: int| 0 <= j < self.groups().len() implies numbered(#[trigger] self.groups()[j].workspaces) by {
            if j != g {
                assert(self.groups()[j] == group_view(before[j]));
            } else {
                let old_ws = group_view(before[g]).workspaces;
                assert(numbered(old_ws));
                assert forall|m: int| 0 <= m < self.groups()[j].workspaces.len()
                    implies (#[trigger] self.groups()[j].workspaces[m]).index == m by {
                    if m != k {
                        assert(self.groups()[j].workspaces[m] == old_ws[m]);
                    } else {
                        assert(old_ws[k].index == k);
                    }
                }
            }
        }
    }

    /// The state to print: each group whose output is known, with its
    /// workspaces' numbers, names and active flags.
    pub fn snapshot(&self) -> (r: Vec<OutputState>)
        ensures
            r@.map_values(|o: OutputState| output_state_view(o)) == spec_snapshot(self.groups()),
    {
        let ghost gs = self.groups();
        let mut out: Vec<OutputState> = Vec::new();
        for i in 0..self.groups.len()
            invariant
                gs == self.groups(),
                out@.map_values(|o: OutputState| output_state_view(o)) == spec_snapshot(gs.take(i as int)),
        {
            proof {
                assert(gs.take(i + 1).drop_last() == gs.take(i as int));
                assert(gs.take(i + 1).last() == group_view(self.groups@[i as int]));
            }
            let g = &self.groups[i];
            match &g.output_name {
                Some(name) => {
                    let mut ws: Vec<(usize, String, bool)> = Vec::new();
                    for k in 0..g.workspaces.len()
                        invariant
                            g.workspaces@ == self.groups@[i as int].workspaces@,
                            ws@.map_values(|w: (usize, String, bool)| (w.0, w.1@, w.2))
                                == g.workspaces@.take(k as int).map_values(|w: WorkspaceEntry| (w.index, w.name@, w.active)),
                    {
                        let ghost before = ws@;
                        ws.push((g.workspaces[k].index, g.workspaces[k].name.clone(), g.workspaces[k].active));
                        proof {
                            assert(g.workspaces@.take(k + 1) == g.workspaces@.take(k as int).push(g.workspaces@[k as int]));
                            assert(ws@.map_values(|w: (usize, String, bool)| (w.0, w.1@, w.2))
                                =~= before.map_values(|w: (usize, String, bool)| (w.0, w.1@, w.2)).push(
                                (g.workspaces@[k as int].index, g.workspaces@[k as int].name@, g.workspaces@[k as int].active),
                            ));
                            assert(g.workspaces@.take(k + 1).map_values(|w: WorkspaceEntry| (w.index, w.name@, w.active))
                                =~= g.workspaces@.take(k as int).map_values(|w: WorkspaceEntry| (w.index, w.name@, w.active)).push(
                                (g.workspaces@[k as int].index, g.workspaces@[k as int].name@, g.workspaces@[k as int].active),
                            ));
                        }
                    }
                    let ghost before = out@;
                    let entry: OutputState = (name.clone(), ws);
                    out.push(entry);
                    proof {
                        assert(g.workspaces@.take(g.workspaces@.len() as int) == g.workspaces@);
                        assert(group_view(*g).workspaces.map_values(|w: WorkspaceView| (w.index, w.name, w.active))
                            =~= g.workspaces@.map_values(|w: WorkspaceEntry| (w.index, w.name@, w.active)));
                        assert(out@.map_values(|o: OutputState| output_state_view(o))
                            =~= before.map_values(|o: OutputState| output_state_view(o)).push(output_state_view(entry)));
                    }
                },
                None => {},
            }
        }
        assert(gs.take(self.groups@.len() as int) == gs);
        out
    }

    /// The workspace object to activate for an `activate` command naming
    /// `output` and workspace number `index`; `None` when no such output or
    /// workspace exists, and the command is ignored.
    pub fn activation_target(&self, output: &str, index: usize) -> (r: Option<u64>)
        ensures
            r == spec_activation_target(self.groups(), output@, index),
    {
        let ghost gs = self.groups();
        let target = output.to_owned();
        let gi = match self.output_group(&target) {
            Some(gi) => gi,
            None => {
                return None;
            },
        };
        let ws = &self.groups[gi].workspaces;
        let ghost wv = gs[gi as int].workspaces;
        assert(wv == ws@.map_values(|w: WorkspaceEntry| workspace_view(w)));
        for k in 0..ws.len()
            invariant
                gs == self.groups(),
                first_output_at(gs, output@, gi as int),
                wv == gs[gi as int].workspaces,
                wv == ws@.map_values(|w: WorkspaceEntry| workspace_view(w)),
                forall|j: int| 0 <= j < k ==> wv[j].index != index,
        {
            if ws[k].index == index {
                proof {
                    lemma_first_output_unique(gs, output@, gi as int);
                    assert(wv[k as int].index == index);
                    let c = choose|c: int| 0 <= c < wv.len() && wv[c].index == index
                        && forall|j: int| 0 <= j < c ==> wv[j].index != index;
                    if c < k as int {
                        assert(false);
                    }
                    if (k as int) < c {
                        assert(false);
                    }
                }
                return Some(ws[k].handle);
            }
        }
        proof {
            lemma_first_output_unique(gs, output@, gi as int);
        }
        None
    }

    fn output_group(&self, target: &String) -> (r: Option<usize>)
        ensures
            match r {
                Some(i) => first_output_at(self.groups(), target@, i as int) && i < self.groups@.len(),
                None => !exists|i: int| first_output_at(self.groups(), target@, i),
            },
    {
        for i in 0..self.groups.len()
            invariant
                forall|j: int| 0 <= j < i ==> self.groups()[j].output != Some(target@),
        {
            let matches = match &self.groups[i].output_name {
                Some(n) => *n == *target,
                None => false,
            };
            if matches {
                return Some(i);
            }
        }
        None
    }
}

} // verus!
