//! Bookkeeping for the foreign-toplevel list that docks read: for each
//! client bound to the manager global, one handle per running window.
//!
//! Windows, managers and handles are identified by the compositor's ids.
//! Keeping a client's list current is done in three steps by the caller:
//! [`Instance::retain_present`] drops the handles of windows that are gone
//! (their handles are told `closed`), then for every window
//! [`Instance::handle_for`] finds its handle or, after creating one,
//! [`Instance::add_handle`] records it; each handle then gets the window's
//! title, app id and state, `activated` exactly when [`is_activated`].

use vstd::prelude::*;
use crate::shell::tiling::WindowId;

verus! {

/// Global data for the manager global (nothing to carry).
pub struct ManagerGlobalData;

/// User data of a bound manager object (nothing to carry).
pub struct ManagerToken;

/// User data of a toplevel handle: the window it stands for.
#[derive(Clone, Copy, Debug, PartialEq, Eq, Structural)]
pub struct ToplevelData {
    pub window: WindowId,
}

/// One handle created for one client: the window and the handle object.
#[derive(Clone, Copy, Debug, PartialEq, Eq, Structural)]
pub struct ToplevelEntry {
    pub window: WindowId,
    pub resource: u64,
}

/// The handles of windows in `windows`, in order.
pub open spec fn present_handles(handles: Seq<ToplevelEntry>, windows: Seq<WindowId>) -> Seq<ToplevelEntry>
    decreases handles.len(),
{
    if handles.len() == 0 {
        seq![]
    } else {
        let rest = present_handles(handles.drop_last(), windows);
        if windows.contains(handles.last().window) {
            rest.push(handles.last())
        } else {
            rest
        }
    }
}

/// The handle objects of windows not in `windows`, in order.
pub open spec fn closed_handles(handles: Seq<ToplevelEntry>, windows: Seq<WindowId>) -> Seq<u64>
    decreases handles.len(),
{
    if handles.len() == 0 {
        seq![]
    } else {
        let rest = closed_handles(handles.drop_last(), windows);
        if windows.contains(handles.last().window) {
            rest
        } else {
            rest.push(handles.last().resource)
        }
    }
}

/// The handles other than handle object `resource`, in order.
pub open spec fn without_handle(handles: Seq<ToplevelEntry>, resource: u64) -> Seq<ToplevelEntry>
    decreases handles.len(),
{
    if handles.len() == 0 {
        seq![]
    } else {
        let rest = without_handle(handles.drop_last(), resource);
        if handles.last().resource == resource {
            rest
        } else {
            rest.push(handles.last())
        }
    }
}

/// The handle object of the first handle for window `w`.
pub open spec fn handle_of(handles: Seq<ToplevelEntry>, w: WindowId) -> Option<u64>
    decreases handles.len(),
{
    if handles.len() == 0 {
        None
    } else if handles[0].window == w {
        Some(handles[0].resource)
    } else {
        handle_of(handles.drop_first(), w)
    }
}

/// One client's binding of the manager global and its handles.
pub struct Instance {
    manager: u64,
    toplevels: Vec<ToplevelEntry>,
}

impl Instance {
    pub closed spec fn handles(&self) -> Seq<ToplevelEntry> {
        self.toplevels@
    }

    /// The client's manager object.
    pub closed spec fn manager_id(&self) -> u64 {
        self.manager
    }

    pub fn manager(&self) -> (r: u64)
        ensures
            r == self.manager_id(),
    {
        self.manager
    }

    /// A client just bound the global as manager object `manager`.
    pub fn new(manager: u64) -> (r: Instance)
        ensures
            r.manager_id() == manager,
            r.handles() == Seq::<ToplevelEntry>::empty(),
    {
        Instance { manager, toplevels: Vec::new() }
    }

    /// Drops the handles of windows that are no longer in `windows` and
    /// returns their handle objects, to be told `closed`, in order.
    pub fn retain_present(&mut self, windows: &Vec<WindowId>) -> (closed: Vec<u64>)
        ensures
            final(self).manager_id() == old(self).manager_id(),
            final(self).handles() == present_handles(old(self).handles(), windows@),
            closed@ == closed_handles(old(self).handles(), windows@),
    {
        let mut kept: Vec<ToplevelEntry> = Vec::new();
        let mut closed: Vec<u64> = Vec::new();
        for i in 0..self.toplevels.len()
            invariant
                kept@ == present_handles(self.toplevels@.take(i as int), windows@),
                closed@ == closed_handles(self.toplevels@.take(i as int), windows@),
        {
            proof {
                assert(self.toplevels@.take(i + 1).drop_last() == self.toplevels@.take(i as int));
            }
            let entry = self.toplevels[i];
            if contains_window(windows, entry.window) {
                kept.push(entry);
            } else {
                closed.push(entry.resource);
            }
        }
        assert(self.toplevels@.take(self.toplevels@.len() as int) == self.toplevels@);
        self.toplevels = kept;
        closed
    }

    /// The handle object for window `w`, if one was created.
    pub fn handle_for(&self, w: WindowId) -> (r: Option<u64>)
        ensures
            r == handle_of(self.handles(), w),
    {
        let mut i: usize = 0;
        assert(self.toplevels@.skip(0) == self.toplevels@);
        while i < self.toplevels.len()
            invariant
                i <= self.toplevels@.len(),
                handle_of(self.toplevels@, w) == handle_of(self.toplevels@.skip(i as int), w),
            decreases self.toplevels@.len() - i,
        {
            proof {
                let s = self.toplevels@.skip(i as int);
                assert(s[0] == self.toplevels@[i as int]);
                assert(s.drop_first() == self.toplevels@.skip(i + 1));
            }
            if self.toplevels[i].window == w {
                return Some(self.toplevels[i].resource);
            }
            i = i + 1;
        }
        None
    }

    /// Records handle object `resource`, just created for window `w`.
    pub fn add_handle(&mut self, w: WindowId, resource: u64)
        ensures
            final(self).manager_id() == old(self).manager_id(),
            final(self).handles() == old(self).handles().push(ToplevelEntry { window: w, resource }),
    {
        self.toplevels.push(ToplevelEntry { window: w, resource });
    }

    /// Handle object `resource` was destroyed.
    pub fn handle_destroyed(&mut self, resource: u64)
        ensures
            final(self).manager_id() == old(self).manager_id(),
            final(self).handles() == without_handle(old(self).handles(), resource),
    {
        let mut kept: Vec<ToplevelEntry> = Vec::new();
        for i in 0..self.toplevels.len()
            invariant
                kept@ == without_handle(self.toplevels@.take(i as int), resource),
        {
            proof {
                assert(self.toplevels@.take(i + 1).drop_last() == self.toplevels@.take(i as int));
            }
            if self.toplevels[i].resource != resource {
                kept.push(self.toplevels[i]);
            }
        }
        assert(self.toplevels@.take(self.toplevels@.len() as int) == self.toplevels@);
        self.toplevels = kept;
    }
}

fn contains_window(windows: &Vec<WindowId>, w: WindowId) -> (r: bool)
    ensures
        r == windows@.contains(w),
{
    for i in 0..windows.len()
        invariant
            forall|j: int| 0 <= j < i ==> windows@[j] != w,
    {
        if windows[i] == w {
            assert(windows@[i as int] == w);
            return true;
        }
    }
    false
}

/// A handle's state carries `activated` exactly for the window holding
/// keyboard focus.
pub fn is_activated(focused: Option<WindowId>, w: WindowId) -> (r: bool)
    ensures
        r == (focused == Some(w)),
{
    match focused {
        Some(f) => f == w,
        None => false,
    }
}

/// The instances other than that of manager object `manager`, in order.
pub open spec fn without_manager(instances: Seq<Instance>, manager: u64) -> Seq<Instance>
    decreases instances.len(),
{
    if instances.len() == 0 {
        seq![]
    } else {
        let rest = without_manager(instances.drop_last(), manager);
        if instances.last().manager_id() == manager {
            rest
        } else {
            rest.push(instances.last())
        }
    }
}

/// Every client's binding of the manager global.
pub struct ForeignToplevelManagerState {
    pub instances: Vec<Instance>,
}

impl ForeignToplevelManagerState {
    pub fn new() -> (s: ForeignToplevelManagerState)
        ensures
            s.instances@.len() == 0,
    {
        ForeignToplevelManagerState { instances: Vec::new() }
    }

    /// Manager object `manager` was destroyed: its client's list goes.
    pub fn manager_destroyed(&mut self, manager: u64)
        ensures
            final(self).instances@ == without_manager(old(self).instances@, manager),
    {
        let mut rest = Vec::new();
        std::mem::swap(&mut rest, &mut self.instances);
        let ghost orig = rest@;
        let n = rest.len();
        let mut i: usize = 0;
        while rest.len() > 0
            invariant
                i + rest@.len() == orig.len(),
                orig.len() == n,
                rest@ == orig.skip(i as int),
                self.instances@ == without_manager(orig.take(i as int), manager),
            decreases rest@.len(),
        {
            let inst = rest.remove(0);
            proof {
                assert(orig[i as int] == inst);
                assert(rest@ == orig.skip(i + 1));
                assert(orig.take(i + 1).drop_last() == orig.take(i as int));
            }
            if inst.manager != manager {
                self.instances.push(inst);
            }
            i = i + 1;
        }
        assert(orig.take(i as int) == orig);
    }

    /// Handle object `resource` was destroyed: it leaves whichever list
    /// holds it.
    pub fn handle_destroyed(&mut self, resource: u64)
        ensures
            final(self).instances@.len() == old(self).instances@.len(),
            forall|k: int| 0 <= k < final(self).instances@.len() ==> {
                &&& (#[trigger] final(self).instances@[k]).manager_id() == old(self).instances@[k].manager_id()
                &&& final(self).instances@[k].handles() == without_handle(old(self).instances@[k].handles(), resource)
            },
    {
        let mut rest = Vec::new();
        std::mem::swap(&mut rest, &mut self.instances);
        let ghost orig = rest@;
        let n = rest.len();
        let mut i: usize = 0;
        while rest.len() > 0
            invariant
                i + rest@.len() == orig.len(),
                orig.len() == n,
                rest@ == orig.skip(i as int),
                self.instances@.len() == i,
                forall|k: int| 0 <= k < i ==> {
                    &&& (#[trigger] self.instances@[k]).manager_id() == orig[k].manager_id()
                    &&& self.instances@[k].handles() == without_handle(orig[k].handles(), resource)
                },
            decreases rest@.len(),
        {
            let mut inst = rest.remove(0);
            proof {
                assert(orig[i as int] == inst);
                assert(rest@ == orig.skip(i + 1));
            }
            inst.handle_destroyed(resource);
            self.instances.push(inst);
            i = i + 1;
        }
    }
}

/// Bringing a client's list up to date keeps exactly the handles of windows
/// still running (in order) and closes the others: each handle is either
/// kept or closed.
pub proof fn law_retain_present_partitions_handles(handles: Seq<ToplevelEntry>, windows: Seq<WindowId>)
    ensures
        forall|k: int| 0 <= k < present_handles(handles, windows).len()
            ==> windows.contains(#[trigger] present_handles(handles, windows)[k].window),
        forall|k: int| 0 <= k < handles.len() && windows.contains(handles[k].window)
            ==> present_handles(handles, windows).contains(#[trigger] handles[k]),
        present_handles(handles, windows).len() + closed_handles(handles, windows).len() == handles.len(),
    decreases handles.len(),
{
    if handles.len() > 0 {
        let d = handles.drop_last();
        law_retain_present_partitions_handles(d, windows);
        let pd = present_handles(d, windows);
        assert forall|k: int| 0 <= k < handles.len() && windows.contains(handles[k].window)
            implies present_handles(handles, windows).contains(#[trigger] handles[k]) by {
            if k < handles.len() - 1 {
                assert(d[k] == handles[k]);
                let j = choose|j: int| 0 <= j < pd.len() && pd[j] == d[k];
                if windows.contains(handles.last().window) {
                    assert(present_handles(handles, windows)[j] == pd[j]);
                }
            } else {
                assert(present_handles(handles, windows).last() == handles[k]);
            }
        }
    }
}

} // verus!
