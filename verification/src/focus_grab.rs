//! Single-surface focus grabs: a client asks that a surface keep input to
//! itself until a click or key press lands anywhere else, at which point the
//! grab clears and the client is told.
//!
//! Surfaces and protocol objects are identified by the ids the compositor
//! gives them. Only surface identity is compared: a grabbed surface's popups
//! do not count as inside it.

use vstd::prelude::*;

verus! {

/// Global data for the focus-grab manager global (nothing to carry).
pub struct ManagerGlobalData;

/// User data of a bound manager object (nothing to carry).
pub struct ManagerToken;

/// User data of a grab object (nothing to carry).
pub struct GrabToken;

/// One active grab: the surface it is limited to, and the grab object to
/// notify when it clears.
#[derive(Clone, Copy, Debug, PartialEq, Eq, Structural)]
pub struct GrabEntry {
    pub surface: u64,
    pub resource: u64,
}

/// The grabs that survive input landing on `focused`, in order: those on
/// exactly that surface.
pub open spec fn kept_grabs(grabs: Seq<GrabEntry>, focused: Option<u64>) -> Seq<GrabEntry>
    decreases grabs.len(),
{
    if grabs.len() == 0 {
        seq![]
    } else {
        let rest = kept_grabs(grabs.drop_last(), focused);
        if focused == Some(grabs.last().surface) {
            rest.push(grabs.last())
        } else {
            rest
        }
    }
}

/// The grab objects cleared by input landing on `focused`, in order.
pub open spec fn cleared_grabs(grabs: Seq<GrabEntry>, focused: Option<u64>) -> Seq<u64>
    decreases grabs.len(),
{
    if grabs.len() == 0 {
        seq![]
    } else {
        let rest = cleared_grabs(grabs.drop_last(), focused);
        if focused == Some(grabs.last().surface) {
            rest
        } else {
            rest.push(grabs.last().resource)
        }
    }
}

/// The grabs other than those of grab object `resource`, in order.
pub open spec fn without_resource(grabs: Seq<GrabEntry>, resource: u64) -> Seq<GrabEntry>
    decreases grabs.len(),
{
    if grabs.len() == 0 {
        seq![]
    } else {
        let rest = without_resource(grabs.drop_last(), resource);
        if grabs.last().resource == resource {
            rest
        } else {
            rest.push(grabs.last())
        }
    }
}

/// Every grab currently active, across every client.
pub struct FocusGrabManagerState {
    grabs: Vec<GrabEntry>,
}

impl FocusGrabManagerState {
    pub closed spec fn grabs(&self) -> Seq<GrabEntry> {
        self.grabs@
    }

    pub fn new() -> (s: FocusGrabManagerState)
        ensures
            s.grabs() == Seq::<GrabEntry>::empty(),
    {
        FocusGrabManagerState { grabs: Vec::new() }
    }

    /// A client grabbed `surface` through grab object `resource`.
    pub fn grab(&mut self, surface: u64, resource: u64)
        ensures
            final(self).grabs() == old(self).grabs().push(GrabEntry { surface, resource }),
    {
        self.grabs.push(GrabEntry { surface, resource });
    }

    /// Grab object `resource` was destroyed: its grab ends without notice.
    pub fn destroyed(&mut self, resource: u64)
        ensures
            final(self).grabs() == without_resource(old(self).grabs(), resource),
    {
        let mut kept: Vec<GrabEntry> = Vec::new();
        for i in 0..self.grabs.len()
            invariant
                kept@ == without_resource(self.grabs@.take(i as int), resource),
        {
            proof {
                assert(self.grabs@.take(i + 1).drop_last() == self.grabs@.take(i as int));
            }
            if self.grabs[i].resource != resource {
                kept.push(self.grabs[i]);
            }
        }
        assert(self.grabs@.take(self.grabs@.len() as int) == self.grabs@);
        self.grabs = kept;
    }
}

/// Input landed on `focused` (`None`: on no client surface at all). Clears
/// every grab whose surface is not `focused` and returns the grab objects
/// to notify, in order; the grabs on `focused` stay.
pub fn check(state: &mut FocusGrabManagerState, focused: Option<u64>) -> (cleared: Vec<u64>)
    ensures
        final(state).grabs() == kept_grabs(old(state).grabs(), focused),
        cleared@ == cleared_grabs(old(state).grabs(), focused),
{
    let mut kept: Vec<GrabEntry> = Vec::new();
    let mut cleared: Vec<u64> = Vec::new();
    for i in 0..state.grabs.len()
        invariant
            kept@ == kept_grabs(state.grabs@.take(i as int), focused),
            cleared@ == cleared_grabs(state.grabs@.take(i as int), focused),
    {
        proof {
            assert(state.grabs@.take(i + 1).drop_last() == state.grabs@.take(i as int));
        }
        let entry = state.grabs[i];
        let inside = match focused {
            Some(s) => s == entry.surface,
            None => false,
        };
        if inside {
            kept.push(entry);
        } else {
            cleared.push(entry.resource);
        }
    }
    assert(state.grabs@.take(state.grabs@.len() as int) == state.grabs@);
    state.grabs = kept;
    cleared
}

/// After a check, every grab left is on the surface the input landed on,
/// every grab on it is left, and each grab is either kept or cleared: the
/// count of kept and cleared grabs adds up to the grabs before.
pub proof fn law_check_partitions_grabs(grabs: Seq<GrabEntry>, focused: Option<u64>)
    ensures
        forall|k: int| 0 <= k < kept_grabs(grabs, focused).len()
            ==> focused == Some(#[trigger] kept_grabs(grabs, focused)[k].surface),
        forall|k: int| 0 <= k < grabs.len() && focused == Some(grabs[k].surface)
            ==> kept_grabs(grabs, focused).contains(#[trigger] grabs[k]),
        kept_grabs(grabs, focused).len() + cleared_grabs(grabs, focused).len() == grabs.len(),
    decreases grabs.len(),
{
    if grabs.len() > 0 {
        let d = grabs.drop_last();
        law_check_partitions_grabs(d, focused);
        let kd = kept_grabs(d, focused);
        assert forall|k: int| 0 <= k < grabs.len() && focused == Some(grabs[k].surface)
            implies kept_grabs(grabs, focused).contains(#[trigger] grabs[k]) by {
            if k < grabs.len() - 1 {
                assert(d[k] == grabs[k]);
                let j = choose|j: int| 0 <= j < kd.len() && kd[j] == d[k];
                if focused == Some(grabs.last().surface) {
                    assert(kept_grabs(grabs, focused)[j] == kd[j]);
                }
            } else {
                assert(kept_grabs(grabs, focused).last() == grabs[k]);
            }
        }
    }
}

/// A second check with the same focus clears nothing more: the grabs that
/// survived are all on the focused surface.
pub proof fn law_check_is_idempotent(grabs: Seq<GrabEntry>, focused: Option<u64>)
    ensures
        kept_grabs(kept_grabs(grabs, focused), focused) == kept_grabs(grabs, focused),
        cleared_grabs(kept_grabs(grabs, focused), focused).len() == 0,
{
    law_check_partitions_grabs(grabs, focused);
    lemma_all_kept(kept_grabs(grabs, focused), focused);
}

proof fn lemma_all_kept(grabs: Seq<GrabEntry>, focused: Option<u64>)
    requires
        forall|k: int| 0 <= k < grabs.len() ==> focused == Some(#[trigger] grabs[k].surface),
    ensures
        kept_grabs(grabs, focused) == grabs,
        cleared_grabs(grabs, focused).len() == 0,
    decreases grabs.len(),
{
    if grabs.len() > 0 {
        let d = grabs.drop_last();
        assert forall|k: int| 0 <= k < d.len() implies focused == Some(#[trigger] d[k].surface) by {
            assert(d[k] == grabs[k]);
        }
        lemma_all_kept(d, focused);
        assert(focused == Some(grabs[grabs.len() - 1].surface));
        assert(d.push(grabs.last()) == grabs);
    }
}

} // verus!
