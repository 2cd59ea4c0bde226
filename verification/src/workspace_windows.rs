//! Bookkeeping for the workspace-windows list: which client objects are
//! bound, each of which is sent every window's output, workspace, title and
//! app id whenever one of those changes.

use vstd::prelude::*;

verus! {

/// Global data of the workspace-windows global, also the user data of each
/// bound object (nothing to carry).
pub struct GlobalData;

/// The bound workspace-windows objects, by the compositor's ids.
pub struct WorkspaceWindowsState {
    instances: Vec<u64>,
}

impl WorkspaceWindowsState {
    pub closed spec fn instances(&self) -> Seq<u64> {
        self.instances@
    }

    pub fn new() -> (s: WorkspaceWindowsState)
        ensures
            s.instances() == Seq::<u64>::empty(),
    {
        WorkspaceWindowsState { instances: Vec::new() }
    }

    /// A client bound the global as object `instance`; it has been sent the
    /// current list.
    pub fn bind(&mut self, instance: u64)
        ensures
            final(self).instances() == old(self).instances().push(instance),
    {
        self.instances.push(instance);
    }

    /// The objects to send the list to, in binding order.
    pub fn bound(&self) -> (r: Vec<u64>)
        ensures
            r@ == self.instances(),
    {
        let mut r: Vec<u64> = Vec::new();
        for i in 0..self.instances.len()
            invariant
                r@ == self.instances@.take(i as int),
        {
            r.push(self.instances[i]);
            assert(self.instances@.take(i + 1) == self.instances@.take(i as int).push(self.instances@[i as int]));
        }
        assert(self.instances@.take(self.instances@.len() as int) == self.instances@);
        r
    }

    /// Object `instance` was destroyed.
    pub fn destroyed(&mut self, instance: u64)
        ensures
            final(self).instances() == without_instance(old(self).instances(), instance),
    {
        let mut kept: Vec<u64> = Vec::new();
        for i in 0..self.instances.len()
            invariant
                kept@ == without_instance(self.instances@.take(i as int), instance),
        {
            proof {
                assert(self.instances@.take(i + 1).drop_last() == self.instances@.take(i as int));
            }
            if self.instances[i] != instance {
                kept.push(self.instances[i]);
            }
        }
        assert(self.instances@.take(self.instances@.len() as int) == self.instances@);
        self.instances = kept;
    }
}

/// The bound objects other than `instance`, in order.
pub open spec fn without_instance(instances: Seq<u64>, instance: u64) -> Seq<u64>
    decreases instances.len(),
{
    if instances.len() == 0 {
        seq![]
    } else {
        let rest = without_instance(instances.drop_last(), instance);
        if instances.last() == instance {
            rest
        } else {
            rest.push(instances.last())
        }
    }
}

} // verus!
