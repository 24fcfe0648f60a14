//! The holder of the current group.

use std::sync::Arc;
use vstd::prelude::*;
use crate::dag::resolve;
use crate::dag::Dag;
use crate::dag::GroupView;
use crate::types::ChangesetId;
use crate::types::Location;
use crate::types::SegmentedChangelogError;

verus! {

/// Another handle to the value that `handle` shares.
///
/// Calls `Arc::clone`, which gives a second pointer to the same allocation:
/// the value seen through the result is the value seen through `handle`.
#[verifier::external_body]
fn share(handle: &Arc<Dag>) -> (r: Arc<Dag>)
    ensures
        r == *handle,
{
    Arc::clone(handle)
}

/// Holds at most one current group and hands out shared, immutable handles to
/// it. Publishing swaps the group for another; handles taken before keep the
/// group they were taken from.
#[derive(Debug)]
pub struct Manager {
    current: Option<Arc<Dag>>,
    building: bool,
}

impl Manager {
    /// The group that is current, if one has been published.
    pub closed spec fn snapshot(&self) -> Option<GroupView> {
        match self.current {
            Some(handle) => Some(handle@),
            None => None,
        }
    }

    /// A writer holds the mutation path.
    pub closed spec fn is_building(&self) -> bool {
        self.building
    }

    /// The current group, if any, is valid.
    pub closed spec fn wf(&self) -> bool {
        self.current matches Some(handle) ==> handle.wf()
    }

    /// A manager without a current group.
    pub fn new() -> (r: Self)
        ensures
            r.wf(),
            r.snapshot() is None,
            !r.is_building(),
    {
        Manager { current: None, building: false }
    }

    /// A handle to the current group; `None` before the first publish.
    pub fn current(&self) -> (r: Option<Arc<Dag>>)
        requires
            self.wf(),
        ensures
            r is Some <==> self.snapshot() is Some,
            r matches Some(handle) ==> handle.wf() && Some(handle@) == self.snapshot(),
    {
        match &self.current {
            Some(handle) => Some(share(handle)),
            None => None,
        }
    }

    /// Makes `new_snapshot` the current group.
    pub fn publish(&mut self, new_snapshot: Dag)
        requires
            old(self).wf(),
            new_snapshot.wf(),
        ensures
            final(self).wf(),
            final(self).snapshot() == Some(new_snapshot@),
            final(self).is_building() == old(self).is_building(),
    {
        self.current = Some(Arc::new(new_snapshot));
    }

    /// Takes the mutation path for one writer. While it is taken, a second
    /// writer is refused with `BuildInProgress`.
    pub fn begin_build(&mut self) -> (r: Result<(), SegmentedChangelogError>)
        requires
            old(self).wf(),
        ensures
            final(self).wf(),
            final(self).snapshot() == old(self).snapshot(),
            final(self).is_building(),
            r is Ok <==> !old(self).is_building(),
            r matches Err(e) ==> e == SegmentedChangelogError::BuildInProgress,
    {
        if self.building {
            Err(SegmentedChangelogError::BuildInProgress)
        } else {
            self.building = true;
            Ok(())
        }
    }

    /// Gives the mutation path back.
    pub fn finish_build(&mut self)
        requires
            old(self).wf(),
        ensures
            final(self).wf(),
            final(self).snapshot() == old(self).snapshot(),
            !final(self).is_building(),
    {
        self.building = false;
    }
}

/// A handle taken from a manager keeps answering for the group it was taken
/// from, whatever group the manager holds after a later publish.
pub proof fn lemma_snapshot_isolation(
    before: Manager,
    handle: Dag,
    after: Manager,
    published: GroupView,
    location: Location<ChangesetId>,
    count: u64,
)
    requires
        before.snapshot() == Some(handle@),
        after.snapshot() == Some(published),
    ensures
        resolve(handle@, location, count) == resolve(before.snapshot()->0, location, count),
{
}

} // verus!
