//! The resolution interface, and its stand-in for repositories without a
//! segmented changelog.

use vstd::prelude::*;
use crate::bundle::clone_data;
use crate::bundle::full_idmap_clone_data;
use crate::bundle::is_boundary_hints;
use crate::bundle::is_full_idmap;
use crate::bundle::is_shape_of;
use crate::bundle::CloneData;
use crate::bundle::StreamCloneData;
use crate::dag::resolve;
use crate::dag::Dag;
use crate::dag::GroupView;
use crate::iddag::next_id;
use crate::types::ChangesetId;
use crate::types::Location;
use crate::types::SegmentedChangelogError;

verus! {

/// What resolving a location gives on a changelog that serves the given
/// group, or serves none because it is disabled.
pub open spec fn resolution(
    group: Option<GroupView>,
    location: Location<ChangesetId>,
    count: u64,
) -> Result<Seq<ChangesetId>, SegmentedChangelogError> {
    match group {
        None => Err(SegmentedChangelogError::NotEnabled),
        Some(g) => resolve(g, location, count),
    }
}

/// The one changeset id of a list that must hold exactly one; a list of any
/// other length is an `UnexpectedResultCount`.
pub open spec fn single_of(
    outcome: Result<Seq<ChangesetId>, SegmentedChangelogError>,
) -> Result<ChangesetId, SegmentedChangelogError> {
    match outcome {
        Ok(ids) => if ids.len() == 1 {
            Ok(ids[0])
        } else {
            Err(SegmentedChangelogError::UnexpectedResultCount)
        },
        Err(e) => Err(e),
    }
}

/// The one changeset id of a list that must hold exactly one.
pub fn single_result(ids: Vec<ChangesetId>) -> (r: Result<ChangesetId, SegmentedChangelogError>)
    ensures
        r == single_of(Ok(ids@)),
{
    if ids.len() == 1 {
        Ok(ids[0])
    } else {
        Err(SegmentedChangelogError::UnexpectedResultCount)
    }
}

/// Resolves a single location through the many-location resolution of the
/// changelog, which must give exactly one changeset id.
pub fn resolve_single<S: SegmentedChangelog>(changelog: &S, location: Location<ChangesetId>) -> (r:
    Result<ChangesetId, SegmentedChangelogError>)
    requires
        changelog.valid(),
    ensures
        r == single_of(resolution(changelog.group(), location, 1)),
{
    match changelog.location_to_many_changeset_ids(location, 1) {
        Ok(ids) => single_result(ids),
        Err(e) => Err(e),
    }
}

/// Resolution of commit graph locations and clone data, as served either by
/// a group or by the stand-in that refuses everything.
pub trait SegmentedChangelog {
    /// The group that is served; `None` when the changelog is disabled.
    spec fn group(&self) -> Option<GroupView>;

    /// The changelog is in a valid state.
    spec fn valid(&self) -> bool;

    /// The changeset id of the commit `location.distance` first-parent steps
    /// behind `location.known`.
    fn location_to_changeset_id(&self, location: Location<ChangesetId>) -> (r: Result<
        ChangesetId,
        SegmentedChangelogError,
    >)
        requires
            self.valid(),
        ensures
            r == single_of(resolution(self.group(), location, 1)),
    ;

    /// The changeset ids of `count` successive commits on the first-parent
    /// chain of `location.known`, starting `location.distance` steps behind
    /// it, nearest first.
    fn location_to_many_changeset_ids(&self, location: Location<ChangesetId>, count: u64) -> (r:
        Result<Vec<ChangesetId>, SegmentedChangelogError>)
        requires
            self.valid(),
        ensures
            match resolution(self.group(), location, count) {
                Ok(ids) => r matches Ok(v) && v@ == ids,
                Err(e) => r matches Err(f) && f == e,
            },
    ;

    /// What a client needs to start its own segmented changelog.
    fn clone_data(&self) -> (r: Result<CloneData<ChangesetId>, SegmentedChangelogError>)
        requires
            self.valid(),
        ensures
            match self.group() {
                None => r matches Err(e) && e == SegmentedChangelogError::NotEnabled,
                Some(g) => {
                    &&& r is Ok <==> next_id(g.segments) > 0
                    &&& r matches Ok(data) ==> is_shape_of(g, data.head_id, data.flat_segments@)
                        && is_boundary_hints(g, data.idmap@)
                    &&& r matches Err(e) ==> e == SegmentedChangelogError::HeadNotFound
                },
            },
    ;

    /// Clone data together with the whole id mapping.
    fn full_idmap_clone_data(&self) -> (r: Result<
        StreamCloneData<ChangesetId>,
        SegmentedChangelogError,
    >)
        requires
            self.valid(),
        ensures
            match self.group() {
                None => r matches Err(e) && e == SegmentedChangelogError::NotEnabled,
                Some(g) => {
                    &&& r is Ok <==> next_id(g.segments) > 0
                    &&& r matches Ok(data) ==> is_shape_of(g, data.head_id, data.flat_segments@)
                        && data.idmap_stream.wf() && is_full_idmap(
                        g,
                        data.idmap_stream.remaining(),
                    )
                    &&& r matches Err(e) ==> e == SegmentedChangelogError::HeadNotFound
                },
            },
    ;
}

impl SegmentedChangelog for Dag {
    open spec fn group(&self) -> Option<GroupView> {
        Some(self@)
    }

    open spec fn valid(&self) -> bool {
        self.wf()
    }

    fn location_to_changeset_id(&self, location: Location<ChangesetId>) -> (r: Result<
        ChangesetId,
        SegmentedChangelogError,
    >) {
        match Dag::location_to_many_changeset_ids(self, location, 1) {
            Ok(ids) => single_result(ids),
            Err(e) => Err(e),
        }
    }

    fn location_to_many_changeset_ids(&self, location: Location<ChangesetId>, count: u64) -> (r:
        Result<Vec<ChangesetId>, SegmentedChangelogError>) {
        Dag::location_to_many_changeset_ids(self, location, count)
    }

    fn clone_data(&self) -> (r: Result<CloneData<ChangesetId>, SegmentedChangelogError>) {
        clone_data(self)
    }

    fn full_idmap_clone_data(&self) -> (r: Result<
        StreamCloneData<ChangesetId>,
        SegmentedChangelogError,
    >) {
        full_idmap_clone_data(self)
    }
}

/// The changelog of a repository for which segmented changelog is turned
/// off: every operation fails with `NotEnabled`.
#[derive(Clone, Copy, Debug)]
pub struct DisabledSegmentedChangelog;

impl DisabledSegmentedChangelog {
    /// The disabled changelog.
    pub fn new() -> (r: Self)
        ensures
            r.group() is None,
            r.valid(),
    {
        DisabledSegmentedChangelog
    }
}

impl SegmentedChangelog for DisabledSegmentedChangelog {
    open spec fn group(&self) -> Option<GroupView> {
        None
    }

    open spec fn valid(&self) -> bool {
        true
    }

    fn location_to_changeset_id(&self, location: Location<ChangesetId>) -> (r: Result<
        ChangesetId,
        SegmentedChangelogError,
    >) {
        match self.location_to_many_changeset_ids(location, 1) {
            Ok(ids) => single_result(ids),
            Err(e) => Err(e),
        }
    }

    fn location_to_many_changeset_ids(&self, location: Location<ChangesetId>, count: u64) -> (r:
        Result<Vec<ChangesetId>, SegmentedChangelogError>) {
        Err(SegmentedChangelogError::NotEnabled)
    }

    fn clone_data(&self) -> (r: Result<CloneData<ChangesetId>, SegmentedChangelogError>) {
        Err(SegmentedChangelogError::NotEnabled)
    }

    fn full_idmap_clone_data(&self) -> (r: Result<
        StreamCloneData<ChangesetId>,
        SegmentedChangelogError,
    >) {
        Err(SegmentedChangelogError::NotEnabled)
    }
}

} // verus!
