//! One group: the id mapping and the ancestry graph over one dense id space.

use vstd::prelude::*;
use crate::iddag::appended;
use crate::iddag::first_ancestor;
use crate::iddag::lemma_appended;
use crate::iddag::lemma_appended_keeps_walks;
use crate::iddag::lemma_first_ancestor_assigned;
use crate::iddag::lemma_first_ancestor_split;
use crate::iddag::next_id;
use crate::iddag::segments_wf;
use crate::iddag::IdDag;
use crate::idmap::injective;
use crate::idmap::is_mapped;
use crate::idmap::lemma_vertex_of_unique;
use crate::idmap::vertex_of;
use crate::idmap::IdMap;
use crate::types::ChangesetId;
use crate::types::CommitEntry;
use crate::types::CommitView;
use crate::types::commit_views;
use crate::types::Location;
use crate::types::SegmentView;
use crate::types::SegmentedChangelogError;
use crate::types::Vertex;

verus! {

/// What a group holds, as mathematical values: which changeset id sits on
/// which vertex, and the flat segments.
pub struct GroupView {
    pub ids: Map<u64, ChangesetId>,
    pub segments: Seq<SegmentView>,
}

/// The group without commits.
pub open spec fn empty_group() -> GroupView {
    GroupView { ids: Map::empty(), segments: Seq::empty() }
}

/// The group is valid: the segments are valid, the mapping is one-to-one, and
/// the mapped vertices are exactly the assigned ones.
pub open spec fn group_wf(g: GroupView) -> bool {
    &&& segments_wf(g.segments)
    &&& injective(g.ids)
    &&& forall|v: u64| #[trigger] g.ids.dom().contains(v) <==> v < next_id(g.segments)
}

/// Every listed changeset id is mapped.
pub open spec fn all_mapped(ids: Map<u64, ChangesetId>, list: Seq<ChangesetId>) -> bool {
    forall|k: int| 0 <= k < list.len() ==> is_mapped(ids, #[trigger] list[k])
}

/// The vertices of the listed changeset ids, in the order of the list.
pub open spec fn vertices_of(ids: Map<u64, ChangesetId>, list: Seq<ChangesetId>) -> Seq<u64> {
    Seq::new(list.len(), |k: int| vertex_of(ids, list[k])->0)
}

/// The group after one commit was given the next vertex id.
///
/// A commit that is already mapped is refused as `Inconsistent`, one with a
/// parent that is not mapped as `GraphInconsistent`, and one for which no id
/// is left as `VertexSpaceExhausted`, in that order.
pub open spec fn add_commit(g: GroupView, c: CommitView) -> Result<
    GroupView,
    SegmentedChangelogError,
> {
    if is_mapped(g.ids, c.id) {
        Err(SegmentedChangelogError::Inconsistent)
    } else if !all_mapped(g.ids, c.parents) {
        Err(SegmentedChangelogError::GraphInconsistent)
    } else if next_id(g.segments) >= u64::MAX {
        Err(SegmentedChangelogError::VertexSpaceExhausted)
    } else {
        Ok(
            GroupView {
                ids: g.ids.insert(next_id(g.segments) as u64, c.id),
                segments: appended(g.segments, vertices_of(g.ids, c.parents)),
            },
        )
    }
}

/// The group after the commits of a batch were given vertex ids in the order
/// of the batch; the first commit that is refused decides the failure.
pub open spec fn add_commits(g: GroupView, batch: Seq<CommitView>) -> Result<
    GroupView,
    SegmentedChangelogError,
>
    decreases batch.len(),
{
    if batch.len() == 0 {
        Ok(g)
    } else {
        match add_commits(g, batch.drop_last()) {
            Ok(h) => add_commit(h, batch.last()),
            Err(e) => Err(e),
        }
    }
}

/// Adding a commit to a valid group gives a valid group in which the commit
/// sits on the next vertex and everything mapped before is mapped as before.
pub proof fn lemma_add_commit(g: GroupView, c: CommitView)
    requires
        group_wf(g),
        add_commit(g, c) is Ok,
    ensures
        group_wf(add_commit(g, c)->Ok_0),
        next_id(add_commit(g, c)->Ok_0.segments) == next_id(g.segments) + 1,
        vertex_of(add_commit(g, c)->Ok_0.ids, c.id) == Some(next_id(g.segments) as u64),
        forall|cs: ChangesetId|
            is_mapped(g.ids, cs) ==> vertex_of(add_commit(g, c)->Ok_0.ids, cs) == vertex_of(
                g.ids,
                cs,
            ),
        forall|cs: ChangesetId|
            is_mapped(add_commit(g, c)->Ok_0.ids, cs) ==> cs == c.id || is_mapped(g.ids, cs),
{
    let h = add_commit(g, c)->Ok_0;
    let v = next_id(g.segments) as u64;
    let parents = vertices_of(g.ids, c.parents);
    assert forall|k: int| 0 <= k < parents.len() implies (#[trigger] parents[k]) < next_id(
        g.segments,
    ) by {
        assert(is_mapped(g.ids, c.parents[k]));
        let u = vertex_of(g.ids, c.parents[k])->0;
        assert(g.ids.dom().contains(u));
    }
    lemma_appended(g.segments, parents);
    assert(!g.ids.dom().contains(v));
    assert forall|a: u64, b: u64|
        h.ids.dom().contains(a) && h.ids.dom().contains(b) && h.ids[a] == h.ids[b] implies a
        == b by {
        if a == v && b != v {
            assert(g.ids.dom().contains(b) && g.ids[b] == c.id);
        } else if b == v && a != v {
            assert(g.ids.dom().contains(a) && g.ids[a] == c.id);
        }
    }
    assert forall|u: u64| #[trigger] h.ids.dom().contains(u) <==> u < next_id(h.segments) by {
        if u != v {
            assert(g.ids.dom().contains(u) <==> u < next_id(g.segments));
        }
    }
    assert(h.ids.dom().contains(v) && h.ids[v] == c.id);
    lemma_vertex_of_unique(h.ids, v);
    assert forall|cs: ChangesetId| is_mapped(g.ids, cs) implies vertex_of(h.ids, cs) == vertex_of(
        g.ids,
        cs,
    ) by {
        let u = vertex_of(g.ids, cs)->0;
        assert(h.ids.dom().contains(u) && h.ids[u] == cs);
        lemma_vertex_of_unique(h.ids, u);
    }
    assert forall|cs: ChangesetId| is_mapped(h.ids, cs) implies cs == c.id || is_mapped(
        g.ids,
        cs,
    ) by {
        let u = vertex_of(h.ids, cs)->0;
        if u != v {
            assert(g.ids.dom().contains(u) && g.ids[u] == cs);
        }
    }
}

/// Adding a batch to a valid group gives a valid group that holds one more
/// vertex per commit, maps every commit of the batch, and maps everything
/// mapped before as before.
pub proof fn lemma_add_commits(g: GroupView, batch: Seq<CommitView>)
    requires
        group_wf(g),
        add_commits(g, batch) is Ok,
    ensures
        group_wf(add_commits(g, batch)->Ok_0),
        next_id(add_commits(g, batch)->Ok_0.segments) == next_id(g.segments) + batch.len(),
        forall|i: int|
            0 <= i < batch.len() ==> vertex_of(
                add_commits(g, batch)->Ok_0.ids,
                (#[trigger] batch[i]).id,
            ) == Some((next_id(g.segments) + i) as u64),
        forall|cs: ChangesetId|
            is_mapped(g.ids, cs) ==> vertex_of(add_commits(g, batch)->Ok_0.ids, cs) == vertex_of(
                g.ids,
                cs,
            ),
        forall|cs: ChangesetId|
            is_mapped(add_commits(g, batch)->Ok_0.ids, cs) ==> is_mapped(g.ids, cs) || exists|
                i: int,
            |
                0 <= i < batch.len() && (#[trigger] batch[i]).id == cs,
    decreases batch.len(),
{
    if batch.len() > 0 {
        let front = batch.drop_last();
        let h = add_commits(g, front)->Ok_0;
        lemma_add_commits(g, front);
        lemma_add_commit(h, batch.last());
        let out = add_commits(g, batch)->Ok_0;
        assert forall|i: int| 0 <= i < batch.len() implies vertex_of(
            out.ids,
            (#[trigger] batch[i]).id,
        ) == Some((next_id(g.segments) + i) as u64) by {
            if i < front.len() {
                assert(front[i] == batch[i]);
                assert(is_mapped(h.ids, front[i].id));
            }
        }
        assert forall|cs: ChangesetId| is_mapped(g.ids, cs) implies vertex_of(out.ids, cs)
            == vertex_of(g.ids, cs) by {
            assert(is_mapped(h.ids, cs));
        }
        assert forall|cs: ChangesetId| is_mapped(out.ids, cs) implies is_mapped(g.ids, cs)
            || exists|i: int| 0 <= i < batch.len() && (#[trigger] batch[i]).id == cs by {
            if cs == batch.last().id {
                assert(batch[batch.len() - 1].id == cs);
            } else if !is_mapped(g.ids, cs) {
                let i = choose|i: int| 0 <= i < front.len() && (#[trigger] front[i]).id == cs;
                assert(batch[i].id == cs);
            }
        }
    }
}

/// What resolving a location gives: the changeset ids of `count` successive
/// commits on the first-parent chain of `location.known`, starting
/// `location.distance` steps behind it, nearest first.
///
/// The resolution fails with `HeadNotFound` when `location.known` is not
/// mapped, and when the chain ends before `count` commits were collected. A
/// `count` of zero gives the empty list for every mapped `location.known`.
pub open spec fn resolve(g: GroupView, location: Location<ChangesetId>, count: u64) -> Result<
    Seq<ChangesetId>,
    SegmentedChangelogError,
> {
    match vertex_of(g.ids, location.known) {
        None => Err(SegmentedChangelogError::HeadNotFound),
        Some(start) => if count == 0 {
            Ok(Seq::empty())
        } else if first_ancestor(g.segments, start, (location.distance + count - 1) as nat)
            is None {
            Err(SegmentedChangelogError::HeadNotFound)
        } else {
            Ok(
                Seq::new(
                    count as nat,
                    |i: int|
                        g.ids[first_ancestor(
                            g.segments,
                            start,
                            (location.distance + i) as nat,
                        )->0],
                ),
            )
        },
    }
}

/// Extending a group by one commit leaves every resolution that succeeded
/// before as it was.
pub proof fn lemma_add_commit_keeps_answers(
    g: GroupView,
    c: CommitView,
    location: Location<ChangesetId>,
    count: u64,
)
    requires
        group_wf(g),
        add_commit(g, c) is Ok,
        resolve(g, location, count) is Ok,
    ensures
        resolve(add_commit(g, c)->Ok_0, location, count) == resolve(g, location, count),
{
    let h = add_commit(g, c)->Ok_0;
    lemma_add_commit(g, c);
    let start = vertex_of(g.ids, location.known)->0;
    assert(is_mapped(g.ids, location.known));
    assert(vertex_of(h.ids, location.known) == Some(start));
    if count > 0 {
        let d = location.distance as nat;
        let parents = vertices_of(g.ids, c.parents);
        assert forall|k: int| 0 <= k < parents.len() implies (#[trigger] parents[k]) < next_id(
            g.segments,
        ) by {
            assert(is_mapped(g.ids, c.parents[k]));
            assert(g.ids.dom().contains(vertex_of(g.ids, c.parents[k])->0));
        }
        assert(g.ids.dom().contains(start));
        lemma_appended_keeps_walks(g.segments, parents, start, (d + count - 1) as nat);
        let before = resolve(g, location, count)->Ok_0;
        let after = resolve(h, location, count)->Ok_0;
        assert forall|i: int| 0 <= i < count implies before[i] == after[i] by {
            lemma_first_ancestor_split(g.segments, start, (d + i) as nat, (count - 1 - i) as nat);
            assert(((d + i) as nat + (count - 1 - i) as nat) as nat == (d + count - 1) as nat);
            lemma_first_ancestor_assigned(g.segments, start, (d + i) as nat);
            lemma_appended_keeps_walks(g.segments, parents, start, (d + i) as nat);
            let u = first_ancestor(g.segments, start, (d + i) as nat)->0;
            assert(g.ids.dom().contains(u));
        }
        assert(before =~= after);
    }
}

/// Extending a group leaves every resolution that succeeded before as it
/// was: what a client was told about a commit stays true as the group grows.
pub proof fn lemma_extension_keeps_answers(
    g: GroupView,
    batch: Seq<CommitView>,
    location: Location<ChangesetId>,
    count: u64,
)
    requires
        group_wf(g),
        add_commits(g, batch) is Ok,
        resolve(g, location, count) is Ok,
    ensures
        resolve(add_commits(g, batch)->Ok_0, location, count) == resolve(g, location, count),
    decreases batch.len(),
{
    if batch.len() > 0 {
        let front = batch.drop_last();
        lemma_extension_keeps_answers(g, front, location, count);
        lemma_add_commits(g, front);
        lemma_add_commit_keeps_answers(add_commits(g, front)->Ok_0, batch.last(), location, count);
    }
}

/// One group: an id mapping and an ancestry graph over the same vertices.
#[derive(Debug)]
pub struct Dag {
    idmap: IdMap,
    iddag: IdDag,
}

impl View for Dag {
    type V = GroupView;

    closed spec fn view(&self) -> GroupView {
        GroupView { ids: self.idmap@, segments: self.iddag@ }
    }
}

impl Dag {
    /// The representation of the id mapping is sound.
    pub closed spec fn inv(&self) -> bool {
        self.idmap.inv()
    }

    /// The group is valid.
    pub open spec fn wf(&self) -> bool {
        &&& self.inv()
        &&& group_wf(self@)
    }

    /// A group without commits.
    pub fn new() -> (r: Self)
        ensures
            r.wf(),
            r@ == empty_group(),
    {
        Dag { idmap: IdMap::new(), iddag: IdDag::new() }
    }

    /// The id mapping of the group.
    pub fn idmap(&self) -> (r: &IdMap)
        requires
            self.wf(),
        ensures
            r.wf(),
            r@ == self@.ids,
    {
        &self.idmap
    }

    /// The ancestry graph of the group.
    pub fn iddag(&self) -> (r: &IdDag)
        requires
            self.wf(),
        ensures
            r.wf(),
            r@ == self@.segments,
    {
        &self.iddag
    }

    /// A copy of the group.
    pub fn duplicate(&self) -> (r: Self)
        ensures
            r@ == self@,
            r.wf() == self.wf(),
    {
        Dag { idmap: self.idmap.duplicate(), iddag: self.iddag.duplicate() }
    }

    /// The vertex assigned last, which is the head of the group; `None` for
    /// a group without commits.
    pub fn head(&self) -> (r: Option<Vertex>)
        requires
            self.wf(),
        ensures
            r == (if next_id(self@.segments) == 0 {
                None
            } else {
                Some((next_id(self@.segments) - 1) as u64)
            }),
    {
        let next: Vertex = self.iddag.next_id();
        if next == 0 {
            None
        } else {
            Some(next - 1)
        }
    }

    /// Gives the commit the next vertex id and returns that id.
    ///
    /// On failure the group is left as it was.
    pub fn add_commit(&mut self, entry: &CommitEntry) -> (r: Result<
        Vertex,
        SegmentedChangelogError,
    >)
        requires
            old(self).wf(),
        ensures
            final(self).wf(),
            match add_commit(old(self)@, entry@) {
                Ok(g) => r == Ok::<Vertex, SegmentedChangelogError>(
                    next_id(old(self)@.segments) as u64,
                ) && final(self)@ == g,
                Err(e) => r == Err::<Vertex, SegmentedChangelogError>(e) && final(self)@ == old(
                    self,
                )@,
            },
    {
        if self.idmap.find_vertex(entry.id).is_some() {
            return Err(SegmentedChangelogError::Inconsistent);
        }
        let mut parents: Vec<Vertex> = Vec::new();
        let mut k: usize = 0;
        while k < entry.parents.len()
            invariant
                self.wf(),
                self@ == old(self)@,
                !is_mapped(self@.ids, entry.id),
                k <= entry.parents@.len(),
                parents@.len() == k,
                forall|i: int| 0 <= i < k ==> is_mapped(self@.ids, #[trigger] entry.parents@[i]),
                forall|i: int|
                    0 <= i < k ==> (#[trigger] parents@[i]) == vertex_of(
                        self@.ids,
                        entry.parents@[i],
                    )->0,
            decreases entry.parents@.len() - k,
        {
            match self.idmap.find_vertex(entry.parents[k]) {
                Some(v) => {
                    parents.push(v);
                },
                None => {
                    assert(!is_mapped(self@.ids, entry@.parents[k as int]));
                    return Err(SegmentedChangelogError::GraphInconsistent);
                },
            }
            k += 1;
        }
        assert(parents@ =~= vertices_of(self@.ids, entry@.parents));
        proof {
            assert forall|i: int| 0 <= i < parents@.len() implies parents@[i] < next_id(
                self@.segments,
            ) by {
                assert(is_mapped(self@.ids, entry.parents@[i]));
                assert(self@.ids.dom().contains(parents@[i]));
            }
        }
        match self.iddag.append(&parents) {
            Ok(v) => {
                assert(!self@.ids.dom().contains(v));
                let inserted = self.idmap.insert(entry.id, v);
                proof {
                    assert(inserted is Ok);
                    lemma_add_commit(old(self)@, entry@);
                }
                Ok(v)
            },
            Err(e) => {
                Err(e)
            },
        }
    }

    /// The group extended by the commits of a batch, each given the next
    /// vertex id in the order of the batch. The group itself is not changed.
    pub fn extended(&self, batch: &Vec<CommitEntry>) -> (r: Result<Dag, SegmentedChangelogError>)
        requires
            self.wf(),
        ensures
            match add_commits(self@, commit_views(batch@)) {
                Ok(g) => r matches Ok(dag) && dag@ == g && dag.wf(),
                Err(e) => r matches Err(f) && f == e,
            },
    {
        let mut work: Dag = self.duplicate();
        let ghost views = commit_views(batch@);
        let mut i: usize = 0;
        while i < batch.len()
            invariant
                i <= batch@.len(),
                views == commit_views(batch@),
                work.wf(),
                add_commits(self@, views.take(i as int)) == Ok::<GroupView, SegmentedChangelogError>(
                    work@,
                ),
            decreases batch@.len() - i,
        {
            proof {
                assert(views.take(i + 1).drop_last() =~= views.take(i as int));
                assert(views.take(i + 1).last() == batch@[i as int]@);
                lemma_failure_is_final(self@, views, i + 1);
            }
            match work.add_commit(&batch[i]) {
                Ok(_) => {},
                Err(e) => {
                    return Err(e);
                },
            }
            i += 1;
        }
        assert(views.take(i as int) =~= views);
        Ok(work)
    }

    /// The changeset ids of `count` successive commits on the first-parent
    /// chain of `location.known`, starting `location.distance` steps behind
    /// it, nearest first.
    pub fn location_to_many_changeset_ids(
        &self,
        location: Location<ChangesetId>,
        count: u64,
    ) -> (r: Result<Vec<ChangesetId>, SegmentedChangelogError>)
        requires
            self.wf(),
        ensures
            match resolve(self@, location, count) {
                Ok(ids) => r matches Ok(v) && v@ == ids,
                Err(e) => r matches Err(f) && f == e,
            },
    {
        let start: Vertex = match self.idmap.find_vertex(location.known) {
            Some(v) => v,
            None => {
                return Err(SegmentedChangelogError::HeadNotFound);
            },
        };
        let mut out: Vec<ChangesetId> = Vec::new();
        if count == 0 {
            assert(out@ =~= Seq::<ChangesetId>::empty());
            return Ok(out);
        }
        let ghost segs = self@.segments;
        let ghost ids = self@.ids;
        let ghost d = location.distance as nat;
        proof {
            lemma_first_ancestor_split(segs, start, d, (count - 1) as nat);
        }
        let mut v: Vertex = match self.iddag.distance(start, location.distance) {
            Some(v) => v,
            None => {
                return Err(SegmentedChangelogError::HeadNotFound);
            },
        };
        let mut i: u64 = 0;
        loop
            invariant
                self.wf(),
                segs == self@.segments,
                ids == self@.ids,
                d == location.distance,
                vertex_of(ids, location.known) == Some(start),
                i < count,
                first_ancestor(segs, start, (d + i) as nat) == Some(v),
                out@.len() == i,
                forall|k: int|
                    0 <= k < i ==> (#[trigger] out@[k]) == ids[first_ancestor(
                        segs,
                        start,
                        (d + k) as nat,
                    )->0],
            decreases count - i,
        {
            proof {
                lemma_first_ancestor_assigned(segs, start, (d + i) as nat);
            }
            match self.idmap.find_changeset_id(v) {
                Some(cs) => {
                    out.push(cs);
                },
                None => {
                    assert(false);
                    return Err(SegmentedChangelogError::Inconsistent);
                },
            }
            i += 1;
            if i == count {
                proof {
                    assert(first_ancestor(segs, start, (d + count - 1) as nat) is Some);
                    assert(out@ =~= resolve(self@, location, count)->Ok_0);
                }
                return Ok(out);
            }
            proof {
                lemma_first_ancestor_split(segs, start, (d + i - 1) as nat, 1);
                lemma_first_ancestor_split(segs, start, (d + i) as nat, (count - 1 - i) as nat);
                assert((d + i + (count - 1 - i)) as nat == (d + count - 1) as nat);
            }
            match self.iddag.distance(v, 1) {
                Some(p) => {
                    v = p;
                },
                None => {
                    return Err(SegmentedChangelogError::HeadNotFound);
                },
            }
        }
    }
}

/// Once a prefix of a batch is refused, the whole batch is refused with the
/// same failure.
pub proof fn lemma_failure_is_final(g: GroupView, batch: Seq<CommitView>, n: int)
    requires
        0 <= n <= batch.len(),
    ensures
        add_commits(g, batch.take(n)) matches Err(e) ==> add_commits(g, batch) == Err::<
            GroupView,
            SegmentedChangelogError,
        >(e),
    decreases batch.len() - n,
{
    if n < batch.len() {
        assert(batch.take(n + 1).drop_last() =~= batch.take(n));
        lemma_failure_is_final(g, batch, n + 1);
    } else {
        assert(batch.take(n) =~= batch);
    }
}

} // verus!
