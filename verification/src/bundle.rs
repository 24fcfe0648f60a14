//! Clone data: a snapshot of a group that a client can start from.

use vstd::prelude::*;
use crate::dag::group_wf;
use crate::dag::Dag;
use crate::dag::GroupView;
use crate::iddag::first_ancestor;
use crate::iddag::is_ancestor_of;
use crate::iddag::lemma_parents_in_segment;
use crate::iddag::lemma_segments_ordered;
use crate::iddag::next_id;
use crate::iddag::segments_wf;
use crate::iddag::IdDag;
use crate::idmap::changeset_of;
use crate::types::ChangesetId;
use crate::types::PreparedFlatSegments;
use crate::types::SegmentView;
use crate::types::SegmentedChangelogError;
use crate::types::Vertex;

verus! {

/// A self-contained snapshot of a group: its head, its flat segments, and the
/// names of the vertices at the ends of the segments.
#[derive(Clone, Debug, PartialEq, Eq)]
pub struct CloneData<T> {
    pub head_id: Vertex,
    pub flat_segments: PreparedFlatSegments,
    pub idmap: Vec<(Vertex, T)>,
}

/// The part of an id mapping that has not been handed out yet. Entries come
/// out once, in ascending order of vertex.
#[derive(Debug)]
pub struct IdMapStream<T> {
    entries: Vec<(Vertex, T)>,
    position: usize,
}

impl<T: Copy> IdMapStream<T> {
    /// The position lies within the entries.
    pub closed spec fn wf(&self) -> bool {
        self.position <= self.entries@.len()
    }

    /// The entries that are still to come, in the order in which they come.
    pub closed spec fn remaining(&self) -> Seq<(Vertex, T)> {
        self.entries@.skip(self.position as int)
    }

    /// A stream that hands out the given entries in their order.
    pub fn new(entries: Vec<(Vertex, T)>) -> (r: Self)
        ensures
            r.wf(),
            r.remaining() == entries@,
    {
        let r = IdMapStream { entries, position: 0 };
        assert(r.entries@.skip(0) =~= r.entries@);
        r
    }

    /// The next entry, or `None` once all have been handed out.
    pub fn next_entry(&mut self) -> (r: Option<(Vertex, T)>)
        requires
            old(self).wf(),
        ensures
            final(self).wf(),
            old(self).remaining().len() == 0 ==> r is None && final(self).remaining() == old(self).remaining(),
            old(self).remaining().len() > 0 ==> r == Some(old(self).remaining()[0]) && final(self).remaining() == old(self).remaining().drop_first(),
    {
        if self.position < self.entries.len() {
            let entry: (Vertex, T) = self.entries[self.position];
            self.position = self.position + 1;
            assert(self.remaining() =~= old(self).remaining().drop_first());
            Some(entry)
        } else {
            None
        }
    }

    /// Up to `limit` of the next entries, in order.
    pub fn next_page(&mut self, limit: usize) -> (r: Vec<(Vertex, T)>)
        requires
            old(self).wf(),
        ensures
            final(self).wf(),
            r@.len() == (if old(self).remaining().len() < limit {
                old(self).remaining().len()
            } else {
                limit as nat
            }),
            r@ == old(self).remaining().take(r@.len() as int),
            final(self).remaining() == old(self).remaining().skip(r@.len() as int),
    {
        let mut page: Vec<(Vertex, T)> = Vec::new();
        let ghost start = self.position;
        while self.position < self.entries.len() && page.len() < limit
            invariant
                self.wf(),
                self.entries == old(self).entries,
                start == old(self).position,
                start <= self.position,
                page@.len() == self.position - start,
                page@.len() <= limit,
                page@ == self.entries@.subrange(start as int, self.position as int),
            decreases self.entries@.len() - self.position,
        {
            page.push(self.entries[self.position]);
            self.position = self.position + 1;
            assert(page@ =~= self.entries@.subrange(start as int, self.position as int));
        }
        assert(page@ =~= old(self).remaining().take(page@.len() as int));
        assert(self.remaining() =~= old(self).remaining().skip(page@.len() as int));
        page
    }
}

/// Clone data together with the whole id mapping, handed out entry by entry.
#[derive(Debug)]
pub struct StreamCloneData<T> {
    pub head_id: Vertex,
    pub flat_segments: PreparedFlatSegments,
    pub idmap_stream: IdMapStream<T>,
}

/// The vertex is the first or the last vertex of a segment.
pub open spec fn is_boundary(segs: Seq<SegmentView>, v: u64) -> bool {
    exists|i: int| 0 <= i < segs.len() && ((#[trigger] segs[i]).low == v || segs[i].high == v)
}

/// The entries are in strictly ascending order of vertex.
pub open spec fn ascending<T>(entries: Seq<(Vertex, T)>) -> bool {
    forall|i: int, j: int|
        0 <= i < j < entries.len() ==> (#[trigger] entries[i]).0 < (#[trigger] entries[j]).0
}

/// The entries name exactly the vertices at the ends of the segments, each
/// once and with its changeset id, in ascending order.
pub open spec fn is_boundary_hints(g: GroupView, hints: Seq<(Vertex, ChangesetId)>) -> bool {
    &&& ascending(hints)
    &&& forall|k: int|
        0 <= k < hints.len() ==> is_boundary(g.segments, (#[trigger] hints[k]).0) && changeset_of(
            g.ids,
            hints[k].0,
        ) == Some(hints[k].1)
    &&& forall|v: u64|
        is_boundary(g.segments, v) ==> exists|k: int|
            0 <= k < hints.len() && (#[trigger] hints[k]).0 == v
}

/// The entries are the whole id mapping, each vertex once and with its
/// changeset id, in ascending order.
pub open spec fn is_full_idmap(g: GroupView, entries: Seq<(Vertex, ChangesetId)>) -> bool {
    &&& ascending(entries)
    &&& forall|k: int|
        0 <= k < entries.len() ==> changeset_of(g.ids, (#[trigger] entries[k]).0) == Some(
            entries[k].1,
        )
    &&& forall|v: u64|
        g.ids.dom().contains(v) ==> exists|k: int|
            0 <= k < entries.len() && (#[trigger] entries[k]).0 == v
}

/// The head and the flat segments are those of the group.
pub open spec fn is_shape_of(g: GroupView, head_id: Vertex, segments: Seq<SegmentView>) -> bool {
    &&& next_id(g.segments) > 0
    &&& head_id == next_id(g.segments) - 1
    &&& segments == g.segments
}

/// The names of the vertices at the ends of the segments, in ascending
/// order.
fn boundary_hints(dag: &Dag, prepared: &PreparedFlatSegments) -> (r: Vec<(Vertex, ChangesetId)>)
    requires
        dag.wf(),
        prepared@ == dag@.segments,
    ensures
        is_boundary_hints(dag@, r@),
{
    let ghost segs = dag@.segments;
    let mut hints: Vec<(Vertex, ChangesetId)> = Vec::new();
    let mut i: usize = 0;
    while i < prepared.segments.len()
        invariant
            dag.wf(),
            segs == dag@.segments,
            prepared@ == segs,
            i <= segs.len(),
            ascending(hints@),
            forall|k: int|
                0 <= k < hints@.len() ==> is_boundary(segs.take(i as int), (#[trigger] hints@[k]).0)
                    && changeset_of(dag@.ids, hints@[k].0) == Some(hints@[k].1),
            forall|v: u64|
                is_boundary(segs.take(i as int), v) ==> exists|k: int|
                    0 <= k < hints@.len() && (#[trigger] hints@[k]).0 == v,
            i > 0 && hints@.len() > 0 ==> hints@.last().0 <= segs[i - 1].high,
            i == 0 ==> hints@.len() == 0,
        decreases segs.len() - i,
    {
        let seg = &prepared.segments[i];
        assert(segs[i as int] == seg@);
        let ghost before = hints@;
        let ghost prev = segs.take(i as int);
        let ghost cur = segs.take(i + 1);
        proof {
            lemma_parents_in_segment(segs, i as int, seg.low);
            lemma_parents_in_segment(segs, i as int, seg.high);
            if i > 0 {
                lemma_segments_ordered(segs, i - 1, i as int);
            }
        }
        match dag.idmap().find_changeset_id(seg.low) {
            Some(cs) => {
                hints.push((seg.low, cs));
            },
            None => {
                assert(false);
            },
        }
        if seg.high != seg.low {
            match dag.idmap().find_changeset_id(seg.high) {
                Some(cs) => {
                    hints.push((seg.high, cs));
                },
                None => {
                    assert(false);
                },
            }
        }
        proof {
            assert(cur[i as int] == segs[i as int]);
            assert forall|k: int| 0 <= k < hints@.len() implies is_boundary(
                cur,
                (#[trigger] hints@[k]).0,
            ) && changeset_of(dag@.ids, hints@[k].0) == Some(hints@[k].1) by {
                if k < before.len() {
                    assert(hints@[k] == before[k]);
                    let w = choose|w: int|
                        0 <= w < prev.len() && ((#[trigger] prev[w]).low == before[k].0
                            || prev[w].high == before[k].0);
                    assert(cur[w] == prev[w]);
                } else {
                    assert(cur[i as int].low == hints@[k].0 || cur[i as int].high == hints@[k].0);
                }
            }
            assert forall|v: u64| is_boundary(cur, v) implies exists|k: int|
                0 <= k < hints@.len() && (#[trigger] hints@[k]).0 == v by {
                let w = choose|w: int|
                    0 <= w < cur.len() && ((#[trigger] cur[w]).low == v || cur[w].high == v);
                if w < i {
                    assert(prev[w] == cur[w]);
                    assert(is_boundary(prev, v));
                    let k = choose|k: int| 0 <= k < before.len() && (#[trigger] before[k]).0 == v;
                    assert(hints@[k] == before[k]);
                } else {
                    if v == seg.low {
                        assert(hints@[before.len() as int].0 == v);
                    } else {
                        assert(hints@[(before.len() + 1) as int].0 == v);
                    }
                }
            }
            assert forall|a: int, b: int| 0 <= a < b < hints@.len() implies (#[trigger] hints@[a]).0 < (
            #[trigger] hints@[b]).0 by {
                if b < before.len() {
                    assert(hints@[a] == before[a] && hints@[b] == before[b]);
                } else if a < before.len() {
                    assert(hints@[a] == before[a]);
                    assert(before[a].0 <= before.last().0) by {
                        if a < before.len() - 1 {
                            assert(before[a].0 < before[before.len() - 1].0);
                        }
                    }
                }
            }
        }
        i += 1;
    }
    assert(segs.take(i as int) =~= segs);
    hints
}

/// The head of the group, its flat segments, and the names of the vertices
/// at the ends of the segments. A group without commits has no head and
/// gives `HeadNotFound`.
pub fn clone_data(dag: &Dag) -> (r: Result<CloneData<ChangesetId>, SegmentedChangelogError>)
    requires
        dag.wf(),
    ensures
        r is Ok <==> next_id(dag@.segments) > 0,
        r matches Ok(data) ==> is_shape_of(dag@, data.head_id, data.flat_segments@)
            && is_boundary_hints(dag@, data.idmap@),
        r matches Err(e) ==> e == SegmentedChangelogError::HeadNotFound,
{
    match dag.head() {
        None => Err(SegmentedChangelogError::HeadNotFound),
        Some(head_id) => {
            let flat_segments: PreparedFlatSegments = dag.iddag().flat_segments();
            let idmap: Vec<(Vertex, ChangesetId)> = boundary_hints(dag, &flat_segments);
            Ok(CloneData { head_id, flat_segments, idmap })
        },
    }
}

/// The head of the group and its flat segments, with the whole id mapping as
/// a stream. A group without commits has no head and gives `HeadNotFound`.
pub fn full_idmap_clone_data(dag: &Dag) -> (r: Result<
    StreamCloneData<ChangesetId>,
    SegmentedChangelogError,
>)
    requires
        dag.wf(),
    ensures
        r is Ok <==> next_id(dag@.segments) > 0,
        r matches Ok(data) ==> is_shape_of(dag@, data.head_id, data.flat_segments@)
            && data.idmap_stream.wf() && is_full_idmap(dag@, data.idmap_stream.remaining()),
        r matches Err(e) ==> e == SegmentedChangelogError::HeadNotFound,
{
    match dag.head() {
        None => Err(SegmentedChangelogError::HeadNotFound),
        Some(head_id) => {
            let flat_segments: PreparedFlatSegments = dag.iddag().flat_segments();
            let entries: Vec<(Vertex, ChangesetId)> = dag.idmap().enumerate_all();
            Ok(StreamCloneData { head_id, flat_segments, idmap_stream: IdMapStream::new(entries) })
        },
    }
}

/// Rebuilds the ancestry graph that clone data describes. Segments that are
/// not valid are refused as `GraphInconsistent`, and so is a head that is
/// not the last vertex of the last segment.
pub fn replay<T>(data: &CloneData<T>) -> (r: Result<IdDag, SegmentedChangelogError>)
    ensures
        r is Ok <==> segments_wf(data.flat_segments@) && data.head_id + 1 == next_id(
            data.flat_segments@,
        ),
        r matches Ok(graph) ==> graph.wf() && graph@ == data.flat_segments@,
        r matches Err(e) ==> e == SegmentedChangelogError::GraphInconsistent,
{
    match IdDag::from_flat_segments(&data.flat_segments) {
        Ok(graph) => {
            let next: Vertex = graph.next_id();
            if next == 0 || next - 1 != data.head_id {
                Err(SegmentedChangelogError::GraphInconsistent)
            } else {
                Ok(graph)
            }
        },
        Err(e) => Err(e),
    }
}

/// The graph rebuilt from the clone data of a group gives, for any two
/// vertices and any distance, the ancestry and first-parent answers of the
/// group itself.
pub proof fn lemma_clone_round_trip(
    g: GroupView,
    head_id: Vertex,
    segments: Seq<SegmentView>,
    replayed: Seq<SegmentView>,
    a: u64,
    b: u64,
    n: nat,
)
    requires
        group_wf(g),
        is_shape_of(g, head_id, segments),
        replayed == segments,
    ensures
        segments_wf(replayed),
        head_id + 1 == next_id(replayed),
        is_ancestor_of(replayed, a, b) == is_ancestor_of(g.segments, a, b),
        first_ancestor(replayed, a, n) == first_ancestor(g.segments, a, n),
{
}

} // verus!
