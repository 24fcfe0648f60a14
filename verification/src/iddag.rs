//! The ancestry graph over vertices, stored as flat segments.

use vstd::prelude::*;
use crate::types::FlatSegment;
use crate::types::PreparedFlatSegments;
use crate::types::SegmentView;
use crate::types::SegmentedChangelogError;
use crate::types::Vertex;

verus! {

/// The segments are non-empty runs that start at vertex 0, follow one another
/// without gap or overlap, and name only parents below their own first
/// vertex. Each run is as long as it can be: no segment continues the one
/// before it.
pub open spec fn segments_wf(segs: Seq<SegmentView>) -> bool {
    &&& forall|i: int| 0 < i < segs.len() ==> !continues_run(segs[i - 1], #[trigger] segs[i])
    &&& forall|i: int| 0 <= i < segs.len() ==> (#[trigger] segs[i]).low <= segs[i].high < u64::MAX
    &&& segs.len() > 0 ==> segs[0].low == 0
    &&& forall|i: int|
        0 <= i < segs.len() - 1 ==> (#[trigger] segs[i + 1]).low == segs[i].high + 1
    &&& forall|i: int, k: int|
        0 <= i < segs.len() && 0 <= k < segs[i].parents.len() ==> (#[trigger] segs[i].parents[k])
            < segs[i].low
}

/// The segment `next` starts with a vertex whose only parent is the last
/// vertex of `prev`, so that both are one run.
pub open spec fn continues_run(prev: SegmentView, next: SegmentView) -> bool {
    next.parents.len() == 1 && next.parents[0] == prev.high
}

/// The first vertex id that no segment holds.
pub open spec fn next_id(segs: Seq<SegmentView>) -> int {
    if segs.len() == 0 {
        0
    } else {
        segs.last().high + 1
    }
}

/// The vertex has been assigned.
pub open spec fn has_vertex(segs: Seq<SegmentView>, v: u64) -> bool {
    v < next_id(segs)
}

/// The vertex lies in the range of the segment.
pub open spec fn in_segment(seg: SegmentView, v: u64) -> bool {
    seg.low <= v <= seg.high
}

/// The index of a segment that holds `v`.
pub open spec fn segment_index(segs: Seq<SegmentView>, v: u64) -> int {
    choose|i: int| 0 <= i < segs.len() && in_segment(#[trigger] segs[i], v)
}

/// The parents of an assigned vertex, first parent first. A vertex that has
/// not been assigned has none.
pub open spec fn parents_of(segs: Seq<SegmentView>, v: u64) -> Seq<u64> {
    if !has_vertex(segs, v) {
        Seq::empty()
    } else {
        let seg = segs[segment_index(segs, v)];
        if v == seg.low {
            seg.parents
        } else {
            seq![(v - 1) as u64]
        }
    }
}

/// The first parent of a vertex, if it has a parent.
pub open spec fn first_parent(segs: Seq<SegmentView>, v: u64) -> Option<u64> {
    let p = parents_of(segs, v);
    if p.len() > 0 {
        Some(p[0])
    } else {
        None
    }
}

/// The vertex reached from `v` by `n` first-parent steps; `None` when `v` has
/// not been assigned or the chain ends earlier.
pub open spec fn first_ancestor(segs: Seq<SegmentView>, v: u64, n: nat) -> Option<u64>
    decreases n,
{
    if !has_vertex(segs, v) {
        None
    } else if n == 0 {
        Some(v)
    } else {
        match first_parent(segs, v) {
            Some(p) => first_ancestor(segs, p, (n - 1) as nat),
            None => None,
        }
    }
}

/// `a` is `b` or can be reached from `b` by following parents.
pub open spec fn is_ancestor_of(segs: Seq<SegmentView>, a: u64, b: u64) -> bool
    decreases b,
{
    has_vertex(segs, b) && (a == b || exists|k: int|
        0 <= k < parents_of(segs, b).len() && (#[trigger] parents_of(segs, b)[k]) < b
            && is_ancestor_of(segs, a, parents_of(segs, b)[k]))
}

/// `c` is an ancestor of both `a` and `b`.
pub open spec fn is_common_ancestor(segs: Seq<SegmentView>, c: u64, a: u64, b: u64) -> bool {
    is_ancestor_of(segs, c, a) && is_ancestor_of(segs, c, b)
}

/// Earlier segments lie wholly below later ones.
pub proof fn lemma_segments_ordered(segs: Seq<SegmentView>, i: int, j: int)
    requires
        segments_wf(segs),
        0 <= i < j < segs.len(),
    ensures
        segs[i].high < segs[j].low,
    decreases j - i,
{
    if i + 1 < j {
        lemma_segments_ordered(segs, i, j - 1);
        assert(segs[(j - 1) + 1].low == segs[j - 1].high + 1);
    } else {
        assert(segs[i + 1].low == segs[i].high + 1);
    }
}

/// The ranges of the segments hold exactly the assigned vertices, each in
/// one segment only.
pub proof fn lemma_segments_partition(segs: Seq<SegmentView>, v: u64)
    requires
        segments_wf(segs),
    ensures
        has_vertex(segs, v) <==> exists|i: int|
            0 <= i < segs.len() && in_segment(#[trigger] segs[i], v),
        forall|i: int, j: int|
            0 <= i < segs.len() && 0 <= j < segs.len() && in_segment(#[trigger] segs[i], v)
                && in_segment(#[trigger] segs[j], v) ==> i == j,
        has_vertex(segs, v) ==> 0 <= segment_index(segs, v) < segs.len() && in_segment(
            segs[segment_index(segs, v)],
            v,
        ),
{
    assert forall|i: int, j: int|
        0 <= i < segs.len() && 0 <= j < segs.len() && in_segment(#[trigger] segs[i], v)
            && in_segment(#[trigger] segs[j], v) implies i == j by {
        if i < j {
            lemma_segments_ordered(segs, i, j);
        } else if j < i {
            lemma_segments_ordered(segs, j, i);
        }
    }
    if has_vertex(segs, v) {
        lemma_cover(segs, v, segs.len() - 1);
    }
    if exists|i: int| 0 <= i < segs.len() && in_segment(#[trigger] segs[i], v) {
        let i = choose|i: int| 0 <= i < segs.len() && in_segment(#[trigger] segs[i], v);
        if i < segs.len() - 1 {
            lemma_segments_ordered(segs, i, segs.len() - 1);
        }
    }
}

proof fn lemma_cover(segs: Seq<SegmentView>, v: u64, top: int)
    requires
        segments_wf(segs),
        0 <= top < segs.len(),
        v <= segs[top].high,
    ensures
        exists|i: int| 0 <= i < segs.len() && in_segment(#[trigger] segs[i], v),
    decreases top,
{
    if v >= segs[top].low {
        assert(in_segment(segs[top], v));
    } else {
        assert(top > 0);
        assert(segs[(top - 1) + 1].low == segs[top - 1].high + 1);
        lemma_cover(segs, v, top - 1);
    }
}

/// A vertex that sits in segment `i` has that segment as its segment, and
/// its parents are the segment's parents or the vertex before it.
pub proof fn lemma_parents_in_segment(segs: Seq<SegmentView>, i: int, v: u64)
    requires
        segments_wf(segs),
        0 <= i < segs.len(),
        in_segment(segs[i], v),
    ensures
        has_vertex(segs, v),
        segment_index(segs, v) == i,
        v == segs[i].low ==> parents_of(segs, v) == segs[i].parents,
        v > segs[i].low ==> parents_of(segs, v) == seq![(v - 1) as u64],
        forall|k: int| 0 <= k < parents_of(segs, v).len() ==> (#[trigger] parents_of(segs, v)[k]) < v,
{
    lemma_segments_partition(segs, v);
}

/// Every parent of a vertex has a smaller id.
pub proof fn lemma_parents_below(segs: Seq<SegmentView>, v: u64)
    requires
        segments_wf(segs),
    ensures
        forall|k: int| 0 <= k < parents_of(segs, v).len() ==> (#[trigger] parents_of(segs, v)[k]) < v,
{
    if has_vertex(segs, v) {
        lemma_segments_partition(segs, v);
        lemma_parents_in_segment(segs, segment_index(segs, v), v);
    }
}

/// Inside a segment, `k` first-parent steps lead from `v` to `v - k`.
pub proof fn lemma_walk_in_segment(segs: Seq<SegmentView>, i: int, v: u64, k: nat, n: nat)
    requires
        segments_wf(segs),
        0 <= i < segs.len(),
        in_segment(segs[i], v),
        k <= v - segs[i].low,
        k <= n,
    ensures
        first_ancestor(segs, v, n) == first_ancestor(segs, (v - k) as u64, (n - k) as nat),
    decreases k,
{
    if k > 0 {
        lemma_parents_in_segment(segs, i, v);
        assert(first_parent(segs, v) == Some((v - 1) as u64));
        lemma_walk_in_segment(segs, i, (v - 1) as u64, (k - 1) as nat, (n - 1) as nat);
    }
}

/// Walking `a + b` first-parent steps is walking `a` steps and then `b`
/// more from where they lead.
pub proof fn lemma_first_ancestor_split(segs: Seq<SegmentView>, v: u64, a: nat, b: nat)
    ensures
        first_ancestor(segs, v, a + b) == match first_ancestor(segs, v, a) {
            Some(u) => first_ancestor(segs, u, b),
            None => None,
        },
    decreases a,
{
    if has_vertex(segs, v) && a > 0 {
        match first_parent(segs, v) {
            Some(p) => {
                lemma_first_ancestor_split(segs, p, (a - 1) as nat, b);
                assert(first_ancestor(segs, v, a + b) == first_ancestor(
                    segs,
                    p,
                    ((a + b) - 1) as nat,
                ));
                assert(((a + b) - 1) as nat == (a - 1) as nat + b);
            },
            None => {},
        }
    }
}

/// A first-parent walk only visits assigned vertices, none above its start.
pub proof fn lemma_first_ancestor_assigned(segs: Seq<SegmentView>, v: u64, n: nat)
    requires
        segments_wf(segs),
        first_ancestor(segs, v, n) is Some,
    ensures
        has_vertex(segs, first_ancestor(segs, v, n)->0),
        first_ancestor(segs, v, n)->0 + n <= v,
    decreases n,
{
    if n > 0 {
        lemma_parents_below(segs, v);
        let p = first_parent(segs, v)->0;
        assert(p == parents_of(segs, v)[0]);
        lemma_first_ancestor_assigned(segs, p, (n - 1) as nat);
    }
}

/// An ancestor never has a larger id than its descendant, and both have
/// been assigned.
pub proof fn lemma_ancestor_below(segs: Seq<SegmentView>, a: u64, b: u64)
    requires
        segments_wf(segs),
        is_ancestor_of(segs, a, b),
    ensures
        a <= b,
        has_vertex(segs, a),
        has_vertex(segs, b),
    decreases b,
{
    if a != b {
        let k = choose|k: int|
            0 <= k < parents_of(segs, b).len() && (#[trigger] parents_of(segs, b)[k]) < b
                && is_ancestor_of(segs, a, parents_of(segs, b)[k]);
        lemma_ancestor_below(segs, a, parents_of(segs, b)[k]);
    }
}

/// A parent of an ancestor of `b` is an ancestor of `b`.
pub proof fn lemma_ancestor_step(segs: Seq<SegmentView>, k: int, v: u64, b: u64)
    requires
        segments_wf(segs),
        is_ancestor_of(segs, v, b),
        0 <= k < parents_of(segs, v).len(),
    ensures
        is_ancestor_of(segs, parents_of(segs, v)[k], b),
    decreases b,
{
    let p = parents_of(segs, v)[k];
    lemma_parents_below(segs, v);
    if v == b {
        assert(has_vertex(segs, p));
        assert(is_ancestor_of(segs, p, p));
        assert(parents_of(segs, b)[k] < b && is_ancestor_of(segs, p, parents_of(segs, b)[k]));
    } else {
        let j = choose|j: int|
            0 <= j < parents_of(segs, b).len() && (#[trigger] parents_of(segs, b)[j]) < b
                && is_ancestor_of(segs, v, parents_of(segs, b)[j]);
        lemma_ancestor_step(segs, k, v, parents_of(segs, b)[j]);
        assert(parents_of(segs, b)[j] < b && is_ancestor_of(segs, p, parents_of(segs, b)[j]));
    }
}

/// Inside a segment, every vertex at or below an ancestor of `b` is an
/// ancestor of `b`.
pub proof fn lemma_ancestor_in_segment(segs: Seq<SegmentView>, i: int, v: u64, m: u64, b: u64)
    requires
        segments_wf(segs),
        0 <= i < segs.len(),
        in_segment(segs[i], v),
        in_segment(segs[i], m),
        v <= m,
        is_ancestor_of(segs, m, b),
    ensures
        is_ancestor_of(segs, v, b),
    decreases m - v,
{
    if v < m {
        lemma_parents_in_segment(segs, i, m);
        lemma_ancestor_step(segs, 0, m, b);
        assert(parents_of(segs, m)[0] == (m - 1) as u64);
        lemma_ancestor_in_segment(segs, i, v, (m - 1) as u64, b);
    }
}

/// Per segment, the highest vertex of the segment that is an ancestor of `b`,
/// if the segment holds any: the ancestors of `b` inside a segment are the
/// vertices from its low end up to that one.
pub open spec fn marks_exact(segs: Seq<SegmentView>, marks: Seq<Option<u64>>, b: u64) -> bool {
    &&& marks.len() == segs.len()
    &&& forall|k: int|
        0 <= k < segs.len() ==> ((#[trigger] marks[k]) matches Some(m) ==> in_segment(segs[k], m))
    &&& forall|k: int, v: u64|
        0 <= k < segs.len() && in_segment(#[trigger] segs[k], v) ==> (#[trigger] is_ancestor_of(
            segs,
            v,
            b,
        ) <==> (marks[k] matches Some(m) && v <= m))
}

spec fn covered(segs: Seq<SegmentView>, marks: Seq<Option<u64>>, u: u64) -> bool {
    &&& has_vertex(segs, u)
    &&& marks[segment_index(segs, u)] matches Some(m) && u <= m
}

spec fn marks_sound(segs: Seq<SegmentView>, marks: Seq<Option<u64>>, b: u64) -> bool {
    &&& marks.len() == segs.len()
    &&& forall|k: int|
        0 <= k < segs.len() ==> ((#[trigger] marks[k]) matches Some(m) ==> in_segment(segs[k], m)
            && is_ancestor_of(segs, m, b))
}

spec fn marks_pushed(segs: Seq<SegmentView>, marks: Seq<Option<u64>>, from: int) -> bool {
    forall|k: int, t: int|
        from <= k < segs.len() && marks[k] is Some && 0 <= t < segs[k].parents.len() ==> covered(
            segs,
            marks,
            #[trigger] segs[k].parents[t],
        )
}

proof fn lemma_marks_complete(segs: Seq<SegmentView>, marks: Seq<Option<u64>>, u: u64, v: u64)
    requires
        segments_wf(segs),
        marks.len() == segs.len(),
        marks_pushed(segs, marks, 0),
        covered(segs, marks, u),
        is_ancestor_of(segs, v, u),
    ensures
        covered(segs, marks, v),
    decreases u,
{
    if v != u {
        let k = choose|k: int|
            0 <= k < parents_of(segs, u).len() && (#[trigger] parents_of(segs, u)[k]) < u
                && is_ancestor_of(segs, v, parents_of(segs, u)[k]);
        let p = parents_of(segs, u)[k];
        lemma_segments_partition(segs, u);
        let i = segment_index(segs, u);
        lemma_parents_in_segment(segs, i, u);
        if u == segs[i].low {
            assert(covered(segs, marks, segs[i].parents[k]));
        } else {
            lemma_parents_in_segment(segs, i, p);
        }
        lemma_marks_complete(segs, marks, p, v);
    }
}

proof fn lemma_marks_exact(segs: Seq<SegmentView>, marks: Seq<Option<u64>>, b: u64)
    requires
        segments_wf(segs),
        marks_sound(segs, marks, b),
        marks_pushed(segs, marks, 0),
        covered(segs, marks, b),
    ensures
        marks_exact(segs, marks, b),
{
    assert forall|k: int, v: u64| 0 <= k < segs.len() && in_segment(#[trigger] segs[k], v) implies (
    #[trigger] is_ancestor_of(segs, v, b) <==> (marks[k] matches Some(m) && v <= m)) by {
        lemma_parents_in_segment(segs, k, v);
        if is_ancestor_of(segs, v, b) {
            lemma_marks_complete(segs, marks, b, v);
        }
        if marks[k] matches Some(m) && v <= m {
            lemma_ancestor_in_segment(segs, k, v, marks[k]->0, b);
        }
    }
}

/// The segments after a vertex with the given parents has been assigned the
/// next id: the last segment grows by one when the new vertex has the
/// segment's last vertex as its only parent, and a new segment starts
/// otherwise.
pub open spec fn appended(segs: Seq<SegmentView>, parents: Seq<u64>) -> Seq<SegmentView> {
    let v = next_id(segs) as u64;
    if segs.len() > 0 && parents.len() == 1 && parents[0] == segs.last().high {
        segs.update(
            segs.len() - 1,
            SegmentView { low: segs.last().low, high: v, parents: segs.last().parents },
        )
    } else {
        segs.push(SegmentView { low: v, high: v, parents: parents })
    }
}

/// Assigning a vertex keeps the segments valid, gives the new vertex the
/// parents it was assigned with, and leaves the parents of every earlier
/// vertex as they were.
pub proof fn lemma_appended(segs: Seq<SegmentView>, parents: Seq<u64>)
    requires
        segments_wf(segs),
        next_id(segs) < u64::MAX,
        forall|k: int| 0 <= k < parents.len() ==> (#[trigger] parents[k]) < next_id(segs),
    ensures
        segments_wf(appended(segs, parents)),
        next_id(appended(segs, parents)) == next_id(segs) + 1,
        parents_of(appended(segs, parents), next_id(segs) as u64) == parents,
        forall|u: u64|
            u < next_id(segs) ==> #[trigger] parents_of(appended(segs, parents), u) == parents_of(
                segs,
                u,
            ),
{
    let v = next_id(segs) as u64;
    let out = appended(segs, parents);
    let last = segs.len() - 1;
    if segs.len() > 0 && parents.len() == 1 && parents[0] == segs.last().high {
        assert forall|i: int| 0 <= i < out.len() - 1 implies (#[trigger] out[i + 1]).low == out[i].high
            + 1 by {
            assert(segs[i + 1].low == segs[i].high + 1);
        }
        assert forall|i: int| 0 < i < out.len() implies !continues_run(
            out[i - 1],
            #[trigger] out[i],
        ) by {
            assert(!continues_run(segs[i - 1], segs[i]));
        }
        assert forall|i: int, k: int|
            0 <= i < out.len() && 0 <= k < out[i].parents.len() implies (
        #[trigger] out[i].parents[k]) < out[i].low by {
            assert(segs[i].parents[k] < segs[i].low);
        }
        assert(segments_wf(out));
        lemma_parents_in_segment(out, last, v);
        assert(parents_of(out, v) =~= parents);
        assert forall|u: u64| u < next_id(segs) implies #[trigger] parents_of(out, u) == parents_of(
            segs,
            u,
        ) by {
            lemma_segments_partition(segs, u);
            let i = segment_index(segs, u);
            lemma_parents_in_segment(segs, i, u);
            lemma_parents_in_segment(out, i, u);
        }
    } else {
        assert forall|i: int| 0 <= i < out.len() - 1 implies (#[trigger] out[i + 1]).low == out[i].high
            + 1 by {
            if i + 1 < segs.len() {
                assert(segs[i + 1].low == segs[i].high + 1);
            }
        }
        assert forall|i: int| 0 < i < out.len() implies !continues_run(
            out[i - 1],
            #[trigger] out[i],
        ) by {
            if i < segs.len() {
                assert(!continues_run(segs[i - 1], segs[i]));
            }
        }
        assert forall|i: int, k: int|
            0 <= i < out.len() && 0 <= k < out[i].parents.len() implies (
        #[trigger] out[i].parents[k]) < out[i].low by {
            if i < segs.len() {
                assert(segs[i].parents[k] < segs[i].low);
            } else {
                assert(parents[k] < next_id(segs));
            }
        }
        assert(segments_wf(out));
        lemma_parents_in_segment(out, segs.len() as int, v);
        assert forall|u: u64| u < next_id(segs) implies #[trigger] parents_of(out, u) == parents_of(
            segs,
            u,
        ) by {
            lemma_segments_partition(segs, u);
            let i = segment_index(segs, u);
            lemma_parents_in_segment(segs, i, u);
            lemma_parents_in_segment(out, i, u);
        }
    }
}

/// Assigning a vertex leaves every first-parent walk that starts at an
/// earlier vertex as it was.
pub proof fn lemma_appended_keeps_walks(
    segs: Seq<SegmentView>,
    parents: Seq<u64>,
    v: u64,
    n: nat,
)
    requires
        segments_wf(segs),
        next_id(segs) < u64::MAX,
        forall|k: int| 0 <= k < parents.len() ==> (#[trigger] parents[k]) < next_id(segs),
        v < next_id(segs),
    ensures
        first_ancestor(appended(segs, parents), v, n) == first_ancestor(segs, v, n),
    decreases n,
{
    lemma_appended(segs, parents);
    if n > 0 {
        lemma_parents_below(segs, v);
        assert(parents_of(appended(segs, parents), v) == parents_of(segs, v));
        match first_parent(segs, v) {
            Some(p) => {
                assert(p == parents_of(segs, v)[0]);
                lemma_appended_keeps_walks(segs, parents, p, (n - 1) as nat);
            },
            None => {},
        }
    }
}

/// Assigning a vertex leaves the ancestors of every earlier vertex as they
/// were.
pub proof fn lemma_appended_keeps_ancestry(
    segs: Seq<SegmentView>,
    parents: Seq<u64>,
    a: u64,
    b: u64,
)
    requires
        segments_wf(segs),
        next_id(segs) < u64::MAX,
        forall|k: int| 0 <= k < parents.len() ==> (#[trigger] parents[k]) < next_id(segs),
        b < next_id(segs),
    ensures
        is_ancestor_of(appended(segs, parents), a, b) == is_ancestor_of(segs, a, b),
    decreases b,
{
    let out = appended(segs, parents);
    lemma_appended(segs, parents);
    lemma_parents_below(segs, b);
    assert(parents_of(out, b) == parents_of(segs, b));
    assert forall|k: int|
        0 <= k < parents_of(segs, b).len() && (#[trigger] parents_of(segs, b)[k])
            < b implies is_ancestor_of(out, a, parents_of(segs, b)[k]) == is_ancestor_of(
        segs,
        a,
        parents_of(segs, b)[k],
    ) by {
        lemma_appended_keeps_ancestry(segs, parents, a, parents_of(segs, b)[k]);
    }
    if is_ancestor_of(segs, a, b) && a != b {
        let k = choose|k: int|
            0 <= k < parents_of(segs, b).len() && (#[trigger] parents_of(segs, b)[k]) < b
                && is_ancestor_of(segs, a, parents_of(segs, b)[k]);
        assert(parents_of(out, b)[k] < b && is_ancestor_of(out, a, parents_of(out, b)[k]));
    }
    if is_ancestor_of(out, a, b) && a != b {
        let k = choose|k: int|
            0 <= k < parents_of(out, b).len() && (#[trigger] parents_of(out, b)[k]) < b
                && is_ancestor_of(out, a, parents_of(out, b)[k]);
        assert(parents_of(segs, b)[k] < b && is_ancestor_of(segs, a, parents_of(segs, b)[k]));
    }
}

/// A copy of a list of vertices.
pub fn copy_vertices(v: &Vec<Vertex>) -> (r: Vec<Vertex>)
    ensures
        r@ == v@,
{
    let mut out: Vec<Vertex> = Vec::new();
    let mut k: usize = 0;
    while k < v.len()
        invariant
            k <= v@.len(),
            out@ == v@.take(k as int),
        decreases v@.len() - k,
    {
        out.push(v[k]);
        k += 1;
        assert(out@ =~= v@.take(k as int));
    }
    assert(out@ =~= v@);
    out
}

/// A copy of a flat segment.
pub fn copy_segment(seg: &FlatSegment) -> (r: FlatSegment)
    ensures
        r@ == seg@,
{
    FlatSegment { low: seg.low, high: seg.high, parents: copy_vertices(&seg.parents) }
}

fn copy_segments(segs: &Vec<FlatSegment>) -> (r: Vec<FlatSegment>)
    ensures
        r@.len() == segs@.len(),
        forall|i: int| 0 <= i < segs@.len() ==> (#[trigger] r@[i])@ == segs@[i]@,
{
    let mut out: Vec<FlatSegment> = Vec::new();
    let mut k: usize = 0;
    while k < segs.len()
        invariant
            k <= segs@.len(),
            out@.len() == k,
            forall|i: int| 0 <= i < k ==> (#[trigger] out@[i])@ == segs@[i]@,
        decreases segs@.len() - k,
    {
        out.push(copy_segment(&segs[k]));
        k += 1;
    }
    out
}

/// The ancestry graph of one group: flat segments in ascending order.
#[derive(Debug)]
pub struct IdDag {
    segments: Vec<FlatSegment>,
}

impl View for IdDag {
    type V = Seq<SegmentView>;

    closed spec fn view(&self) -> Seq<SegmentView> {
        Seq::new(self.segments@.len(), |i: int| self.segments@[i]@)
    }
}

impl IdDag {
    /// The graph is valid: its segments partition the assigned vertices and
    /// parents precede their children.
    pub open spec fn wf(&self) -> bool {
        segments_wf(self@)
    }

    /// A graph without vertices.
    pub fn new() -> (r: Self)
        ensures
            r.wf(),
            r@ == Seq::<SegmentView>::empty(),
    {
        let r = IdDag { segments: Vec::new() };
        assert(r@ =~= Seq::<SegmentView>::empty());
        r
    }

    /// The number of assigned vertices, which is also the next id to assign.
    pub fn next_id(&self) -> (r: Vertex)
        requires
            self.wf(),
        ensures
            r == next_id(self@),
    {
        let n: usize = self.segments.len();
        if n == 0 {
            0
        } else {
            assert(self@[n - 1] == self.segments@[n - 1]@);
            self.segments[n - 1].high + 1
        }
    }

    /// Whether the vertex has been assigned.
    pub fn contains(&self, v: Vertex) -> (r: bool)
        requires
            self.wf(),
        ensures
            r == has_vertex(self@, v),
    {
        v < self.next_id()
    }

    /// The index of the segment that holds an assigned vertex.
    fn find_segment(&self, v: Vertex) -> (idx: usize)
        requires
            self.wf(),
            has_vertex(self@, v),
        ensures
            idx < self@.len(),
            in_segment(self@[idx as int], v),
            idx == segment_index(self@, v),
    {
        proof {
            lemma_segments_partition(self@, v);
        }
        let mut lo: usize = 0;
        let mut hi: usize = self.segments.len();
        while hi - lo > 1
            invariant
                self.wf(),
                0 <= lo < hi <= self@.len(),
                self@.len() == self.segments@.len(),
                self@[lo as int].low <= v,
                hi < self@.len() ==> v < self@[hi as int].low,
                hi == self@.len() ==> v <= self@.last().high,
            decreases hi - lo,
        {
            let mid: usize = lo + (hi - lo) / 2;
            assert(self@[mid as int] == self.segments@[mid as int]@);
            if self.segments[mid].low <= v {
                lo = mid;
            } else {
                hi = mid;
            }
        }
        proof {
            if hi < self@.len() {
                assert(self@[lo + 1].low == self@[lo as int].high + 1);
            }
            assert(in_segment(self@[lo as int], v));
        }
        lo
    }

    /// The parents of a vertex, first parent first; empty for a vertex that
    /// has not been assigned.
    pub fn parents(&self, vertex: Vertex) -> (r: Vec<Vertex>)
        requires
            self.wf(),
        ensures
            r@ == parents_of(self@, vertex),
    {
        let mut out: Vec<Vertex> = Vec::new();
        if !self.contains(vertex) {
            return out;
        }
        let idx: usize = self.find_segment(vertex);
        assert(self@[idx as int] == self.segments@[idx as int]@);
        let seg = &self.segments[idx];
        if vertex == seg.low {
            let mut k: usize = 0;
            while k < seg.parents.len()
                invariant
                    k <= seg.parents@.len(),
                    out@ == seg.parents@.take(k as int),
                decreases seg.parents@.len() - k,
            {
                out.push(seg.parents[k]);
                k += 1;
                assert(out@ =~= seg.parents@.take(k as int));
            }
            assert(out@ =~= seg.parents@);
        } else {
            out.push(vertex - 1);
            assert(out@ =~= seq![(vertex - 1) as u64]);
        }
        out
    }

    /// The vertex `ancestor_distance` first-parent steps behind `known`;
    /// `None` when `known` has not been assigned or the chain is shorter.
    pub fn distance(&self, known: Vertex, ancestor_distance: u64) -> (r: Option<Vertex>)
        requires
            self.wf(),
        ensures
            r == first_ancestor(self@, known, ancestor_distance as nat),
    {
        if !self.contains(known) {
            return None;
        }
        let mut v: Vertex = known;
        let mut remaining: u64 = ancestor_distance;
        loop
            invariant
                self.wf(),
                has_vertex(self@, v),
                first_ancestor(self@, known, ancestor_distance as nat) == first_ancestor(
                    self@,
                    v,
                    remaining as nat,
                ),
            decreases v,
        {
            let idx: usize = self.find_segment(v);
            assert(self@[idx as int] == self.segments@[idx as int]@);
            let seg = &self.segments[idx];
            let span: u64 = v - seg.low;
            if remaining <= span {
                proof {
                    lemma_walk_in_segment(self@, idx as int, v, remaining as nat, remaining as nat);
                    lemma_parents_in_segment(self@, idx as int, (v - remaining) as u64);
                }
                return Some(v - remaining);
            }
            proof {
                lemma_walk_in_segment(self@, idx as int, v, span as nat, remaining as nat);
                lemma_parents_in_segment(self@, idx as int, seg.low);
            }
            if seg.parents.len() == 0 {
                return None;
            }
            remaining = remaining - span - 1;
            v = seg.parents[0];
        }
    }

    /// For each segment, the highest ancestor of `b` that it holds.
    fn ancestor_marks(&self, b: Vertex) -> (marks: Vec<Option<Vertex>>)
        requires
            self.wf(),
            has_vertex(self@, b),
        ensures
            marks_exact(self@, marks@, b),
    {
        let n: usize = self.segments.len();
        let mut marks: Vec<Option<Vertex>> = Vec::new();
        let mut i: usize = 0;
        while i < n
            invariant
                i <= n,
                marks@.len() == i,
                forall|k: int| 0 <= k < i ==> (#[trigger] marks@[k]) is None,
            decreases n - i,
        {
            marks.push(None);
            i += 1;
        }
        let ib: usize = self.find_segment(b);
        marks.set(ib, Some(b));
        proof {
            lemma_parents_in_segment(self@, ib as int, b);
        }
        let mut j: usize = ib + 1;
        while j > 0
            invariant
                self.wf(),
                has_vertex(self@, b),
                n == self@.len(),
                n == self.segments@.len(),
                j <= n,
                marks_sound(self@, marks@, b),
                marks_pushed(self@, marks@, j as int),
                covered(self@, marks@, b),
            decreases j,
        {
            j -= 1;
            let current: Option<Vertex> = marks[j];
            match current {
                Some(m) => {
                    assert(self@[j as int] == self.segments@[j as int]@);
                    let seg = &self.segments[j];
                    let mut t: usize = 0;
                    while t < seg.parents.len()
                        invariant
                            self.wf(),
                            has_vertex(self@, b),
                            n == self@.len(),
                            j < n,
                            self@[j as int] == seg@,
                            t <= seg.parents@.len(),
                            marks@[j as int] == Some(m),
                            marks_sound(self@, marks@, b),
                            marks_pushed(self@, marks@, j + 1),
                            covered(self@, marks@, b),
                            forall|u: int|
                                0 <= u < t ==> covered(self@, marks@, #[trigger] seg.parents@[u]),
                        decreases seg.parents@.len() - t,
                    {
                        let p: Vertex = seg.parents[t];
                        proof {
                            assert(self@[j as int].parents[t as int] < self@[j as int].low);
                            if j + 1 < n {
                                lemma_segments_ordered(self@, j as int, n - 1);
                            }
                        }
                        let ip: usize = self.find_segment(p);
                        let previous: Option<Vertex> = marks[ip];
                        let raised: Vertex = match previous {
                            Some(before) => if before >= p {
                                before
                            } else {
                                p
                            },
                            None => p,
                        };
                        let ghost old_marks = marks@;
                        marks.set(ip, Some(raised));
                        proof {
                            let segs = self@;
                            lemma_parents_in_segment(segs, j as int, seg.low);
                            lemma_ancestor_in_segment(segs, j as int, seg.low, m, b);
                            lemma_ancestor_step(segs, t as int, seg.low, b);
                            assert(is_ancestor_of(segs, p, b));
                            if ip >= j {
                                if ip > j {
                                    lemma_segments_ordered(segs, j as int, ip as int);
                                }
                                assert(false);
                            }
                            assert forall|x: u64| covered(segs, old_marks, x) implies covered(
                                segs,
                                marks@,
                                x,
                            ) by {
                                lemma_segments_partition(segs, x);
                                let ix = segment_index(segs, x);
                                if ix == ip {
                                    assert(marks@[ix] == Some(raised));
                                } else {
                                    assert(marks@[ix] == old_marks[ix]);
                                }
                            }
                            lemma_parents_in_segment(segs, ip as int, p);
                            assert(covered(segs, marks@, p));
                            assert forall|u: int| 0 <= u < t + 1 implies covered(
                                segs,
                                marks@,
                                #[trigger] seg.parents@[u],
                            ) by {
                                if u < t {
                                    assert(covered(segs, old_marks, seg.parents@[u]));
                                }
                            }
                            assert forall|k: int, u: int|
                                j + 1 <= k < segs.len() && marks@[k] is Some && 0 <= u
                                    < segs[k].parents.len() implies covered(
                                segs,
                                marks@,
                                #[trigger] segs[k].parents[u],
                            ) by {
                                assert(covered(segs, old_marks, segs[k].parents[u]));
                            }
                        }
                        t += 1;
                    }
                    proof {
                        let segs = self@;
                        assert forall|k: int, u: int|
                            j <= k < segs.len() && marks@[k] is Some && 0 <= u
                                < segs[k].parents.len() implies covered(
                            segs,
                            marks@,
                            #[trigger] segs[k].parents[u],
                        ) by {
                            if k == j {
                                assert(covered(segs, marks@, seg.parents@[u]));
                            }
                        }
                    }
                },
                None => {},
            }
        }
        proof {
            lemma_marks_exact(self@, marks@, b);
        }
        marks
    }

    /// Whether `a` is `b` or one of its ancestors.
    pub fn is_ancestor(&self, a: Vertex, b: Vertex) -> (r: bool)
        requires
            self.wf(),
        ensures
            r == is_ancestor_of(self@, a, b),
    {
        if !self.contains(b) || a > b {
            proof {
                if is_ancestor_of(self@, a, b) {
                    lemma_ancestor_below(self@, a, b);
                }
            }
            return false;
        }
        let marks: Vec<Option<Vertex>> = self.ancestor_marks(b);
        let ia: usize = self.find_segment(a);
        match marks[ia] {
            Some(m) => a <= m,
            None => false,
        }
    }

    /// The common ancestor of `a` and `b` with the greatest id, which no
    /// other common ancestor descends from; `None` when they have none.
    pub fn merge_base(&self, a: Vertex, b: Vertex) -> (r: Option<Vertex>)
        requires
            self.wf(),
        ensures
            r matches Some(m) ==> is_common_ancestor(self@, m, a, b) && forall|c: u64| #[trigger]
                is_common_ancestor(self@, c, a, b) ==> c <= m,
            r is None ==> forall|c: u64| !#[trigger] is_common_ancestor(self@, c, a, b),
    {
        if !self.contains(a) || !self.contains(b) {
            return None;
        }
        let marks_a: Vec<Option<Vertex>> = self.ancestor_marks(a);
        let marks_b: Vec<Option<Vertex>> = self.ancestor_marks(b);
        let mut k: usize = self.segments.len();
        while k > 0
            invariant
                self.wf(),
                k <= self@.len(),
                marks_exact(self@, marks_a@, a),
                marks_exact(self@, marks_b@, b),
                forall|j: int, c: u64|
                    k <= j < self@.len() && in_segment(#[trigger] self@[j], c)
                        ==> !#[trigger] is_common_ancestor(self@, c, a, b),
            decreases k,
        {
            k -= 1;
            let in_a: Option<Vertex> = marks_a[k];
            let in_b: Option<Vertex> = marks_b[k];
            match (in_a, in_b) {
                (Some(x), Some(y)) => {
                    let m: Vertex = if x <= y {
                        x
                    } else {
                        y
                    };
                    proof {
                        let segs = self@;
                        assert(in_segment(segs[k as int], m));
                        assert(is_ancestor_of(segs, m, a));
                        assert(is_ancestor_of(segs, m, b));
                        assert forall|c: u64| #[trigger]
                            is_common_ancestor(segs, c, a, b) implies c <= m by {
                            lemma_ancestor_below(segs, c, a);
                            lemma_segments_partition(segs, c);
                            let j = segment_index(segs, c);
                            if j < k {
                                lemma_segments_ordered(segs, j, k as int);
                            } else if j == k {
                                assert(in_segment(segs[k as int], c));
                            } else {
                                assert(in_segment(segs[j], c));
                            }
                        }
                    }
                    return Some(m);
                },
                _ => {
                    proof {
                        let segs = self@;
                        assert forall|j: int, c: u64|
                            k <= j < segs.len() && in_segment(
                                #[trigger] segs[j],
                                c,
                            ) implies !#[trigger] is_common_ancestor(segs, c, a, b) by {
                            if j == k {
                                assert(in_segment(segs[k as int], c));
                            }
                        }
                    }
                },
            }
        }
        proof {
            let segs = self@;
            assert forall|c: u64| !#[trigger] is_common_ancestor(segs, c, a, b) by {
                if is_common_ancestor(segs, c, a, b) {
                    lemma_ancestor_below(segs, c, a);
                    lemma_segments_partition(segs, c);
                    assert(in_segment(segs[segment_index(segs, c)], c));
                }
            }
        }
        None
    }

    /// Assigns the next vertex id to a vertex with the given parents and
    /// returns that id.
    ///
    /// The vertex is refused, and the graph left as it was, when a parent has
    /// not been assigned or no id is left.
    pub fn append(&mut self, parents: &Vec<Vertex>) -> (r: Result<Vertex, SegmentedChangelogError>)
        requires
            old(self).wf(),
        ensures
            final(self).wf(),
            match r {
                Ok(v) => {
                    &&& v == next_id(old(self)@)
                    &&& next_id(old(self)@) < u64::MAX
                    &&& forall|k: int| 0 <= k < parents@.len() ==> parents@[k] < v
                    &&& final(self)@ == appended(old(self)@, parents@)
                },
                Err(e) => {
                    &&& final(self)@ == old(self)@
                    &&& e == (if exists|k: int|
                        0 <= k < parents@.len() && parents@[k] >= next_id(old(self)@) {
                        SegmentedChangelogError::GraphInconsistent
                    } else {
                        SegmentedChangelogError::VertexSpaceExhausted
                    })
                    &&& e == SegmentedChangelogError::VertexSpaceExhausted ==> next_id(old(self)@)
                        == u64::MAX
                },
            },
    {
        let v: Vertex = self.next_id();
        let mut k: usize = 0;
        while k < parents.len()
            invariant
                self.wf(),
                self@ == old(self)@,
                v == next_id(self@),
                k <= parents@.len(),
                forall|i: int| 0 <= i < k ==> parents@[i] < v,
            decreases parents@.len() - k,
        {
            if parents[k] >= v {
                return Err(SegmentedChangelogError::GraphInconsistent);
            }
            k += 1;
        }
        if v == u64::MAX {
            return Err(SegmentedChangelogError::VertexSpaceExhausted);
        }
        proof {
            lemma_appended(self@, parents@);
        }
        let ghost before = self@;
        let n: usize = self.segments.len();
        if n > 0 && parents.len() == 1 && parents[0] == self.segments[n - 1].high {
            assert(before[n - 1] == self.segments@[n - 1]@);
            let last: Option<FlatSegment> = self.segments.pop();
            match last {
                Some(mut seg) => {
                    seg.high = v;
                    self.segments.push(seg);
                },
                None => {},
            }
            assert(self@ =~= appended(before, parents@));
        } else {
            proof {
                if n > 0 {
                    assert(before[n - 1] == self.segments@[n - 1]@);
                }
            }
            self.segments.push(FlatSegment { low: v, high: v, parents: copy_vertices(parents) });
            assert(self@ =~= appended(before, parents@));
        }
        Ok(v)
    }

    /// The flat segments of the graph, in ascending order.
    pub fn flat_segments(&self) -> (r: PreparedFlatSegments)
        ensures
            r@ == self@,
    {
        let r = PreparedFlatSegments { segments: copy_segments(&self.segments) };
        assert(r@ =~= self@);
        r
    }

    /// A copy of the graph.
    pub fn duplicate(&self) -> (r: Self)
        ensures
            r@ == self@,
    {
        let r = IdDag { segments: copy_segments(&self.segments) };
        assert(r@ =~= self@);
        r
    }

    /// Builds the graph that the given flat segments describe.
    ///
    /// The segments are refused unless they are valid: non-empty runs, as
    /// long as they can be, that start at vertex 0, follow one another
    /// without gap or overlap, and name only parents below their own first
    /// vertex.
    pub fn from_flat_segments(prepared: &PreparedFlatSegments) -> (r: Result<
        Self,
        SegmentedChangelogError,
    >)
        ensures
            r is Ok <==> segments_wf(prepared@),
            r matches Ok(dag) ==> dag@ == prepared@ && dag.wf(),
            r matches Err(e) ==> e == SegmentedChangelogError::GraphInconsistent,
    {
        let segs = &prepared.segments;
        let ghost view = prepared@;
        let mut i: usize = 0;
        while i < segs.len()
            invariant
                i <= segs@.len(),
                view == prepared@,
                view.len() == segs@.len(),
                segs@ == prepared.segments@,
                segments_wf(view.take(i as int)),
            decreases segs@.len() - i,
        {
            let seg = &segs[i];
            assert(view[i as int] == seg@);
            if seg.low > seg.high || seg.high == u64::MAX {
                return Err(SegmentedChangelogError::GraphInconsistent);
            }
            if i == 0 {
                if seg.low != 0 {
                    return Err(SegmentedChangelogError::GraphInconsistent);
                }
            } else {
                assert(view[i - 1] == segs@[i - 1]@);
                assert(view.take(i as int)[i - 1] == view[i - 1]);
                if seg.low != segs[i - 1].high + 1 {
                    proof {
                        if segments_wf(view) {
                            assert(view[(i - 1) + 1].low == view[i - 1].high + 1);
                        }
                    }
                    return Err(SegmentedChangelogError::GraphInconsistent);
                }
                if seg.parents.len() == 1 && seg.parents[0] == segs[i - 1].high {
                    proof {
                        if segments_wf(view) {
                            assert(!continues_run(view[i - 1], view[i as int]));
                        }
                    }
                    return Err(SegmentedChangelogError::GraphInconsistent);
                }
            }
            let mut k: usize = 0;
            while k < seg.parents.len()
                invariant
                    k <= seg.parents@.len(),
                    i < view.len(),
                    view == prepared@,
                    view[i as int] == seg@,
                    forall|t: int| 0 <= t < k ==> seg.parents@[t] < seg.low,
                decreases seg.parents@.len() - k,
            {
                if seg.parents[k] >= seg.low {
                    proof {
                        if segments_wf(view) {
                            assert(view[i as int].parents[k as int] < view[i as int].low);
                        }
                    }
                    return Err(SegmentedChangelogError::GraphInconsistent);
                }
                k += 1;
            }
            proof {
                let prev = view.take(i as int);
                let cur = view.take(i + 1);
                assert forall|a: int| 0 <= a < cur.len() implies (#[trigger] cur[a]).low
                    <= cur[a].high < u64::MAX by {
                    if a < i {
                        assert(prev[a] == cur[a]);
                    }
                }
                assert forall|a: int| 0 <= a < cur.len() - 1 implies (#[trigger] cur[a + 1]).low
                    == cur[a].high + 1 by {
                    if a + 1 < i {
                        assert(prev[a + 1] == cur[a + 1]);
                        assert(prev[a] == cur[a]);
                    }
                }
                assert forall|a: int, t: int|
                    0 <= a < cur.len() && 0 <= t < cur[a].parents.len() implies (
                #[trigger] cur[a].parents[t]) < cur[a].low by {
                    if a < i {
                        assert(prev[a] == cur[a]);
                        assert(prev[a].parents[t] < prev[a].low);
                    }
                }
                if i > 0 {
                    assert(prev[0] == cur[0]);
                }
                assert forall|a: int| 0 < a < cur.len() implies !continues_run(
                    cur[a - 1],
                    #[trigger] cur[a],
                ) by {
                    if a < i {
                        assert(prev[a] == cur[a]);
                        assert(prev[a - 1] == cur[a - 1]);
                        assert(!continues_run(prev[a - 1], prev[a]));
                    }
                }
            }
            i += 1;
        }
        assert(view.take(i as int) =~= view);
        let dag = IdDag { segments: copy_segments(segs) };
        assert(dag@ =~= view);
        Ok(dag)
    }
}

} // verus!
