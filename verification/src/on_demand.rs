//! Finding the commits that a group lacks, by walking the commit graph
//! backward from a set of heads.
//!
//! A walk does not read the commit graph itself. It says which commit it
//! needs the parents of, is told them, and goes on until it has a batch that
//! names every missing ancestor of the heads after its own parents. Whoever
//! holds the graph answers: a service that asks a remote graph, or
//! `walk_graph` for a graph that is held as a list of commits.

use vstd::prelude::*;
use vstd::seq_lib::seq_to_set_is_finite;
use vstd::set::axiom_set_remove_len;
use vstd::set_lib::lemma_len_subset;
use crate::dag::add_commits;
use crate::dag::all_mapped;
use crate::dag::group_wf;
use crate::dag::lemma_add_commits;
use crate::dag::Dag;
use crate::dag::GroupView;
use crate::iddag::next_id;
use crate::idmap::is_mapped;
use crate::idmap::vertex_of;
use crate::types::commit_views;
use crate::types::ChangesetId;
use crate::types::CommitEntry;
use crate::types::CommitView;
use crate::types::SegmentedChangelogError;

verus! {

/// Some commit of the batch has the given id.
pub open spec fn in_batch(batch: Seq<CommitView>, id: ChangesetId) -> bool {
    exists|j: int| 0 <= j < batch.len() && (#[trigger] batch[j]).id == id
}

/// The commit is in the group or in the batch.
pub open spec fn known(ids: Map<u64, ChangesetId>, batch: Seq<CommitView>, id: ChangesetId) -> bool {
    is_mapped(ids, id) || in_batch(batch, id)
}

/// The batch can be added to a group with the given mapping: its commits are
/// new and distinct, and each parent is in the group or earlier in the batch.
pub open spec fn batch_closed(ids: Map<u64, ChangesetId>, batch: Seq<CommitView>) -> bool {
    &&& forall|i: int| 0 <= i < batch.len() ==> !is_mapped(ids, (#[trigger] batch[i]).id)
    &&& forall|i: int, j: int|
        0 <= i < j < batch.len() ==> (#[trigger] batch[i]).id != (#[trigger] batch[j]).id
    &&& forall|i: int, k: int|
        0 <= i < batch.len() && 0 <= k < batch[i].parents.len() ==> known(
            ids,
            batch.take(i),
            #[trigger] batch[i].parents[k],
        )
}

/// A closed batch is accepted by a valid group as long as vertex ids are
/// left, and is refused with `VertexSpaceExhausted` when they run out.
pub proof fn lemma_closed_batch_is_accepted(g: GroupView, batch: Seq<CommitView>)
    requires
        group_wf(g),
        batch_closed(g.ids, batch),
    ensures
        add_commits(g, batch) is Ok <==> next_id(g.segments) + batch.len() <= u64::MAX,
        add_commits(g, batch) matches Err(e) ==> e == SegmentedChangelogError::VertexSpaceExhausted,
    decreases batch.len(),
{
    if batch.len() > 0 {
        let front = batch.drop_last();
        let last = batch.last();
        let n = batch.len() - 1;
        assert(batch_closed(g.ids, front)) by {
            assert forall|i: int| 0 <= i < front.len() implies !is_mapped(
                g.ids,
                (#[trigger] front[i]).id,
            ) by {
                assert(front[i] == batch[i]);
            }
            assert forall|i: int, j: int| 0 <= i < j < front.len() implies (#[trigger] front[i]).id != (
            #[trigger] front[j]).id by {
                assert(front[i] == batch[i] && front[j] == batch[j]);
            }
            assert forall|i: int, k: int|
                0 <= i < front.len() && 0 <= k < front[i].parents.len() implies known(
                g.ids,
                front.take(i),
                #[trigger] front[i].parents[k],
            ) by {
                assert(front[i] == batch[i]);
                assert(front.take(i) =~= batch.take(i));
                assert(known(g.ids, batch.take(i), batch[i].parents[k]));
            }
        }
        lemma_closed_batch_is_accepted(g, front);
        if add_commits(g, front) is Ok {
            lemma_add_commits(g, front);
            let h = add_commits(g, front)->Ok_0;
            assert(!is_mapped(h.ids, last.id)) by {
                if is_mapped(h.ids, last.id) {
                    assert(!is_mapped(g.ids, batch[n].id));
                    let i = choose|i: int|
                        0 <= i < front.len() && (#[trigger] front[i]).id == last.id;
                    assert(batch[i].id != batch[n].id);
                }
            }
            assert(all_mapped(h.ids, last.parents)) by {
                assert forall|k: int| 0 <= k < last.parents.len() implies is_mapped(
                    h.ids,
                    #[trigger] last.parents[k],
                ) by {
                    assert(known(g.ids, batch.take(n), batch[n].parents[k]));
                    assert(batch.take(n) =~= front);
                    let p = last.parents[k];
                    if is_mapped(g.ids, p) {
                        assert(vertex_of(h.ids, p) == vertex_of(g.ids, p));
                    } else {
                        let j = choose|j: int| 0 <= j < front.len() && (#[trigger] front[j]).id == p;
                        assert(vertex_of(h.ids, front[j].id) is Some);
                    }
                }
            }
        }
    }
}

/// The walk has nothing left to do.
pub open spec fn is_finished(s: WalkView) -> bool {
    &&& s.awaiting is None
    &&& s.stack.len() == 0
    &&& s.next_head >= s.heads.len()
}

/// What the commit graph says of a commit.
#[derive(Clone, Debug, PartialEq, Eq)]
pub enum GraphReply {
    /// The commit exists and has these parents, first parent first.
    Parents(Vec<ChangesetId>),
    /// The commit graph does not know the commit.
    Unknown,
}

/// What the walk needs next.
#[derive(Clone, Copy, Debug, PartialEq, Eq)]
pub enum WalkRequest {
    /// The parents of this commit.
    Fetch(ChangesetId),
    /// Nothing: the batch is complete.
    Done,
}

/// A commit whose parents are being looked at, as mathematical values:
/// `next` counts the parents that are dealt with.
pub struct FrameView {
    pub id: ChangesetId,
    pub parents: Seq<ChangesetId>,
    pub next: nat,
}

/// The state of a walk, as mathematical values.
pub struct WalkView {
    /// The heads to reach.
    pub heads: Seq<ChangesetId>,
    /// How many of the heads are dealt with.
    pub next_head: nat,
    /// The path from the head in work down to the commit in work.
    pub stack: Seq<FrameView>,
    /// The missing commits found so far, parents before children.
    pub batch: Seq<CommitView>,
    /// The commit whose parents were asked for and not told yet.
    pub awaiting: Option<ChangesetId>,
}

/// Some commit on the path has the given id.
pub open spec fn on_stack(stack: Seq<FrameView>, id: ChangesetId) -> bool {
    exists|i: int| 0 <= i < stack.len() && (#[trigger] stack[i]).id == id
}

/// One move of a walk: either the state to go on from, or the state to stop
/// in and what to report.
pub enum Step {
    Continue(WalkView),
    Stop(WalkView, Result<WalkRequest, SegmentedChangelogError>),
}

/// The next move of a walk over a group with the given mapping.
///
/// With a request open, the walk asks again. With an empty path, it takes
/// the next head: a known head is passed over, an unknown one is asked for,
/// and without a head left the walk is done. Otherwise it looks at the
/// commit at the end of the path: when all its parents are dealt with, the
/// commit goes to the batch; a known parent is passed over; a parent that is
/// on the path closes a cycle, which is `GraphInconsistent`; any other parent
/// is asked for.
pub open spec fn step_once(ids: Map<u64, ChangesetId>, s: WalkView) -> Step {
    if s.awaiting is Some {
        Step::Stop(s, Ok(WalkRequest::Fetch(s.awaiting->0)))
    } else if s.stack.len() == 0 {
        if s.next_head >= s.heads.len() {
            Step::Stop(s, Ok(WalkRequest::Done))
        } else {
            let head = s.heads[s.next_head as int];
            if known(ids, s.batch, head) {
                Step::Continue(WalkView { next_head: s.next_head + 1, ..s })
            } else {
                Step::Stop(WalkView { awaiting: Some(head), ..s }, Ok(WalkRequest::Fetch(head)))
            }
        }
    } else {
        let top = s.stack.last();
        if top.next >= top.parents.len() {
            Step::Continue(
                WalkView {
                    stack: s.stack.drop_last(),
                    batch: s.batch.push(CommitView { id: top.id, parents: top.parents }),
                    ..s
                },
            )
        } else {
            let parent = top.parents[top.next as int];
            if known(ids, s.batch, parent) {
                Step::Continue(
                    WalkView {
                        stack: s.stack.drop_last().push(FrameView { next: top.next + 1, ..top }),
                        ..s
                    },
                )
            } else if on_stack(s.stack, parent) {
                Step::Stop(s, Err(SegmentedChangelogError::GraphInconsistent))
            } else {
                Step::Stop(
                    WalkView { awaiting: Some(parent), ..s },
                    Ok(WalkRequest::Fetch(parent)),
                )
            }
        }
    }
}

/// The heads and path entries that are still to be dealt with.
pub open spec fn walk_rank(s: WalkView) -> nat {
    (if s.next_head <= s.heads.len() {
        s.heads.len() - s.next_head
    } else {
        0
    } + s.stack.len()) as nat
}

/// The parents of the commit at the end of the path that are still to be
/// dealt with.
pub open spec fn top_remaining(s: WalkView) -> nat {
    if s.stack.len() > 0 && s.stack.last().next <= s.stack.last().parents.len() {
        (s.stack.last().parents.len() - s.stack.last().next) as nat
    } else {
        0
    }
}

/// The state in which a walk stops next, and what it reports there.
pub open spec fn settle(ids: Map<u64, ChangesetId>, s: WalkView) -> (
    WalkView,
    Result<WalkRequest, SegmentedChangelogError>,
)
    decreases walk_rank(s), top_remaining(s),
{
    match step_once(ids, s) {
        Step::Continue(t) => settle(ids, t),
        Step::Stop(t, outcome) => (t, outcome),
    }
}

/// The parents of the frame that are dealt with are known.
pub open spec fn frame_resolved(
    ids: Map<u64, ChangesetId>,
    batch: Seq<CommitView>,
    f: FrameView,
) -> bool {
    forall|k: int| 0 <= k < f.next && k < f.parents.len() ==> known(ids, batch, #[trigger] f.parents[k])
}

/// The state of a walk is sound: the batch is closed, the heads dealt with
/// are known, and the commits on the path are distinct and new, with their
/// first `next` parents known.
pub open spec fn walk_inv(ids: Map<u64, ChangesetId>, s: WalkView) -> bool {
    &&& batch_closed(ids, s.batch)
    &&& s.next_head <= s.heads.len()
    &&& forall|k: int| 0 <= k < s.next_head ==> known(ids, s.batch, #[trigger] s.heads[k])
    &&& forall|i: int|
        0 <= i < s.stack.len() ==> {
            &&& !known(ids, s.batch, (#[trigger] s.stack[i]).id)
            &&& frame_resolved(ids, s.batch, s.stack[i])
            &&& s.stack[i].next <= s.stack[i].parents.len()
        }
    &&& forall|i: int, j: int|
        0 <= i < j < s.stack.len() ==> (#[trigger] s.stack[i]).id != (#[trigger] s.stack[j]).id
    &&& s.awaiting matches Some(id) ==> !known(ids, s.batch, id) && !on_stack(s.stack, id)
}

/// The state of a walk that has not begun.
pub open spec fn initial_walk(heads: Seq<ChangesetId>) -> WalkView {
    WalkView { heads, next_head: 0, stack: Seq::empty(), batch: Seq::empty(), awaiting: None }
}

/// The state after the open request was answered.
///
/// The parents that are told open a new entry at the end of the path. A
/// commit that the graph does not know fails the walk: `HeadNotFound` when it
/// is one of the heads, `GraphInconsistent` when it is a parent of a commit
/// on the path. An answer that no request asked for is dropped.
pub open spec fn supplied(s: WalkView, reply: Option<Seq<ChangesetId>>) -> Result<
    WalkView,
    SegmentedChangelogError,
> {
    match s.awaiting {
        None => Ok(s),
        Some(id) => match reply {
            Some(parents) => Ok(
                WalkView {
                    stack: s.stack.push(FrameView { id, parents, next: 0 }),
                    awaiting: None,
                    ..s
                },
            ),
            None => if s.stack.len() == 0 {
                Err(SegmentedChangelogError::HeadNotFound)
            } else {
                Err(SegmentedChangelogError::GraphInconsistent)
            },
        },
    }
}

/// What a reply says, as mathematical values.
pub open spec fn reply_view(reply: GraphReply) -> Option<Seq<ChangesetId>> {
    match reply {
        GraphReply::Parents(parents) => Some(parents@),
        GraphReply::Unknown => None,
    }
}

proof fn lemma_known_grows(
    ids: Map<u64, ChangesetId>,
    batch: Seq<CommitView>,
    c: CommitView,
    id: ChangesetId,
)
    requires
        known(ids, batch, id),
    ensures
        known(ids, batch.push(c), id),
{
    if !is_mapped(ids, id) {
        let j = choose|j: int| 0 <= j < batch.len() && (#[trigger] batch[j]).id == id;
        assert(batch.push(c)[j].id == id);
    }
}

/// A move keeps a sound state sound.
pub proof fn lemma_step_keeps_inv(ids: Map<u64, ChangesetId>, s: WalkView)
    requires
        walk_inv(ids, s),
    ensures
        step_once(ids, s) matches Step::Continue(t) ==> walk_inv(ids, t) && (walk_rank(t)
            < walk_rank(s) || (walk_rank(t) == walk_rank(s) && top_remaining(t) < top_remaining(
            s,
        ))),
        step_once(ids, s) matches Step::Stop(t, outcome) ==> walk_inv(ids, t),
{
    if s.awaiting is Some {
    } else if s.stack.len() == 0 {
        if s.next_head < s.heads.len() {
            let head = s.heads[s.next_head as int];
            if !known(ids, s.batch, head) {
                let t = WalkView { awaiting: Some(head), ..s };
                assert(walk_inv(ids, t));
            }
        }
    } else {
        let top = s.stack.last();
        let last = s.stack.len() - 1;
        assert(s.stack[last] == top);
        if top.next >= top.parents.len() {
            let entry = CommitView { id: top.id, parents: top.parents };
            let batch = s.batch.push(entry);
            let t = WalkView { stack: s.stack.drop_last(), batch: batch, ..s };
            assert(batch_closed(ids, batch)) by {
                assert forall|i: int| 0 <= i < batch.len() implies !is_mapped(
                    ids,
                    (#[trigger] batch[i]).id,
                ) by {
                    if i < s.batch.len() {
                        assert(batch[i] == s.batch[i]);
                    }
                }
                assert forall|i: int, j: int| 0 <= i < j < batch.len() implies (
                #[trigger] batch[i]).id != (#[trigger] batch[j]).id by {
                    assert(batch[i] == s.batch[i]);
                    if j < s.batch.len() {
                        assert(batch[j] == s.batch[j]);
                    }
                }
                assert forall|i: int, k: int|
                    0 <= i < batch.len() && 0 <= k < batch[i].parents.len() implies known(
                    ids,
                    batch.take(i),
                    #[trigger] batch[i].parents[k],
                ) by {
                    if i < s.batch.len() {
                        assert(batch[i] == s.batch[i]);
                        assert(batch.take(i) =~= s.batch.take(i));
                        assert(known(ids, s.batch.take(i), s.batch[i].parents[k]));
                    } else {
                        assert(batch.take(i) =~= s.batch);
                        assert(known(ids, s.batch, top.parents[k]));
                    }
                }
            }
            assert forall|k: int| 0 <= k < t.next_head implies known(
                ids,
                t.batch,
                #[trigger] t.heads[k],
            ) by {
                lemma_known_grows(ids, s.batch, entry, s.heads[k]);
            }
            assert forall|i: int| 0 <= i < t.stack.len() implies {
                &&& !known(ids, t.batch, (#[trigger] t.stack[i]).id)
                &&& frame_resolved(ids, t.batch, t.stack[i])
                &&& t.stack[i].next <= t.stack[i].parents.len()
            } by {
                assert(t.stack[i] == s.stack[i]);
                assert(s.stack[i].id != s.stack[last].id);
                if in_batch(batch, s.stack[i].id) {
                    let j = choose|j: int|
                        0 <= j < batch.len() && (#[trigger] batch[j]).id == s.stack[i].id;
                    if j < s.batch.len() {
                        assert(s.batch[j].id == s.stack[i].id);
                    }
                }
                assert forall|k: int|
                    0 <= k < s.stack[i].next && k < s.stack[i].parents.len() implies known(
                    ids,
                    batch,
                    #[trigger] s.stack[i].parents[k],
                ) by {
                    lemma_known_grows(ids, s.batch, entry, s.stack[i].parents[k]);
                }
            }
            assert forall|i: int, j: int| 0 <= i < j < t.stack.len() implies (
            #[trigger] t.stack[i]).id != (#[trigger] t.stack[j]).id by {
                assert(t.stack[i] == s.stack[i] && t.stack[j] == s.stack[j]);
            }
            assert(walk_inv(ids, t));
        } else {
            let parent = top.parents[top.next as int];
            if known(ids, s.batch, parent) {
                let raised = FrameView { next: top.next + 1, ..top };
                let t = WalkView { stack: s.stack.drop_last().push(raised), ..s };
                assert forall|i: int| 0 <= i < t.stack.len() implies {
                    &&& !known(ids, t.batch, (#[trigger] t.stack[i]).id)
                    &&& frame_resolved(ids, t.batch, t.stack[i])
                    &&& t.stack[i].next <= t.stack[i].parents.len()
                } by {
                    if i < last {
                        assert(t.stack[i] == s.stack[i]);
                    } else {
                        assert(t.stack[i] == raised);
                        assert forall|k: int|
                            0 <= k < raised.next && k < raised.parents.len() implies known(
                            ids,
                            s.batch,
                            #[trigger] raised.parents[k],
                        ) by {
                            if k < top.next {
                                assert(known(ids, s.batch, top.parents[k]));
                            }
                        }
                    }
                }
                assert forall|i: int, j: int| 0 <= i < j < t.stack.len() implies (
                #[trigger] t.stack[i]).id != (#[trigger] t.stack[j]).id by {
                    assert(t.stack[i].id == s.stack[i].id && t.stack[j].id == s.stack[j].id);
                    assert(s.stack[i].id != s.stack[j].id);
                }
                assert(walk_inv(ids, t));
            } else if !on_stack(s.stack, parent) {
                let t = WalkView { awaiting: Some(parent), ..s };
                assert(walk_inv(ids, t));
            }
        }
    }
}

/// An answer keeps a sound state sound.
pub proof fn lemma_supplied_keeps_inv(
    ids: Map<u64, ChangesetId>,
    s: WalkView,
    reply: Option<Seq<ChangesetId>>,
)
    requires
        walk_inv(ids, s),
    ensures
        supplied(s, reply) matches Ok(t) ==> walk_inv(ids, t),
{
    if s.awaiting is Some && reply is Some {
        let t = supplied(s, reply)->Ok_0;
        assert forall|i: int| 0 <= i < t.stack.len() implies {
            &&& !known(ids, t.batch, (#[trigger] t.stack[i]).id)
            &&& frame_resolved(ids, t.batch, t.stack[i])
            &&& t.stack[i].next <= t.stack[i].parents.len()
        } by {
            if i < s.stack.len() {
                assert(t.stack[i] == s.stack[i]);
            }
        }
        assert forall|i: int, j: int| 0 <= i < j < t.stack.len() implies (#[trigger] t.stack[i]).id != (
        #[trigger] t.stack[j]).id by {
            assert(t.stack[i] == s.stack[i]);
            if j < s.stack.len() {
                assert(t.stack[j] == s.stack[j]);
            }
        }
    }
}

/// Whether some commit of the batch has the given id.
pub fn batch_contains(batch: &Vec<CommitEntry>, id: ChangesetId) -> (r: bool)
    ensures
        r == in_batch(commit_views(batch@), id),
{
    let mut j: usize = 0;
    while j < batch.len()
        invariant
            j <= batch@.len(),
            forall|i: int| 0 <= i < j ==> (#[trigger] commit_views(batch@)[i]).id != id,
        decreases batch@.len() - j,
    {
        if batch[j].id == id {
            assert(commit_views(batch@)[j as int].id == id);
            return true;
        }
        j += 1;
    }
    false
}

/// A commit whose parents are being looked at.
#[derive(Debug)]
struct Frame {
    id: ChangesetId,
    parents: Vec<ChangesetId>,
    next: usize,
}

impl View for Frame {
    type V = FrameView;

    closed spec fn view(&self) -> FrameView {
        FrameView { id: self.id, parents: self.parents@, next: self.next as nat }
    }
}

spec fn frame_views(stack: Seq<Frame>) -> Seq<FrameView> {
    Seq::new(stack.len(), |i: int| stack[i]@)
}

fn stack_contains(stack: &Vec<Frame>, id: ChangesetId) -> (r: bool)
    ensures
        r == on_stack(frame_views(stack@), id),
{
    let mut j: usize = 0;
    while j < stack.len()
        invariant
            j <= stack@.len(),
            forall|i: int| 0 <= i < j ==> (#[trigger] frame_views(stack@)[i]).id != id,
        decreases stack@.len() - j,
    {
        if stack[j].id == id {
            assert(frame_views(stack@)[j as int].id == id);
            return true;
        }
        j += 1;
    }
    false
}

/// A walk backward from a set of heads that collects the commits a group
/// lacks.
#[derive(Debug)]
pub struct OnDemandWalk {
    heads: Vec<ChangesetId>,
    next_head: usize,
    stack: Vec<Frame>,
    batch: Vec<CommitEntry>,
    awaiting: Option<ChangesetId>,
}

impl View for OnDemandWalk {
    type V = WalkView;

    closed spec fn view(&self) -> WalkView {
        WalkView {
            heads: self.heads@,
            next_head: self.next_head as nat,
            stack: frame_views(self.stack@),
            batch: commit_views(self.batch@),
            awaiting: self.awaiting,
        }
    }
}

impl OnDemandWalk {
    /// The state of the walk is sound with respect to a group with the
    /// given mapping.
    pub open spec fn wf(&self, ids: Map<u64, ChangesetId>) -> bool {
        walk_inv(ids, self@)
    }

    /// A walk toward the given heads that has not begun.
    pub fn start(heads: Vec<ChangesetId>) -> (r: Self)
        ensures
            r@ == initial_walk(heads@),
            forall|ids: Map<u64, ChangesetId>| r.wf(ids),
    {
        let r = OnDemandWalk {
            heads,
            next_head: 0,
            stack: Vec::new(),
            batch: Vec::new(),
            awaiting: None,
        };
        assert(r@.stack =~= Seq::<FrameView>::empty());
        assert(r@.batch =~= Seq::<CommitView>::empty());
        r
    }

    /// Goes on until the walk needs the parents of a commit, is done, or has
    /// found a cycle.
    pub fn next_request(&mut self, base: &Dag) -> (r: Result<WalkRequest, SegmentedChangelogError>)
        requires
            base.wf(),
            old(self).wf(base@.ids),
        ensures
            final(self).wf(base@.ids),
            (final(self)@, r) == settle(base@.ids, old(self)@),
            r == Ok::<WalkRequest, SegmentedChangelogError>(WalkRequest::Done) ==> batch_closed(
                base@.ids,
                final(self)@.batch,
            ) && forall|k: int|
                0 <= k < final(self)@.heads.len() ==> known(
                    base@.ids,
                    final(self)@.batch,
                    #[trigger] final(self)@.heads[k],
                ),
    {
        let ghost ids = base@.ids;
        loop
            invariant
                base.wf(),
                ids == base@.ids,
                walk_inv(ids, self@),
                settle(ids, self@) == settle(ids, old(self)@),
            decreases walk_rank(self@), top_remaining(self@),
        {
            let ghost s = self@;
            proof {
                lemma_step_keeps_inv(ids, s);
            }
            match self.awaiting {
                Some(id) => {
                    return Ok(WalkRequest::Fetch(id));
                },
                None => {},
            }
            match self.stack.pop() {
                None => {
                    assert(self@.stack =~= s.stack);
                    assert(self@ == s);
                    if self.next_head >= self.heads.len() {
                        return Ok(WalkRequest::Done);
                    }
                    let head: ChangesetId = self.heads[self.next_head];
                    let mapped: bool = base.idmap().find_vertex(head).is_some();
                    if mapped || batch_contains(&self.batch, head) {
                        self.next_head = self.next_head + 1;
                        assert(self@ == WalkView { next_head: s.next_head + 1, ..s });
                    } else {
                        self.awaiting = Some(head);
                        assert(self@ == WalkView { awaiting: Some(head), ..s });
                        return Ok(WalkRequest::Fetch(head));
                    }
                },
                Some(frame) => {
                    let mut frame: Frame = frame;
                    let ghost top = s.stack.last();
                    assert(frame@ == top);
                    assert(self@.stack =~= s.stack.drop_last());
                    if frame.next >= frame.parents.len() {
                        self.batch.push(CommitEntry { id: frame.id, parents: frame.parents });
                        assert(self@.batch =~= s.batch.push(
                            CommitView { id: top.id, parents: top.parents },
                        ));
                        assert(self@ == WalkView {
                            stack: s.stack.drop_last(),
                            batch: s.batch.push(CommitView { id: top.id, parents: top.parents }),
                            ..s
                        });
                    } else {
                        let parent: ChangesetId = frame.parents[frame.next];
                        let mapped: bool = base.idmap().find_vertex(parent).is_some();
                        if mapped || batch_contains(&self.batch, parent) {
                            frame.next = frame.next + 1;
                            self.stack.push(frame);
                            assert(self@.stack =~= s.stack.drop_last().push(
                                FrameView { next: top.next + 1, ..top },
                            ));
                            assert(self@ == WalkView {
                                stack: s.stack.drop_last().push(
                                    FrameView { next: top.next + 1, ..top },
                                ),
                                ..s
                            });
                        } else {
                            let cycle: bool = parent == frame.id || stack_contains(
                                &self.stack,
                                parent,
                            );
                            proof {
                                let rest = s.stack.drop_last();
                                if on_stack(s.stack, parent) {
                                    let i = choose|i: int|
                                        0 <= i < s.stack.len() && (#[trigger] s.stack[i]).id
                                            == parent;
                                    if i < rest.len() {
                                        assert(rest[i].id == parent);
                                    }
                                }
                                if on_stack(rest, parent) {
                                    let i = choose|i: int|
                                        0 <= i < rest.len() && (#[trigger] rest[i]).id == parent;
                                    assert(s.stack[i].id == parent);
                                }
                                if parent == top.id {
                                    assert(s.stack[s.stack.len() - 1].id == parent);
                                }
                            }
                            self.stack.push(frame);
                            assert(self@.stack =~= s.stack);
                            if cycle {
                                assert(self@ == s);
                                return Err(SegmentedChangelogError::GraphInconsistent);
                            }
                            self.awaiting = Some(parent);
                            assert(self@ == WalkView { awaiting: Some(parent), ..s });
                            return Ok(WalkRequest::Fetch(parent));
                        }
                    }
                },
            }
        }
    }

    /// Tells the walk what the commit graph says of the commit it asked for.
    ///
    /// On failure the walk is left as it was.
    pub fn supply(&mut self, reply: GraphReply) -> (r: Result<(), SegmentedChangelogError>)
        ensures
            match supplied(old(self)@, reply_view(reply)) {
                Ok(t) => r is Ok && final(self)@ == t,
                Err(e) => r == Err::<(), SegmentedChangelogError>(e) && final(self)@ == old(self)@,
            },
            forall|ids: Map<u64, ChangesetId>| old(self).wf(ids) ==> final(self).wf(ids),
    {
        let id: ChangesetId = match self.awaiting {
            Some(id) => id,
            None => {
                return Ok(());
            },
        };
        let ghost s = self@;
        match reply {
            GraphReply::Parents(parents) => {
                let ghost frame = FrameView { id, parents: parents@, next: 0 };
                self.stack.push(Frame { id, parents, next: 0 });
                self.awaiting = None;
                assert(self@.stack =~= s.stack.push(frame));
                assert(self@ == WalkView { stack: s.stack.push(frame), awaiting: None, ..s });
                proof {
                    let t = self@;
                    assert forall|ids: Map<u64, ChangesetId>| walk_inv(ids, s) implies walk_inv(
                        ids,
                        t,
                    ) by {
                        lemma_supplied_keeps_inv(ids, s, Some(frame.parents));
                    }
                }
                Ok(())
            },
            GraphReply::Unknown => {
                if self.stack.len() == 0 {
                    Err(SegmentedChangelogError::HeadNotFound)
                } else {
                    Err(SegmentedChangelogError::GraphInconsistent)
                }
            },
        }
    }

    /// The missing commits found so far, parents before children.
    pub fn into_batch(self) -> (r: Vec<CommitEntry>)
        ensures
            commit_views(r@) == self@.batch,
    {
        self.batch
    }

    /// Whether the walk has nothing left to do.
    pub fn is_done(&self) -> (r: bool)
        ensures
            r == is_finished(self@),
    {
        self.awaiting.is_none() && self.stack.len() == 0 && self.next_head >= self.heads.len()
    }
}

/// Position `i` of the graph holds the first commit with the given id.
pub open spec fn is_first_with_id(graph: Seq<CommitView>, id: ChangesetId, i: int) -> bool {
    &&& 0 <= i < graph.len()
    &&& graph[i].id == id
    &&& forall|j: int| 0 <= j < i ==> (#[trigger] graph[j]).id != id
}

/// What a commit graph that is held as a list of commits says of a commit:
/// the parents of the first commit of the list with that id, or nothing when
/// the list has no such commit.
pub open spec fn graph_reply(graph: Seq<CommitView>, id: ChangesetId) -> Option<Seq<ChangesetId>> {
    if in_batch(graph, id) {
        Some(graph[choose|i: int| is_first_with_id(graph, id, i)].parents)
    } else {
        None
    }
}

/// What a walk over a commit graph that is held as a list of commits ends
/// with: the batch of a walk that is done, or the failure of a walk that
/// fails. `fuel` bounds the number of commits that the walk may ask for.
pub open spec fn run_walk(
    ids: Map<u64, ChangesetId>,
    graph: Seq<CommitView>,
    s: WalkView,
    fuel: nat,
) -> Result<Seq<CommitView>, SegmentedChangelogError>
    decreases fuel,
{
    let (t, outcome) = settle(ids, s);
    match outcome {
        Err(e) => Err(e),
        Ok(WalkRequest::Done) => Ok(t.batch),
        Ok(WalkRequest::Fetch(id)) => match supplied(t, graph_reply(graph, id)) {
            Err(e) => Err(e),
            Ok(u) => if fuel == 0 {
                Err(SegmentedChangelogError::GraphInconsistent)
            } else {
                run_walk(ids, graph, u, (fuel - 1) as nat)
            },
        },
    }
}

/// Every commit on the path and in the batch is a commit of the graph.
pub open spec fn from_graph(graph: Seq<CommitView>, s: WalkView) -> bool {
    &&& forall|i: int| 0 <= i < s.stack.len() ==> in_batch(graph, (#[trigger] s.stack[i]).id)
    &&& forall|j: int| 0 <= j < s.batch.len() ==> in_batch(graph, (#[trigger] s.batch[j]).id)
}

/// Going on until the next stop moves commits from the path to the batch and
/// brings no commit in.
pub proof fn lemma_settle_keeps_commits(
    ids: Map<u64, ChangesetId>,
    graph: Seq<CommitView>,
    s: WalkView,
)
    requires
        from_graph(graph, s),
    ensures
        from_graph(graph, settle(ids, s).0),
        settle(ids, s).0.heads == s.heads,
        settle(ids, s).0.stack.len() + settle(ids, s).0.batch.len() == s.stack.len()
            + s.batch.len(),
    decreases walk_rank(s), top_remaining(s),
{
    match step_once(ids, s) {
        Step::Continue(t) => {
            assert(from_graph(graph, t) && t.stack.len() + t.batch.len() == s.stack.len()
                + s.batch.len()) by {
                if s.stack.len() > 0 {
                    let top = s.stack.last();
                    assert(s.stack[s.stack.len() - 1] == top);
                    assert forall|i: int| 0 <= i < t.stack.len() implies in_batch(
                        graph,
                        (#[trigger] t.stack[i]).id,
                    ) by {
                        assert(t.stack[i].id == s.stack[i].id);
                    }
                    assert forall|j: int| 0 <= j < t.batch.len() implies in_batch(
                        graph,
                        (#[trigger] t.batch[j]).id,
                    ) by {
                        if j < s.batch.len() {
                            assert(t.batch[j] == s.batch[j]);
                        }
                    }
                }
            }
            lemma_settle_keeps_commits(ids, graph, t);
        },
        Step::Stop(t, outcome) => {},
    }
}

/// A sound walk over a graph that meets a commit of the graph that it does
/// not hold yet holds fewer commits than the graph has.
proof fn lemma_room_for_one(
    ids: Map<u64, ChangesetId>,
    graph: Seq<CommitView>,
    s: WalkView,
    id: ChangesetId,
)
    requires
        walk_inv(ids, s),
        from_graph(graph, s),
        in_batch(graph, id),
        !in_batch(s.batch, id),
        !on_stack(s.stack, id),
    ensures
        s.stack.len() + s.batch.len() < graph.len(),
{
    let on_path = Seq::new(s.stack.len(), |i: int| s.stack[i].id);
    let batched = Seq::new(s.batch.len(), |i: int| s.batch[i].id);
    let held = on_path + batched;
    let all = Seq::new(graph.len(), |i: int| graph[i].id);
    assert forall|i: int, j: int| 0 <= i < held.len() && 0 <= j < held.len() && i != j implies held[i]
        != held[j] by {
        let (a, b) = if i < j {
            (i, j)
        } else {
            (j, i)
        };
        if b < on_path.len() {
            assert(s.stack[a].id != s.stack[b].id);
        } else if a < on_path.len() {
            assert(!known(ids, s.batch, s.stack[a].id));
            assert(s.batch[b - on_path.len()].id == held[b]);
        } else {
            assert(s.batch[a - on_path.len()].id != s.batch[b - on_path.len()].id);
        }
    }
    assert(held.no_duplicates());
    held.unique_seq_to_set();
    all.lemma_cardinality_of_set();
    seq_to_set_is_finite(all);
    let witness = choose|j: int| 0 <= j < graph.len() && (#[trigger] graph[j]).id == id;
    assert(all[witness] == id);
    assert(all.to_set().contains(id));
    assert(held.to_set().subset_of(all.to_set().remove(id))) by {
        assert forall|x: ChangesetId| held.to_set().contains(x) implies all.to_set().remove(
            id,
        ).contains(x) by {
            let i = choose|i: int| 0 <= i < held.len() && held[i] == x;
            if i < on_path.len() {
                assert(s.stack[i].id == x);
                assert(in_batch(graph, s.stack[i].id));
            } else {
                assert(s.batch[i - on_path.len()].id == x);
                assert(in_batch(graph, s.batch[i - on_path.len()].id));
            }
            let j = choose|j: int| 0 <= j < graph.len() && (#[trigger] graph[j]).id == x;
            assert(all[j] == x);
        }
    }
    axiom_set_remove_len(all.to_set(), id);
    lemma_len_subset(held.to_set(), all.to_set().remove(id));
}

/// A copy of a list of changeset ids.
pub fn copy_ids(list: &Vec<ChangesetId>) -> (r: Vec<ChangesetId>)
    ensures
        r@ == list@,
{
    let mut out: Vec<ChangesetId> = Vec::new();
    let mut k: usize = 0;
    while k < list.len()
        invariant
            k <= list@.len(),
            out@ == list@.take(k as int),
        decreases list@.len() - k,
    {
        out.push(list[k]);
        k += 1;
        assert(out@ =~= list@.take(k as int));
    }
    assert(out@ =~= list@);
    out
}

/// What a commit graph that is held as a list of commits says of a commit.
pub fn lookup(graph: &Vec<CommitEntry>, id: ChangesetId) -> (r: GraphReply)
    ensures
        reply_view(r) == graph_reply(commit_views(graph@), id),
{
    let ghost views = commit_views(graph@);
    let mut i: usize = 0;
    while i < graph.len()
        invariant
            views == commit_views(graph@),
            i <= graph@.len(),
            forall|j: int| 0 <= j < i ==> (#[trigger] views[j]).id != id,
        decreases graph@.len() - i,
    {
        if graph[i].id == id {
            proof {
                assert(views[i as int].id == id);
                assert(is_first_with_id(views, id, i as int));
                let k = choose|k: int| is_first_with_id(views, id, k);
                assert(is_first_with_id(views, id, k));
                if k < i {
                    assert(views[k].id != id);
                } else if i < k {
                    assert(views[i as int].id != id);
                }
            }
            return GraphReply::Parents(copy_ids(&graph[i].parents));
        }
        i += 1;
    }
    GraphReply::Unknown
}

/// A walk over a graph asks for each commit of the graph at most once, so
/// that fuel beyond the number of commits that it can still ask for makes no
/// difference to how it ends.
pub proof fn lemma_walk_needs_no_more_fuel(
    ids: Map<u64, ChangesetId>,
    graph: Seq<CommitView>,
    s: WalkView,
    fuel: nat,
)
    requires
        walk_inv(ids, s),
        from_graph(graph, s),
        s.stack.len() + s.batch.len() + fuel >= graph.len(),
    ensures
        run_walk(ids, graph, s, fuel + 1) == run_walk(ids, graph, s, fuel),
    decreases fuel,
{
    let (t, outcome) = settle(ids, s);
    lemma_settle_keeps_commits(ids, graph, s);
    lemma_awaited(ids, s);
    match outcome {
        Ok(WalkRequest::Fetch(id)) => {
            let reply = graph_reply(graph, id);
            match supplied(t, reply) {
                Ok(u) => {
                    lemma_room_for_one(ids, graph, t, id);
                    lemma_supplied_keeps_inv(ids, t, reply);
                    assert(u.stack == t.stack.push(FrameView { id, parents: reply->0, next: 0 }));
                    assert forall|i: int| 0 <= i < u.stack.len() implies in_batch(
                        graph,
                        (#[trigger] u.stack[i]).id,
                    ) by {
                        if i < t.stack.len() {
                            assert(u.stack[i] == t.stack[i]);
                        }
                    }
                    lemma_walk_needs_no_more_fuel(ids, graph, u, (fuel - 1) as nat);
                },
                Err(e) => {},
            }
        },
        _ => {},
    }
}

/// A walk that starts over a graph ends in the same way with any fuel that
/// is at least the number of commits of the graph.
pub proof fn lemma_walk_fuel(
    ids: Map<u64, ChangesetId>,
    graph: Seq<CommitView>,
    heads: Seq<ChangesetId>,
    extra: nat,
)
    ensures
        run_walk(ids, graph, initial_walk(heads), graph.len() + extra) == run_walk(
            ids,
            graph,
            initial_walk(heads),
            graph.len(),
        ),
    decreases extra,
{
    if extra > 0 {
        lemma_walk_fuel(ids, graph, heads, (extra - 1) as nat);
        lemma_walk_needs_no_more_fuel(
            ids,
            graph,
            initial_walk(heads),
            (graph.len() + extra - 1) as nat,
        );
    }
}

/// Walks backward from the heads through a commit graph that is held as a
/// list of commits, and returns the commits that the group lacks, every
/// parent before its children.
///
/// The walk fails with `HeadNotFound` when the graph lacks a head that the
/// group lacks too, and with `GraphInconsistent` when the graph lacks a
/// parent of a commit that it holds or closes a cycle.
pub fn walk_graph(base: &Dag, heads: &Vec<ChangesetId>, graph: &Vec<CommitEntry>) -> (r: Result<
    Vec<CommitEntry>,
    SegmentedChangelogError,
>)
    requires
        base.wf(),
    ensures
        match run_walk(
            base@.ids,
            commit_views(graph@),
            initial_walk(heads@),
            graph@.len(),
        ) {
            Ok(batch) => {
                &&& r matches Ok(found)
                &&& commit_views(found@) == batch
                &&& batch_closed(base@.ids, batch)
                &&& forall|k: int|
                    0 <= k < heads@.len() ==> known(base@.ids, batch, #[trigger] heads@[k])
            },
            Err(e) => r matches Err(f) && f == e,
        },
{
    let ghost ids = base@.ids;
    let ghost views = commit_views(graph@);
    let ghost start = initial_walk(heads@);
    let ghost target = run_walk(ids, views, start, graph@.len());
    let mut walk: OnDemandWalk = OnDemandWalk::start(copy_ids(heads));
    loop
        invariant
            base.wf(),
            ids == base@.ids,
            views == commit_views(graph@),
            target == run_walk(ids, views, initial_walk(heads@), graph@.len()),
            walk.wf(ids),
            walk@.heads == heads@,
            from_graph(views, walk@),
            walk@.stack.len() + walk@.batch.len() <= graph@.len(),
            run_walk(
                ids,
                views,
                walk@,
                (graph@.len() - walk@.stack.len() - walk@.batch.len()) as nat,
            ) == target,
        decreases graph@.len() - walk@.stack.len() - walk@.batch.len(),
    {
        let ghost s = walk@;
        proof {
            lemma_settle_keeps_commits(ids, views, s);
        }
        match walk.next_request(base) {
            Err(e) => {
                return Err(e);
            },
            Ok(WalkRequest::Done) => {
                return Ok(walk.into_batch());
            },
            Ok(WalkRequest::Fetch(id)) => {
                let ghost t = walk@;
                let reply: GraphReply = lookup(graph, id);
                proof {
                    lemma_awaited(ids, s);
                    if graph_reply(views, id) is Some {
                        lemma_room_for_one(ids, views, t, id);
                    }
                }
                match walk.supply(reply) {
                    Err(e) => {
                        return Err(e);
                    },
                    Ok(_) => {
                        proof {
                            let u = walk@;
                            assert(u.stack == t.stack.push(
                                FrameView { id, parents: graph_reply(views, id)->0, next: 0 },
                            ));
                            assert forall|i: int| 0 <= i < u.stack.len() implies in_batch(
                                views,
                                (#[trigger] u.stack[i]).id,
                            ) by {
                                if i < t.stack.len() {
                                    assert(u.stack[i] == t.stack[i]);
                                }
                            }
                        }
                    },
                }
            },
        }
    }
}

/// A walk that stops to ask for a commit is waiting for that commit.
proof fn lemma_awaited(ids: Map<u64, ChangesetId>, s: WalkView)
    requires
        walk_inv(ids, s),
    ensures
        settle(ids, s).1 matches Ok(WalkRequest::Fetch(id)) ==> settle(ids, s).0.awaiting == Some(
            id,
        ) && walk_inv(ids, settle(ids, s).0),
        walk_inv(ids, settle(ids, s).0),
    decreases walk_rank(s), top_remaining(s),
{
    lemma_step_keeps_inv(ids, s);
    match step_once(ids, s) {
        Step::Continue(t) => {
            lemma_awaited(ids, t);
        },
        Step::Stop(t, outcome) => {},
    }
}

/// The group extended by the commits that a finished walk has found: every
/// missing ancestor of the heads gets a vertex, parents before children, and
/// every head is mapped afterwards. The group itself is not changed.
///
/// The only failure is `VertexSpaceExhausted`, when the group has fewer
/// vertex ids left than the walk found commits.
pub fn assign_missing(base: &Dag, walk: OnDemandWalk) -> (r: Result<Dag, SegmentedChangelogError>)
    requires
        base.wf(),
        walk.wf(base@.ids),
        is_finished(walk@),
    ensures
        r is Ok <==> next_id(base@.segments) + walk@.batch.len() <= u64::MAX,
        r matches Ok(dag) ==> dag.wf() && add_commits(base@, walk@.batch) == Ok::<
            GroupView,
            SegmentedChangelogError,
        >(dag@) && all_mapped(dag@.ids, walk@.heads),
        r matches Err(e) ==> e == SegmentedChangelogError::VertexSpaceExhausted,
{
    let ghost s = walk@;
    let batch: Vec<CommitEntry> = walk.into_batch();
    proof {
        lemma_closed_batch_is_accepted(base@, s.batch);
    }
    match base.extended(&batch) {
        Ok(dag) => {
            proof {
                lemma_add_commits(base@, s.batch);
                assert forall|k: int| 0 <= k < s.heads.len() implies is_mapped(
                    dag@.ids,
                    #[trigger] s.heads[k],
                ) by {
                    let head = s.heads[k];
                    assert(known(base@.ids, s.batch, head));
                    if is_mapped(base@.ids, head) {
                        assert(vertex_of(dag@.ids, head) == vertex_of(base@.ids, head));
                    } else {
                        let j = choose|j: int|
                            0 <= j < s.batch.len() && (#[trigger] s.batch[j]).id == head;
                        assert(vertex_of(dag@.ids, s.batch[j].id) is Some);
                    }
                }
            }
            Ok(dag)
        },
        Err(e) => Err(e),
    }
}

} // verus!
