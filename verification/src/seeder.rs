//! Building a group from a whole commit graph in one pass.

use vstd::prelude::*;
use crate::dag::add_commit;
use crate::dag::add_commits;
use crate::dag::all_mapped;
use crate::dag::lemma_add_commits;
use crate::dag::empty_group;
use crate::dag::resolve;
use crate::dag::vertices_of;
use crate::dag::Dag;
use crate::dag::GroupView;
use crate::iddag::appended;
use crate::iddag::first_ancestor;
use crate::iddag::lemma_parents_in_segment;
use crate::iddag::lemma_walk_in_segment;
use crate::iddag::next_id;
use crate::iddag::segments_wf;
use crate::idmap::injective;
use crate::on_demand::graph_reply;
use crate::on_demand::in_batch;
use crate::on_demand::initial_walk;
use crate::on_demand::is_first_with_id;
use crate::on_demand::on_stack;
use crate::on_demand::settle;
use crate::on_demand::step_once;
use crate::on_demand::supplied;
use crate::on_demand::FrameView;
use crate::on_demand::Step;
use crate::on_demand::WalkRequest;
use crate::on_demand::WalkView;
use crate::on_demand::known;
use crate::on_demand::lemma_closed_batch_is_accepted;
use crate::on_demand::run_walk;
use crate::on_demand::walk_graph;
use crate::idmap::is_mapped;
use crate::idmap::lemma_vertex_of_unique;
use crate::idmap::vertex_of;
use crate::types::commit_views;
use crate::types::ChangesetId;
use crate::types::CommitEntry;
use crate::types::CommitView;
use crate::types::Location;
use crate::types::SegmentView;
use crate::types::SegmentedChangelogError;

verus! {

/// The commits form one chain without merges: they are distinct, the first
/// has no parent, and each later one has the commit before it as its only
/// parent.
pub open spec fn is_linear_chain(batch: Seq<CommitView>) -> bool {
    &&& forall|i: int, j: int|
        0 <= i < j < batch.len() ==> (#[trigger] batch[i]).id != (#[trigger] batch[j]).id
    &&& batch.len() > 0 ==> batch[0].parents == Seq::<ChangesetId>::empty()
    &&& forall|i: int| 0 < i < batch.len() ==> (#[trigger] batch[i]).parents == seq![batch[i - 1].id]
}

/// The group of a chain without merges: commit `i` sits on vertex `i`, and
/// one segment without parents holds them all.
pub open spec fn chain_group(batch: Seq<CommitView>) -> GroupView {
    GroupView {
        ids: Map::new(|v: u64| v < batch.len(), |v: u64| batch[v as int].id),
        segments: if batch.len() == 0 {
            Seq::empty()
        } else {
            seq![SegmentView { low: 0, high: (batch.len() - 1) as u64, parents: Seq::empty() }]
        },
    }
}

/// Seeding a chain without merges gives the group of the chain.
pub proof fn lemma_seed_linear_chain(batch: Seq<CommitView>)
    requires
        is_linear_chain(batch),
        batch.len() < u64::MAX,
    ensures
        add_commits(empty_group(), batch) == Ok::<GroupView, SegmentedChangelogError>(
            chain_group(batch),
        ),
        injective(chain_group(batch).ids),
        segments_wf(chain_group(batch).segments),
    decreases batch.len(),
{
    let g = chain_group(batch);
    assert(injective(g.ids)) by {
        assert forall|u: u64, v: u64|
            g.ids.dom().contains(u) && g.ids.dom().contains(v) && g.ids[u] == g.ids[v] implies u
            == v by {
            if u < v {
                assert(batch[u as int].id != batch[v as int].id);
            } else if v < u {
                assert(batch[v as int].id != batch[u as int].id);
            }
        }
    }
    if batch.len() == 0 {
        assert(g.ids =~= Map::<u64, ChangesetId>::empty());
        assert(g.segments =~= Seq::<SegmentView>::empty());
    } else {
        let front = batch.drop_last();
        let last = batch.last();
        let n = (batch.len() - 1) as u64;
        assert(is_linear_chain(front)) by {
            assert forall|i: int, j: int| 0 <= i < j < front.len() implies (#[trigger] front[i]).id != (
            #[trigger] front[j]).id by {
                assert(batch[i].id != batch[j].id);
            }
            assert forall|i: int| 0 < i < front.len() implies (#[trigger] front[i]).parents
                == seq![front[i - 1].id] by {
                assert(batch[i].parents == seq![batch[i - 1].id]);
            }
            if front.len() > 0 {
                assert(front[0] == batch[0]);
            }
        }
        lemma_seed_linear_chain(front);
        let h = chain_group(front);
        assert(!is_mapped(h.ids, last.id)) by {
            if is_mapped(h.ids, last.id) {
                let v = choose|v: u64| h.ids.dom().contains(v) && #[trigger] h.ids[v] == last.id;
                assert(batch[v as int].id != batch[n as int].id);
            }
        }
        assert(next_id(h.segments) == n);
        if n == 0 {
            assert(vertices_of(h.ids, last.parents) =~= Seq::<u64>::empty());
            assert(appended(h.segments, Seq::<u64>::empty()) =~= g.segments);
        } else {
            let p = (n - 1) as u64;
            assert(last.parents == seq![batch[n - 1].id]);
            assert(h.ids.dom().contains(p) && h.ids[p] == batch[n - 1].id);
            lemma_vertex_of_unique(h.ids, p);
            assert(is_mapped(h.ids, last.parents[0]));
            assert(vertices_of(h.ids, last.parents) =~= seq![p]);
            assert(seq![p].len() == 1 && seq![p][0] == h.segments.last().high);
            assert(appended(h.segments, seq![p]) =~= g.segments);
        }
        assert(h.ids.insert(n, last.id) =~= g.ids);
        assert(add_commit(h, last) == Ok::<GroupView, SegmentedChangelogError>(g));
    }
}

/// In the group seeded from a chain without merges of `n + 1` commits, the
/// commit `k` first-parent steps behind the head is the `k`-th commit back
/// along the chain for every `k` up to `n`, and there is none for a larger
/// `k`.
pub proof fn lemma_linear_chain_distance(batch: Seq<CommitView>, k: u64)
    requires
        is_linear_chain(batch),
        0 < batch.len() < u64::MAX,
    ensures
        add_commits(empty_group(), batch) == Ok::<GroupView, SegmentedChangelogError>(
            chain_group(batch),
        ),
        vertex_of(chain_group(batch).ids, batch.last().id) == Some((batch.len() - 1) as u64),
        k < batch.len() ==> first_ancestor(
            chain_group(batch).segments,
            (batch.len() - 1) as u64,
            k as nat,
        ) == vertex_of(chain_group(batch).ids, batch[batch.len() - 1 - k].id),
        k < batch.len() ==> resolve(
            chain_group(batch),
            Location { known: batch.last().id, distance: k },
            1,
        ) == Ok::<Seq<ChangesetId>, SegmentedChangelogError>(seq![batch[batch.len() - 1 - k].id]),
        k >= batch.len() ==> first_ancestor(
            chain_group(batch).segments,
            (batch.len() - 1) as u64,
            k as nat,
        ) is None,
        k >= batch.len() ==> resolve(
            chain_group(batch),
            Location { known: batch.last().id, distance: k },
            1,
        ) == Err::<Seq<ChangesetId>, SegmentedChangelogError>(
            SegmentedChangelogError::HeadNotFound,
        ),
{
    lemma_seed_linear_chain(batch);
    let g = chain_group(batch);
    let n = (batch.len() - 1) as u64;
    assert(g.ids.dom().contains(n) && g.ids[n] == batch.last().id);
    lemma_vertex_of_unique(g.ids, n);
    if k <= n {
        let t = (n - k) as u64;
        lemma_walk_in_segment(g.segments, 0, n, k as nat, k as nat);
        lemma_parents_in_segment(g.segments, 0, t);
        assert(g.ids.dom().contains(t) && g.ids[t] == batch[n - k].id);
        lemma_vertex_of_unique(g.ids, t);
        assert(resolve(g, Location { known: batch.last().id, distance: k }, 1)->Ok_0
            =~= seq![batch[n - k].id]);
    } else {
        lemma_walk_in_segment(g.segments, 0, n, n as nat, k as nat);
        lemma_parents_in_segment(g.segments, 0, 0);
    }
}

/// The graph tells of every commit of the batch the parents that the batch
/// gives it.
pub open spec fn tells_parents(graph: Seq<CommitView>, batch: Seq<CommitView>) -> bool {
    forall|i: int|
        0 <= i < batch.len() ==> graph_reply(graph, (#[trigger] batch[i]).id) == Some(
            batch[i].parents,
        )
}

/// A list of distinct commits, taken as a graph, tells of each of them the
/// parents that the list gives it.
pub proof fn lemma_distinct_commits_tell_parents(batch: Seq<CommitView>)
    requires
        forall|i: int, j: int|
            0 <= i < j < batch.len() ==> (#[trigger] batch[i]).id != (#[trigger] batch[j]).id,
    ensures
        tells_parents(batch, batch),
{
    assert forall|i: int| 0 <= i < batch.len() implies graph_reply(batch, (#[trigger] batch[i]).id)
        == Some(batch[i].parents) by {
        let id = batch[i].id;
        assert(is_first_with_id(batch, id, i)) by {
            assert forall|j: int| 0 <= j < i implies (#[trigger] batch[j]).id != id by {
                assert(batch[j].id != batch[i].id);
            }
        }
        let k = choose|k: int| is_first_with_id(batch, id, k);
        if k < i {
            assert(batch[k].id != batch[i].id);
        } else if i < k {
            assert(batch[i].id != batch[k].id);
        }
    }
}

/// The state of a walk from the last commit of a chain in which the path
/// holds the commits from the last one down to commit `low`, and the batch
/// holds the first `done` commits.
spec fn chain_walk(batch: Seq<CommitView>, low: int, done: int) -> WalkView {
    WalkView {
        heads: seq![batch.last().id],
        next_head: 0,
        stack: Seq::new(
            (batch.len() - low) as nat,
            |k: int|
                FrameView {
                    id: batch[batch.len() - 1 - k].id,
                    parents: batch[batch.len() - 1 - k].parents,
                    next: 0,
                },
        ),
        batch: batch.take(done),
        awaiting: None,
    }
}

proof fn lemma_chain_unwinds(batch: Seq<CommitView>, j: int)
    requires
        is_linear_chain(batch),
        0 <= j <= batch.len(),
        batch.len() > 0,
    ensures
        settle(Map::empty(), chain_walk(batch, j, j)) == (
            WalkView { next_head: 1, ..chain_walk(batch, batch.len() as int, batch.len() as int) },
            Ok::<WalkRequest, SegmentedChangelogError>(WalkRequest::Done),
        ),
    decreases batch.len() - j,
{
    let ids = Map::<u64, ChangesetId>::empty();
    let n = batch.len() as int;
    let s = chain_walk(batch, j, j);
    if j == n {
        assert(batch.take(n) =~= batch);
        assert(batch[n - 1].id == s.heads[0]);
        assert(in_batch(s.batch, s.heads[0]));
        let t = WalkView { next_head: 1, ..s };
        assert(step_once(ids, s) == Step::Continue(t));
        assert(step_once(ids, t) == Step::Stop(t, Ok(WalkRequest::Done)));
        assert(settle(ids, t) == (t, Ok::<WalkRequest, SegmentedChangelogError>(WalkRequest::Done)));
        assert(settle(ids, s) == settle(ids, t));
    } else {
        let top = s.stack.last();
        assert(top == FrameView { id: batch[j].id, parents: batch[j].parents, next: 0 });
        let entry = CommitView { id: top.id, parents: top.parents };
        assert(entry == batch[j]);
        let after = chain_walk(batch, j + 1, j + 1);
        assert(s.stack.drop_last() =~= after.stack);
        assert(s.batch.push(entry) =~= after.batch);
        if j == 0 {
            assert(step_once(ids, s) == Step::Continue(after));
            assert(settle(ids, s) == settle(ids, after));
        } else {
            assert(batch[j].parents == seq![batch[j - 1].id]);
            assert(s.batch[j - 1].id == top.parents[0]);
            assert(in_batch(s.batch, top.parents[0]));
            let raised = FrameView { next: 1, ..top };
            let m = WalkView { stack: s.stack.drop_last().push(raised), ..s };
            assert(step_once(ids, s) == Step::Continue(m));
            assert(m.stack.last() == raised);
            assert(m.stack.drop_last() =~= after.stack);
            assert(step_once(ids, m) == Step::Continue(after));
            assert(settle(ids, m) == settle(ids, after));
            assert(settle(ids, s) == settle(ids, m));
        }
        lemma_chain_unwinds(batch, j + 1);
    }
}

proof fn lemma_chain_descends(batch: Seq<CommitView>, graph: Seq<CommitView>, low: int, fuel: nat)
    requires
        is_linear_chain(batch),
        batch.len() > 0,
        tells_parents(graph, batch),
        0 <= low <= batch.len(),
        fuel >= low,
    ensures
        run_walk(Map::empty(), graph, chain_walk(batch, low, 0), fuel) == Ok::<
            Seq<CommitView>,
            SegmentedChangelogError,
        >(batch),
    decreases low,
{
    let ids = Map::<u64, ChangesetId>::empty();
    let n = batch.len() as int;
    let s = chain_walk(batch, low, 0);
    if low == 0 {
        lemma_chain_unwinds(batch, 0);
        assert(batch.take(n) =~= batch);
    } else {
        let wanted = batch[low - 1];
        assert(!known(ids, s.batch, wanted.id));
        assert(!on_stack(s.stack, wanted.id)) by {
            if on_stack(s.stack, wanted.id) {
                let k = choose|k: int| 0 <= k < s.stack.len() && (#[trigger] s.stack[k]).id == wanted.id;
                assert(batch[low - 1].id != batch[n - 1 - k].id);
            }
        }
        let waiting = WalkView { awaiting: Some(wanted.id), ..s };
        if low == n {
            assert(s.heads[0] == wanted.id);
        } else {
            let top = s.stack.last();
            assert(top == FrameView { id: batch[low].id, parents: batch[low].parents, next: 0 });
            assert(batch[low].parents == seq![batch[low - 1].id]);
            assert(top.parents[0] == wanted.id);
        }
        assert(step_once(ids, s) == Step::Stop(waiting, Ok(WalkRequest::Fetch(wanted.id))));
        assert(settle(ids, s) == (
            waiting,
            Ok::<WalkRequest, SegmentedChangelogError>(WalkRequest::Fetch(wanted.id)),
        ));
        assert(graph_reply(graph, wanted.id) == Some(wanted.parents));
        let next = chain_walk(batch, low - 1, 0);
        assert(waiting.stack.push(FrameView { id: wanted.id, parents: wanted.parents, next: 0 })
            =~= next.stack);
        assert(supplied(waiting, Some(wanted.parents)) == Ok::<WalkView, SegmentedChangelogError>(
            next,
        ));
        lemma_chain_descends(batch, graph, low - 1, (fuel - 1) as nat);
    }
}

/// Seeding by traversal from the last commit of a chain without merges,
/// through a graph that tells the parents of the commits of the chain, gives
/// the group of the chain: the traversal meets the commits of the chain in
/// their order.
pub proof fn lemma_traversal_of_linear_chain(batch: Seq<CommitView>, graph: Seq<CommitView>)
    requires
        is_linear_chain(batch),
        batch.len() > 0,
        tells_parents(graph, batch),
        graph.len() >= batch.len(),
    ensures
        run_walk(Map::empty(), graph, initial_walk(seq![batch.last().id]), graph.len()) == Ok::<
            Seq<CommitView>,
            SegmentedChangelogError,
        >(batch),
{
    let start = chain_walk(batch, batch.len() as int, 0);
    assert(start.stack =~= Seq::<FrameView>::empty());
    assert(start.batch =~= Seq::<CommitView>::empty());
    assert(start == initial_walk(seq![batch.last().id]));
    lemma_chain_descends(batch, graph, batch.len() as int, graph.len());
}

/// Builds groups from whole commit graphs.
#[derive(Clone, Copy, Debug)]
pub struct Seeder;

impl Seeder {
    /// Builds the group of the given commits, which come in an order in which
    /// every parent stands before its children. Commit `i` of the list gets
    /// vertex `i`.
    ///
    /// Nothing is built when a commit is refused: one that occurs twice is
    /// `Inconsistent`, one named before one of its parents is
    /// `GraphInconsistent`.
    pub fn build_in_order(commits: &Vec<CommitEntry>) -> (r: Result<Dag, SegmentedChangelogError>)
        ensures
            match add_commits(empty_group(), commit_views(commits@)) {
                Ok(g) => r matches Ok(dag) && dag@ == g && dag.wf(),
                Err(e) => r matches Err(f) && f == e,
            },
    {
        let empty: Dag = Dag::new();
        empty.extended(commits)
    }

    /// Builds the group of a whole commit graph in one traversal: walks the
    /// graph backward from the leaves and gives every commit it meets a
    /// vertex, each after its own parents. The graph is held as a list of
    /// commits, in any order.
    ///
    /// Nothing is built when the traversal fails: with `HeadNotFound` when
    /// the graph lacks a leaf, with `GraphInconsistent` when it lacks a
    /// parent of one of its commits or closes a cycle.
    pub fn build_from_full_graph(graph: &Vec<CommitEntry>, leaf_set: &Vec<ChangesetId>) -> (r:
        Result<Dag, SegmentedChangelogError>)
        ensures
            match run_walk(
                Map::empty(),
                commit_views(graph@),
                initial_walk(leaf_set@),
                graph@.len(),
            ) {
                Ok(batch) => {
                    &&& r matches Ok(dag)
                    &&& dag.wf()
                    &&& add_commits(empty_group(), batch) == Ok::<
                        GroupView,
                        SegmentedChangelogError,
                    >(dag@)
                    &&& all_mapped(dag@.ids, leaf_set@)
                },
                Err(e) => r matches Err(f) && f == e,
            },
    {
        let empty: Dag = Dag::new();
        let found: Vec<CommitEntry> = match walk_graph(&empty, leaf_set, graph) {
            Ok(found) => found,
            Err(e) => {
                return Err(e);
            },
        };
        let ghost batch = commit_views(found@);
        proof {
            lemma_closed_batch_is_accepted(empty_group(), batch);
        }
        match empty.extended(&found) {
            Ok(dag) => {
                proof {
                    lemma_add_commits(empty_group(), batch);
                    assert forall|k: int| 0 <= k < leaf_set@.len() implies is_mapped(
                        dag@.ids,
                        #[trigger] leaf_set@[k],
                    ) by {
                        let head = leaf_set@[k];
                        assert(known(empty_group().ids, batch, head));
                        let j = choose|j: int| 0 <= j < batch.len() && (#[trigger] batch[j]).id == head;
                        assert(vertex_of(dag@.ids, batch[j].id) is Some);
                    }
                }
                Ok(dag)
            },
            Err(e) => Err(e),
        }
    }
}

} // verus!
