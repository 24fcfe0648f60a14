//! Extending a group by the commits that arrived since its head.

use vstd::prelude::*;
use crate::dag::add_commits;
use crate::dag::all_mapped;
use crate::dag::lemma_add_commits;
use crate::dag::Dag;
use crate::dag::GroupView;
use crate::iddag::is_ancestor_of;
use crate::iddag::next_id;
use crate::idmap::is_mapped;
use crate::idmap::vertex_of;
use crate::on_demand::initial_walk;
use crate::on_demand::run_walk;
use crate::on_demand::walk_graph;
use crate::types::commit_views;
use crate::types::ChangesetId;
use crate::types::CommitEntry;
use crate::types::CommitView;
use crate::types::SegmentedChangelogError;
use crate::types::Vertex;

verus! {

/// What an advance did.
#[derive(Clone, Copy, Debug, PartialEq, Eq, Structural)]
pub enum AppendResult {
    /// Every head asked for was in the group already; nothing changed.
    AlreadyUpToDate,
    /// `count` commits were added, on the vertices starting at `first`.
    Appended { first: Vertex, count: u64 },
}

/// The head of `before` is an ancestor, in `after`, of one of the heads.
pub open spec fn continues(before: GroupView, after: GroupView, heads: Seq<ChangesetId>) -> bool {
    exists|k: int|
        0 <= k < heads.len() && is_ancestor_of(
            after.segments,
            (next_id(before.segments) - 1) as u64,
            vertex_of(after.ids, #[trigger] heads[k])->0,
        )
}

/// What advancing a group to the given heads with the given new commits
/// gives: `None` when every head is in the group already, else the group
/// extended by the new commits.
///
/// The advance fails as the extension fails; with `HeadNotFound` when a head
/// is still missing after the extension; and with `Diverged` when the group
/// had a head and that head is not an ancestor of any of the heads asked for.
pub open spec fn advance(g: GroupView, heads: Seq<ChangesetId>, delta: Seq<CommitView>) -> Result<
    Option<GroupView>,
    SegmentedChangelogError,
> {
    if all_mapped(g.ids, heads) {
        Ok(None)
    } else {
        match add_commits(g, delta) {
            Err(e) => Err(e),
            Ok(h) => if !all_mapped(h.ids, heads) {
                Err(SegmentedChangelogError::HeadNotFound)
            } else if next_id(g.segments) > 0 && !continues(g, h, heads) {
                Err(SegmentedChangelogError::Diverged)
            } else {
                Ok(Some(h))
            },
        }
    }
}

/// What advancing a group to the given heads through a commit graph that is
/// held as a list of commits gives: `None` when every head is in the group
/// already, else what advancing with the commits that a walk backward from
/// the heads finds gives. The advance fails as the walk fails.
pub open spec fn advance_through(
    g: GroupView,
    heads: Seq<ChangesetId>,
    graph: Seq<CommitView>,
) -> Result<Option<GroupView>, SegmentedChangelogError> {
    if all_mapped(g.ids, heads) {
        Ok(None)
    } else {
        match run_walk(g.ids, graph, initial_walk(heads), graph.len()) {
            Err(e) => Err(e),
            Ok(delta) => advance(g, heads, delta),
        }
    }
}

/// The result `r` and the group `after` are what an advance of the group
/// `before` leaves, given what the advance is to give: the group is replaced
/// only when the advance gives a group, and the result then names the
/// vertices that were added.
pub open spec fn is_outcome(
    before: GroupView,
    expected: Result<Option<GroupView>, SegmentedChangelogError>,
    after: GroupView,
    r: Result<AppendResult, SegmentedChangelogError>,
) -> bool {
    match expected {
        Ok(None) => r == Ok::<AppendResult, SegmentedChangelogError>(AppendResult::AlreadyUpToDate)
            && after == before,
        Ok(Some(h)) => r == Ok::<AppendResult, SegmentedChangelogError>(
            AppendResult::Appended {
                first: next_id(before.segments) as u64,
                count: (next_id(h.segments) - next_id(before.segments)) as u64,
            },
        ) && after == h,
        Err(e) => r == Err::<AppendResult, SegmentedChangelogError>(e) && after == before,
    }
}

/// Advancing to the same heads again changes nothing and reports that the
/// group is up to date, whatever commits are offered the second time.
pub proof fn lemma_advance_idempotent(
    g: GroupView,
    heads: Seq<ChangesetId>,
    delta: Seq<CommitView>,
    again: Seq<CommitView>,
)
    requires
        advance(g, heads, delta) is Ok,
    ensures
        advance(g, heads, delta) matches Ok(Some(h)) ==> advance(h, heads, again) == Ok::<
            Option<GroupView>,
            SegmentedChangelogError,
        >(None),
        advance(g, heads, delta) matches Ok(None) ==> advance(g, heads, again) == Ok::<
            Option<GroupView>,
            SegmentedChangelogError,
        >(None),
{
}

/// Advancing through a commit graph to the same heads again changes nothing
/// and reports that the group is up to date, whatever the graph holds the
/// second time.
pub proof fn lemma_advance_through_idempotent(
    g: GroupView,
    heads: Seq<ChangesetId>,
    graph: Seq<CommitView>,
    again: Seq<CommitView>,
)
    requires
        advance_through(g, heads, graph) is Ok,
    ensures
        advance_through(g, heads, graph) matches Ok(Some(h)) ==> advance_through(h, heads, again)
            == Ok::<Option<GroupView>, SegmentedChangelogError>(None),
        advance_through(g, heads, graph) matches Ok(None) ==> advance_through(g, heads, again)
            == Ok::<Option<GroupView>, SegmentedChangelogError>(None),
{
}

/// Whether every listed changeset id is mapped in the group.
pub fn all_heads_mapped(dag: &Dag, heads: &Vec<ChangesetId>) -> (r: bool)
    requires
        dag.wf(),
    ensures
        r == all_mapped(dag@.ids, heads@),
{
    let mut k: usize = 0;
    while k < heads.len()
        invariant
            dag.wf(),
            k <= heads@.len(),
            forall|i: int| 0 <= i < k ==> is_mapped(dag@.ids, #[trigger] heads@[i]),
        decreases heads@.len() - k,
    {
        if dag.idmap().find_vertex(heads[k]).is_none() {
            assert(!is_mapped(dag@.ids, heads@[k as int]));
            return false;
        }
        k += 1;
    }
    true
}

/// Keeps one group current as new commits arrive.
#[derive(Debug)]
pub struct Tailer {
    dag: Dag,
}

impl View for Tailer {
    type V = GroupView;

    closed spec fn view(&self) -> GroupView {
        self.dag@
    }
}

impl Tailer {
    /// The group that is kept is valid.
    pub closed spec fn wf(&self) -> bool {
        self.dag.wf()
    }

    /// A tailer that continues the given group.
    pub fn new(dag: Dag) -> (r: Self)
        requires
            dag.wf(),
        ensures
            r.wf(),
            r@ == dag@,
    {
        Tailer { dag }
    }

    /// The group as it stands.
    pub fn dag(&self) -> (r: &Dag)
        requires
            self.wf(),
        ensures
            r.wf(),
            r@ == self@,
    {
        &self.dag
    }

    /// Gives the group up.
    pub fn into_dag(self) -> (r: Dag)
        requires
            self.wf(),
        ensures
            r.wf(),
            r@ == self@,
    {
        self.dag
    }

    /// Advances the group to the given heads. `delta` holds the commits that
    /// can be reached from the heads and are not in the group yet, every
    /// parent before its children.
    ///
    /// When every head is in the group already, nothing changes and the
    /// result is `AlreadyUpToDate`. On failure the group is left as it was.
    pub fn advance_to(&mut self, new_heads: &Vec<ChangesetId>, delta: &Vec<CommitEntry>) -> (r:
        Result<AppendResult, SegmentedChangelogError>)
        requires
            old(self).wf(),
        ensures
            final(self).wf(),
            is_outcome(
                old(self)@,
                advance(old(self)@, new_heads@, commit_views(delta@)),
                final(self)@,
                r,
            ),
    {
        if all_heads_mapped(&self.dag, new_heads) {
            return Ok(AppendResult::AlreadyUpToDate);
        }
        let extended: Dag = match self.dag.extended(delta) {
            Ok(dag) => dag,
            Err(e) => {
                return Err(e);
            },
        };
        proof {
            lemma_add_commits(self@, commit_views(delta@));
        }
        if !all_heads_mapped(&extended, new_heads) {
            return Err(SegmentedChangelogError::HeadNotFound);
        }
        let first: Vertex = self.dag.iddag().next_id();
        match self.dag.head() {
            Some(old_head) => {
                let mut found: bool = false;
                let mut k: usize = 0;
                while k < new_heads.len() && !found
                    invariant
                        extended.wf(),
                        all_mapped(extended@.ids, new_heads@),
                        k <= new_heads@.len(),
                        found ==> exists|i: int|
                            0 <= i < new_heads@.len() && is_ancestor_of(
                                extended@.segments,
                                old_head,
                                vertex_of(extended@.ids, #[trigger] new_heads@[i])->0,
                            ),
                        !found ==> forall|i: int|
                            0 <= i < k ==> !is_ancestor_of(
                                extended@.segments,
                                old_head,
                                vertex_of(extended@.ids, #[trigger] new_heads@[i])->0,
                            ),
                    decreases new_heads@.len() - k,
                {
                    assert(is_mapped(extended@.ids, new_heads@[k as int]));
                    match extended.idmap().find_vertex(new_heads[k]) {
                        Some(v) => {
                            if extended.iddag().is_ancestor(old_head, v) {
                                found = true;
                            }
                        },
                        None => {},
                    }
                    k += 1;
                }
                if !found {
                    return Err(SegmentedChangelogError::Diverged);
                }
            },
            None => {},
        }
        let count: u64 = extended.iddag().next_id() - first;
        self.dag = extended;
        Ok(AppendResult::Appended { first, count })
    }

    /// Advances the group to the given heads through a commit graph that is
    /// held as a list of commits: finds the commits that the group lacks by
    /// walking the graph backward from the heads, and adds them.
    ///
    /// When every head is in the group already, nothing changes and the
    /// result is `AlreadyUpToDate`. The advance fails as the walk fails, with
    /// `HeadNotFound` for a head that neither the group nor the graph holds,
    /// and else as `advance_to` fails. On failure the group is left as it
    /// was.
    pub fn advance_in_graph(&mut self, new_heads: &Vec<ChangesetId>, graph: &Vec<CommitEntry>) -> (r:
        Result<AppendResult, SegmentedChangelogError>)
        requires
            old(self).wf(),
        ensures
            final(self).wf(),
            is_outcome(
                old(self)@,
                advance_through(old(self)@, new_heads@, commit_views(graph@)),
                final(self)@,
                r,
            ),
    {
        if all_heads_mapped(&self.dag, new_heads) {
            return Ok(AppendResult::AlreadyUpToDate);
        }
        let delta: Vec<CommitEntry> = match walk_graph(&self.dag, new_heads, graph) {
            Ok(delta) => delta,
            Err(e) => {
                return Err(e);
            },
        };
        self.advance_to(new_heads, &delta)
    }
}

} // verus!
