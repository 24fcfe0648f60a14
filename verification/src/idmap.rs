//! The one-to-one mapping between changeset ids and vertices of one group.

use vstd::prelude::*;
use crate::types::ChangesetId;
use crate::types::SegmentedChangelogError;
use crate::types::Vertex;

verus! {

/// No two vertices of the mapping carry the same changeset id.
pub open spec fn injective(m: Map<u64, ChangesetId>) -> bool {
    forall|u: u64, v: u64|
        m.dom().contains(u) && m.dom().contains(v) && m[u] == m[v] ==> u == v
}

/// Some vertex of the mapping carries `cs`.
pub open spec fn is_mapped(m: Map<u64, ChangesetId>, cs: ChangesetId) -> bool {
    exists|v: u64| m.dom().contains(v) && #[trigger] m[v] == cs
}

/// The vertex that carries `cs`, if any.
pub open spec fn vertex_of(m: Map<u64, ChangesetId>, cs: ChangesetId) -> Option<u64> {
    if is_mapped(m, cs) {
        Some(choose|v: u64| m.dom().contains(v) && #[trigger] m[v] == cs)
    } else {
        None
    }
}

/// The changeset id that `v` carries, if any.
pub open spec fn changeset_of(m: Map<u64, ChangesetId>, v: u64) -> Option<ChangesetId> {
    if m.dom().contains(v) {
        Some(m[v])
    } else {
        None
    }
}

/// In a one-to-one mapping, the vertex of a changeset id is the only vertex
/// that carries it.
pub proof fn lemma_vertex_of_unique(m: Map<u64, ChangesetId>, v: u64)
    requires
        injective(m),
        m.dom().contains(v),
    ensures
        vertex_of(m, m[v]) == Some(v),
{
    assert(is_mapped(m, m[v]));
}

/// Looking a changeset id up and then its vertex gives the changeset id
/// back, and looking a vertex up and then its changeset id gives the vertex
/// back.
pub proof fn lemma_bijection(m: Map<u64, ChangesetId>, cs: ChangesetId, v: u64)
    requires
        injective(m),
    ensures
        vertex_of(m, cs) matches Some(u) ==> changeset_of(m, u) == Some(cs),
        changeset_of(m, v) matches Some(c) ==> vertex_of(m, c) == Some(v),
{
    if m.dom().contains(v) {
        lemma_vertex_of_unique(m, v);
    }
}

spec fn has_vertex(s: Seq<(u64, ChangesetId)>, v: u64) -> bool {
    exists|i: int| 0 <= i < s.len() && (#[trigger] s[i]).0 == v
}

spec fn index_of_vertex(s: Seq<(u64, ChangesetId)>, v: u64) -> int {
    choose|i: int| 0 <= i < s.len() && (#[trigger] s[i]).0 == v
}

spec fn as_map(s: Seq<(u64, ChangesetId)>) -> Map<u64, ChangesetId> {
    Map::new(|v: u64| has_vertex(s, v), |v: u64| s[index_of_vertex(s, v)].1)
}

spec fn sorted(s: Seq<(u64, ChangesetId)>) -> bool {
    forall|i: int, j: int| 0 <= i < j < s.len() ==> (#[trigger] s[i]).0 < (#[trigger] s[j]).0
}

spec fn distinct_ids(s: Seq<(u64, ChangesetId)>) -> bool {
    forall|i: int, j: int| 0 <= i < j < s.len() ==> (#[trigger] s[i]).1 != (#[trigger] s[j]).1
}

proof fn lemma_entry_in_map(s: Seq<(u64, ChangesetId)>, i: int)
    requires
        sorted(s),
        0 <= i < s.len(),
    ensures
        as_map(s).dom().contains(s[i].0),
        as_map(s)[s[i].0] == s[i].1,
        index_of_vertex(s, s[i].0) == i,
{
    assert(has_vertex(s, s[i].0));
    let k = index_of_vertex(s, s[i].0);
    assert(0 <= k < s.len() && s[k].0 == s[i].0);
    if k < i {
        assert(s[k].0 < s[i].0);
    } else if i < k {
        assert(s[i].0 < s[k].0);
    }
}

proof fn lemma_map_injective(s: Seq<(u64, ChangesetId)>)
    requires
        sorted(s),
        distinct_ids(s),
    ensures
        injective(as_map(s)),
{
    let m = as_map(s);
    assert forall|u: u64, v: u64|
        m.dom().contains(u) && m.dom().contains(v) && m[u] == m[v] implies u == v by {
        let i = index_of_vertex(s, u);
        let j = index_of_vertex(s, v);
        if i < j {
            assert(s[i].1 != s[j].1);
        } else if j < i {
            assert(s[j].1 != s[i].1);
        }
    }
}

/// The mapping between changeset ids and vertices of one group. Each vertex
/// carries one changeset id and each changeset id sits on one vertex.
#[derive(Debug)]
pub struct IdMap {
    entries: Vec<(Vertex, ChangesetId)>,
}

impl View for IdMap {
    type V = Map<u64, ChangesetId>;

    closed spec fn view(&self) -> Map<u64, ChangesetId> {
        as_map(self.entries@)
    }
}

impl IdMap {
    /// The representation is in order and free of repeated ids.
    pub closed spec fn inv(&self) -> bool {
        &&& sorted(self.entries@)
        &&& distinct_ids(self.entries@)
    }

    /// The mapping is valid: its representation is sound and it is one-to-one.
    pub open spec fn wf(&self) -> bool {
        &&& self.inv()
        &&& injective(self@)
    }

    /// The number of entries.
    pub closed spec fn spec_len(&self) -> nat {
        self.entries@.len()
    }

    /// An empty mapping.
    pub fn new() -> (r: Self)
        ensures
            r.wf(),
            r@ == Map::<u64, ChangesetId>::empty(),
            r.spec_len() == 0,
    {
        let r = IdMap { entries: Vec::new() };
        assert(r@ =~= Map::<u64, ChangesetId>::empty());
        r
    }

    /// The number of entries.
    pub fn len(&self) -> (n: usize)
        ensures
            n == self.spec_len(),
    {
        self.entries.len()
    }

    /// Whether the mapping has no entry.
    pub fn is_empty(&self) -> (r: bool)
        requires
            self.wf(),
        ensures
            r == (self.spec_len() == 0),
            r == (self@ == Map::<u64, ChangesetId>::empty()),
    {
        let r = self.entries.len() == 0;
        proof {
            if r {
                assert(self@ =~= Map::<u64, ChangesetId>::empty());
            } else {
                lemma_entry_in_map(self.entries@, 0);
            }
        }
        r
    }

    /// The index of the first entry whose vertex is not below `v`.
    fn lower_bound(&self, v: Vertex) -> (idx: usize)
        requires
            self.inv(),
        ensures
            idx <= self.entries@.len(),
            forall|i: int| 0 <= i < idx ==> (#[trigger] self.entries@[i]).0 < v,
            forall|i: int| idx <= i < self.entries@.len() ==> (#[trigger] self.entries@[i]).0 >= v,
    {
        let mut lo: usize = 0;
        let mut hi: usize = self.entries.len();
        while lo < hi
            invariant
                lo <= hi <= self.entries@.len(),
                sorted(self.entries@),
                forall|i: int| 0 <= i < lo ==> (#[trigger] self.entries@[i]).0 < v,
                forall|i: int| hi <= i < self.entries@.len() ==> (#[trigger] self.entries@[i]).0 >= v,
            decreases hi - lo,
        {
            let mid: usize = lo + (hi - lo) / 2;
            if self.entries[mid].0 < v {
                assert forall|i: int| 0 <= i < mid + 1 implies (#[trigger] self.entries@[i]).0 < v by {
                    if i < mid {
                        assert(self.entries@[i].0 < self.entries@[mid as int].0);
                    }
                }
                lo = mid + 1;
            } else {
                assert forall|i: int| mid <= i < self.entries@.len() implies (
                #[trigger] self.entries@[i]).0 >= v by {
                    if mid < i {
                        assert(self.entries@[mid as int].0 < self.entries@[i].0);
                    }
                }
                hi = mid;
            }
        }
        lo
    }

    /// The changeset id that `vertex` carries.
    pub fn find_changeset_id(&self, vertex: Vertex) -> (r: Option<ChangesetId>)
        requires
            self.wf(),
        ensures
            r == changeset_of(self@, vertex),
    {
        let idx: usize = self.lower_bound(vertex);
        if idx < self.entries.len() && self.entries[idx].0 == vertex {
            proof {
                lemma_entry_in_map(self.entries@, idx as int);
            }
            Some(self.entries[idx].1)
        } else {
            proof {
                if has_vertex(self.entries@, vertex) {
                    let k = index_of_vertex(self.entries@, vertex);
                    assert(self.entries@[k].0 == vertex);
                }
            }
            None
        }
    }

    /// The vertex that carries `changeset_id`.
    pub fn find_vertex(&self, changeset_id: ChangesetId) -> (r: Option<Vertex>)
        requires
            self.wf(),
        ensures
            r == vertex_of(self@, changeset_id),
    {
        let mut i: usize = 0;
        while i < self.entries.len()
            invariant
                self.wf(),
                i <= self.entries@.len(),
                forall|j: int| 0 <= j < i ==> (#[trigger] self.entries@[j]).1 != changeset_id,
            decreases self.entries@.len() - i,
        {
            if self.entries[i].1 == changeset_id {
                proof {
                    lemma_entry_in_map(self.entries@, i as int);
                    lemma_vertex_of_unique(self@, self.entries@[i as int].0);
                }
                return Some(self.entries[i].0);
            }
            i += 1;
        }
        proof {
            if is_mapped(self@, changeset_id) {
                let v = choose|v: u64| self@.dom().contains(v) && #[trigger] self@[v] == changeset_id;
                let k = index_of_vertex(self.entries@, v);
                assert(self.entries@[k].1 != changeset_id);
            }
        }
        None
    }

    /// Records that `vertex` carries `changeset_id`.
    ///
    /// Recording a pair that is already there changes nothing. The insert is
    /// refused, and the mapping left as it was, when `vertex` already carries
    /// another changeset id or `changeset_id` already sits on another vertex.
    pub fn insert(&mut self, changeset_id: ChangesetId, vertex: Vertex) -> (r: Result<
        (),
        SegmentedChangelogError,
    >)
        requires
            old(self).wf(),
        ensures
            final(self).wf(),
            r is Err <==> (changeset_of(old(self)@, vertex) matches Some(c) && c != changeset_id)
                || (vertex_of(old(self)@, changeset_id) matches Some(u) && u != vertex),
            r matches Ok(_) ==> final(self)@ == old(self)@.insert(vertex, changeset_id),
            r matches Err(e) ==> e == SegmentedChangelogError::Inconsistent && final(self)@ == old(
                self,
            )@,
    {
        let idx: usize = self.lower_bound(vertex);
        if idx < self.entries.len() && self.entries[idx].0 == vertex {
            proof {
                lemma_entry_in_map(self.entries@, idx as int);
            }
            if self.entries[idx].1 == changeset_id {
                proof {
                    lemma_vertex_of_unique(self@, vertex);
                    assert(self@ =~= self@.insert(vertex, changeset_id));
                }
                return Ok(());
            } else {
                return Err(SegmentedChangelogError::Inconsistent);
            }
        }
        proof {
            if has_vertex(self.entries@, vertex) {
                let k = index_of_vertex(self.entries@, vertex);
                assert(self.entries@[k].0 == vertex);
            }
            assert(!self@.dom().contains(vertex));
        }
        let found: Option<Vertex> = self.find_vertex(changeset_id);
        if found.is_some() {
            return Err(SegmentedChangelogError::Inconsistent);
        }
        let ghost before = self.entries@;
        self.entries.insert(idx, (vertex, changeset_id));
        proof {
            let after = self.entries@;
            assert(after == before.insert(idx as int, (vertex, changeset_id)));
            assert forall|i: int, j: int| 0 <= i < j < after.len() implies (#[trigger] after[i]).0 < (
            #[trigger] after[j]).0 by {
                let bi = if i < idx { i } else { i - 1 };
                let bj = if j < idx { j } else { j - 1 };
                if i != idx && j != idx {
                    assert(before[bi].0 < before[bj].0);
                } else if i == idx {
                    assert(before[bj].0 >= vertex);
                    assert(before[bj].0 != vertex) by {
                        lemma_entry_in_map(before, bj);
                    }
                } else {
                    assert(before[bi].0 < vertex);
                }
            }
            assert forall|i: int, j: int| 0 <= i < j < after.len() implies (#[trigger] after[i]).1 != (
            #[trigger] after[j]).1 by {
                let bi = if i < idx { i } else { i - 1 };
                let bj = if j < idx { j } else { j - 1 };
                if i != idx && j != idx {
                    assert(before[bi].1 != before[bj].1);
                } else if i == idx {
                    lemma_entry_in_map(before, bj);
                    assert(as_map(before)[before[bj].0] == before[bj].1);
                } else {
                    lemma_entry_in_map(before, bi);
                    assert(as_map(before)[before[bi].0] == before[bi].1);
                }
            }
            let target = as_map(before).insert(vertex, changeset_id);
            assert forall|u: u64| as_map(after).dom().contains(u) <==> target.dom().contains(
                u,
            ) by {
                if has_vertex(after, u) {
                    let k = index_of_vertex(after, u);
                    if k != idx {
                        let bk = if k < idx { k } else { k - 1 };
                        assert(before[bk].0 == u);
                    }
                }
                if has_vertex(before, u) {
                    let k = index_of_vertex(before, u);
                    let ak = if k < idx { k } else { k + 1 };
                    assert(after[ak].0 == u);
                }
                if u == vertex {
                    assert(after[idx as int].0 == u);
                }
            }
            assert forall|u: u64| as_map(after).dom().contains(u) implies as_map(after)[u]
                == target[u] by {
                let k = index_of_vertex(after, u);
                lemma_entry_in_map(after, k);
                if k != idx {
                    let bk = if k < idx { k } else { k - 1 };
                    assert(before[bk] == after[k]);
                    lemma_entry_in_map(before, bk);
                }
            }
            assert(as_map(after) =~= target);
            lemma_map_injective(after);
        }
        Ok(())
    }

    /// Up to `limit` entries whose vertex is at least `from`, in ascending
    /// order of vertex, starting with the lowest.
    pub fn enumerate_from(&self, from: Vertex, limit: usize) -> (r: Vec<(Vertex, ChangesetId)>)
        requires
            self.wf(),
        ensures
            r@.len() <= limit,
            forall|i: int, j: int| 0 <= i < j < r@.len() ==> (#[trigger] r@[i]).0 < (#[trigger] r@[j]).0,
            forall|i: int|
                0 <= i < r@.len() ==> (#[trigger] r@[i]).0 >= from && changeset_of(self@, r@[i].0)
                    == Some(r@[i].1),
            forall|v: u64|
                self@.dom().contains(v) && v >= from ==> (exists|i: int|
                    0 <= i < r@.len() && (#[trigger] r@[i]).0 == v) || (r@.len() == limit && (limit
                    > 0 ==> v > r@[limit - 1].0)),
    {
        let start: usize = self.lower_bound(from);
        let mut out: Vec<(Vertex, ChangesetId)> = Vec::new();
        let mut i: usize = start;
        while i < self.entries.len() && out.len() < limit
            invariant
                start <= i <= self.entries@.len(),
                out@.len() == i - start,
                out@.len() <= limit,
                forall|k: int| 0 <= k < out@.len() ==> out@[k] == self.entries@[start + k],
            decreases self.entries@.len() - i,
        {
            out.push(self.entries[i]);
            i += 1;
        }
        proof {
            let s = self.entries@;
            assert forall|a: int, b: int| 0 <= a < b < out@.len() implies (#[trigger] out@[a]).0 < (
            #[trigger] out@[b]).0 by {
                assert(s[start + a].0 < s[start + b].0);
            }
            assert forall|k: int| 0 <= k < out@.len() implies (#[trigger] out@[k]).0 >= from
                && changeset_of(self@, out@[k].0) == Some(out@[k].1) by {
                lemma_entry_in_map(s, start + k);
                assert(s[start + k].0 >= from);
            }
            assert forall|v: u64| self@.dom().contains(v) && v >= from implies (exists|k: int|
                0 <= k < out@.len() && (#[trigger] out@[k]).0 == v) || (out@.len() == limit && (limit
                > 0 ==> v > out@[limit - 1].0)) by {
                let k = index_of_vertex(s, v);
                assert(s[k].0 == v);
                assert(k >= start);
                if k < i {
                    assert(out@[k - start].0 == v);
                } else {
                    assert(out@.len() == limit);
                    if limit > 0 {
                        assert(s[start + (limit - 1)].0 < s[k].0);
                    }
                }
            }
        }
        out
    }

    /// Every entry, in ascending order of vertex.
    pub fn enumerate_all(&self) -> (r: Vec<(Vertex, ChangesetId)>)
        requires
            self.wf(),
        ensures
            r@.len() == self.spec_len(),
            forall|i: int, j: int| 0 <= i < j < r@.len() ==> (#[trigger] r@[i]).0 < (#[trigger] r@[j]).0,
            forall|i: int|
                0 <= i < r@.len() ==> changeset_of(self@, (#[trigger] r@[i]).0) == Some(r@[i].1),
            forall|v: u64|
                self@.dom().contains(v) ==> exists|i: int|
                    0 <= i < r@.len() && (#[trigger] r@[i]).0 == v,
    {
        let mut out: Vec<(Vertex, ChangesetId)> = Vec::new();
        let mut i: usize = 0;
        while i < self.entries.len()
            invariant
                i <= self.entries@.len(),
                out@ == self.entries@.take(i as int),
            decreases self.entries@.len() - i,
        {
            out.push(self.entries[i]);
            i += 1;
            assert(out@ =~= self.entries@.take(i as int));
        }
        proof {
            let s = self.entries@;
            assert(out@ =~= s);
            assert forall|k: int| 0 <= k < out@.len() implies changeset_of(
                self@,
                (#[trigger] out@[k]).0,
            ) == Some(out@[k].1) by {
                lemma_entry_in_map(s, k);
            }
            assert forall|v: u64| self@.dom().contains(v) implies exists|k: int|
                0 <= k < out@.len() && (#[trigger] out@[k]).0 == v by {
                let k = index_of_vertex(s, v);
                assert(s[k].0 == v);
            }
        }
        out
    }

    /// A copy of the mapping.
    pub fn duplicate(&self) -> (r: Self)
        ensures
            r@ == self@,
            r.inv() == self.inv(),
            r.spec_len() == self.spec_len(),
    {
        let mut out: Vec<(Vertex, ChangesetId)> = Vec::new();
        let mut i: usize = 0;
        while i < self.entries.len()
            invariant
                i <= self.entries@.len(),
                out@ == self.entries@.take(i as int),
            decreases self.entries@.len() - i,
        {
            out.push(self.entries[i]);
            i += 1;
            assert(out@ =~= self.entries@.take(i as int));
        }
        assert(out@ =~= self.entries@);
        IdMap { entries: out }
    }
}

} // verus!
