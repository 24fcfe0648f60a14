//! Identifiers, segments, locations and failures shared by every component.

use vstd::prelude::*;
use vstd::std_specs::cmp::PartialEqSpecImpl;
use crate::hash::bytes_equal;
use crate::hash::chars_of;
use crate::hash::decode_hex;
use crate::hash::encode_hex;
use crate::hash::hex_bytes;
use crate::hash::hex_string;
use crate::hash::is_hex;

verus! {

/// A dense integer id given to a changeset within one group.
pub type Vertex = u64;

/// The stable content hash that names a commit.
#[derive(Clone, Copy, Debug, Eq, Hash)]
pub struct ChangesetId {
    pub bytes: [u8; 32],
}

impl PartialEq for ChangesetId {
    fn eq(&self, other: &Self) -> (r: bool) {
        let r: bool = bytes_equal(&self.bytes, &other.bytes);
        proof {
            if r {
                assert(*self =~= *other);
            }
        }
        r
    }
}

impl PartialEqSpecImpl for ChangesetId {
    open spec fn obeys_eq_spec() -> bool {
        true
    }

    open spec fn eq_spec(&self, other: &Self) -> bool {
        *self == *other
    }
}

impl ChangesetId {
    /// The changeset id with the given bytes.
    pub fn from_bytes(bytes: [u8; 32]) -> (r: Self)
        ensures
            r.bytes == bytes,
    {
        ChangesetId { bytes }
    }

    /// Reads a changeset id from 64 hexadecimal digits.
    pub fn from_hex(s: &str) -> (r: Option<Self>)
        ensures
            r is Some <==> (s@.len() == 64 && is_hex(s@)),
            r matches Some(id) ==> id.bytes@ == hex_bytes(s@),
    {
        let chars: Vec<char> = chars_of(s);
        match decode_hex::<32>(&chars) {
            Some(bytes) => Some(ChangesetId { bytes }),
            None => None,
        }
    }

    /// The 64 lower-case hexadecimal digits of this id.
    pub fn to_hex(&self) -> (r: String)
        ensures
            r@ == hex_string(self.bytes@),
    {
        encode_hex::<32>(&self.bytes)
    }
}

/// Why an operation on a segmented changelog failed.
#[derive(Clone, Copy, Debug, PartialEq, Eq, Structural)]
pub enum SegmentedChangelogError {
    /// Segmented changelog is turned off for the repository.
    NotEnabled,
    /// A named commit is unknown, or an ancestor chain ended before the
    /// requested distance was covered.
    HeadNotFound,
    /// The commit graph reported a cycle or a parent that cannot be resolved.
    GraphInconsistent,
    /// The group's head is not an ancestor of the heads asked for.
    Diverged,
    /// An id mapping would stop being one-to-one.
    Inconsistent,
    /// A single-result resolution did not produce exactly one result.
    UnexpectedResultCount,
    /// Another writer holds the mutation path.
    BuildInProgress,
    /// The 64-bit vertex id space has no id left.
    VertexSpaceExhausted,
}

impl SegmentedChangelogError {
    /// A fixed, human-readable description of the failure.
    pub fn message(&self) -> (r: &'static str)
        ensures
            r@ == error_text(*self)@,
    {
        match self {
            SegmentedChangelogError::NotEnabled => "Segmented Changelog is not enabled for this repo",
            SegmentedChangelogError::HeadNotFound => "commit is not known to the commit graph",
            SegmentedChangelogError::GraphInconsistent => "commit graph is inconsistent",
            SegmentedChangelogError::Diverged => "current head is not an ancestor of the new heads",
            SegmentedChangelogError::Inconsistent => "id mapping is not one-to-one",
            SegmentedChangelogError::UnexpectedResultCount => "unexpected result from location_to_many_changeset_ids",
            SegmentedChangelogError::BuildInProgress => "a build is already in progress",
            SegmentedChangelogError::VertexSpaceExhausted => "no vertex id is left",
        }
    }
}

/// The text that `SegmentedChangelogError::message` returns for each failure.
pub open spec fn error_text(e: SegmentedChangelogError) -> &'static str {
    match e {
        SegmentedChangelogError::NotEnabled => "Segmented Changelog is not enabled for this repo",
        SegmentedChangelogError::HeadNotFound => "commit is not known to the commit graph",
        SegmentedChangelogError::GraphInconsistent => "commit graph is inconsistent",
        SegmentedChangelogError::Diverged => "current head is not an ancestor of the new heads",
        SegmentedChangelogError::Inconsistent => "id mapping is not one-to-one",
        SegmentedChangelogError::UnexpectedResultCount => "unexpected result from location_to_many_changeset_ids",
        SegmentedChangelogError::BuildInProgress => "a build is already in progress",
        SegmentedChangelogError::VertexSpaceExhausted => "no vertex id is left",
    }
}

/// Names an ancestor without naming it directly: the commit `distance`
/// generations back along the first-parent chain from `known`.
#[derive(Clone, Copy, Debug, PartialEq, Eq)]
pub struct Location<T> {
    pub known: T,
    pub distance: u64,
}

impl<T> Location<T> {
    /// The location `distance` first-parent steps behind `known`.
    pub fn new(known: T, distance: u64) -> (r: Self)
        ensures
            r.known == known,
            r.distance == distance,
    {
        Location { known, distance }
    }
}

/// A contiguous run of vertex ids `low..=high`. The vertex `low` has the
/// listed parents, first parent first; every later vertex of the run has the
/// vertex just before it as its only parent.
#[derive(Clone, Debug, PartialEq, Eq)]
pub struct FlatSegment {
    pub low: Vertex,
    pub high: Vertex,
    pub parents: Vec<Vertex>,
}

/// What a flat segment holds, as mathematical values.
pub struct SegmentView {
    pub low: u64,
    pub high: u64,
    pub parents: Seq<u64>,
}

impl View for FlatSegment {
    type V = SegmentView;

    open spec fn view(&self) -> SegmentView {
        SegmentView { low: self.low, high: self.high, parents: self.parents@ }
    }
}

/// Flat segments in ascending order of their vertex ids.
#[derive(Clone, Debug, PartialEq, Eq)]
pub struct PreparedFlatSegments {
    pub segments: Vec<FlatSegment>,
}

impl View for PreparedFlatSegments {
    type V = Seq<SegmentView>;

    open spec fn view(&self) -> Seq<SegmentView> {
        Seq::new(self.segments@.len(), |i: int| self.segments@[i]@)
    }
}

/// One commit of the authoritative graph: its id and the ids of its parents,
/// first parent first.
#[derive(Clone, Debug, PartialEq, Eq)]
pub struct CommitEntry {
    pub id: ChangesetId,
    pub parents: Vec<ChangesetId>,
}

/// What a commit entry holds, as mathematical values.
pub struct CommitView {
    pub id: ChangesetId,
    pub parents: Seq<ChangesetId>,
}

impl View for CommitEntry {
    type V = CommitView;

    open spec fn view(&self) -> CommitView {
        CommitView { id: self.id, parents: self.parents@ }
    }
}

/// The views of a list of commit entries.
pub open spec fn commit_views(batch: Seq<CommitEntry>) -> Seq<CommitView> {
    Seq::new(batch.len(), |i: int| batch[i]@)
}

} // verus!
