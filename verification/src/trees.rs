//! Tree requests: which parts of a tree are fetched for a client, and the
//! limits under which trees are fetched and stored.

use bytes::Bytes;
use vstd::prelude::*;

verus! {

/// How many trees of one request are fetched at a time.
pub const MAX_CONCURRENT_TREE_FETCHES_PER_REQUEST: usize = 128;

/// How many children of one tree have their metadata fetched at a time.
pub const MAX_CONCURRENT_METADATA_FETCHES_PER_TREE_FETCH: usize = 100;

/// How many trees of one upload request are stored at a time.
pub const MAX_CONCURRENT_UPLOAD_TREES_PER_REQUEST: usize = 100;

/// The number of files above which a tree is too large for the metadata of
/// its children to be fetched.
pub const LARGE_TREE_METADATA_LIMIT: usize = 25000;

/// One request in this many is sampled for logging.
pub const TREES_SAMPLING_RATE: u64 = 256;

/// The parameters of a tree request.
#[derive(Clone, Debug, PartialEq, Eq)]
pub struct TreeParams {
    repo: String,
}

impl TreeParams {
    /// The repository as text.
    pub closed spec fn spec_repo(&self) -> Seq<char> {
        self.repo@
    }

    /// The parameters of a request to the given repository.
    pub fn new(repo: String) -> (r: Self)
        ensures
            r.spec_repo() == repo@,
    {
        TreeParams { repo }
    }

    /// The repository that is asked.
    pub fn repo(&self) -> (r: &str)
        ensures
            r@ == self.spec_repo(),
    {
        self.repo.as_str()
    }
}

/// The handler of tree uploads.
#[derive(Clone, Copy, Debug)]
pub struct UploadTreesHandler;

impl UploadTreesHandler {
    /// The path under which tree uploads are served.
    pub fn endpoint() -> (r: &'static str)
        ensures
            r@ == "/upload/trees"@,
    {
        "/upload/trees"
    }
}

/// The parts of a tree that a client asks for.
#[derive(Clone, Copy, Debug, PartialEq, Eq, Structural)]
pub struct TreeAttributes {
    pub manifest_blob: bool,
    pub parents: bool,
    pub child_metadata: bool,
}

/// One part of a tree to fetch.
#[derive(Clone, Copy, Debug, PartialEq, Eq, Structural)]
pub enum TreeFetchStep {
    /// The content of the tree.
    Content,
    /// The parents of the tree.
    Parents,
    /// The metadata of the children of the tree.
    ChildMetadata,
}

/// The parts to fetch for the given attributes: the content, the parents and
/// the metadata of the children, in this order, each only when asked for.
pub open spec fn steps_of(attributes: TreeAttributes) -> Seq<TreeFetchStep> {
    (if attributes.manifest_blob {
        seq![TreeFetchStep::Content]
    } else {
        Seq::empty()
    }) + (if attributes.parents {
        seq![TreeFetchStep::Parents]
    } else {
        Seq::empty()
    }) + (if attributes.child_metadata {
        seq![TreeFetchStep::ChildMetadata]
    } else {
        Seq::empty()
    })
}

/// The parts of a tree to fetch for the given attributes, in the order in
/// which they are fetched.
pub fn fetch_steps(attributes: TreeAttributes) -> (r: Vec<TreeFetchStep>)
    ensures
        r@ == steps_of(attributes),
{
    let mut steps: Vec<TreeFetchStep> = Vec::new();
    if attributes.manifest_blob {
        steps.push(TreeFetchStep::Content);
    }
    if attributes.parents {
        steps.push(TreeFetchStep::Parents);
    }
    if attributes.child_metadata {
        steps.push(TreeFetchStep::ChildMetadata);
    }
    assert(steps@ =~= steps_of(attributes));
    steps
}

/// Whether the metadata of the children of a tree with this many files is
/// fetched: it is not for a tree with more files than
/// `LARGE_TREE_METADATA_LIMIT`.
pub fn fetches_child_metadata(file_count: usize) -> (r: bool)
    ensures
        r == (file_count <= LARGE_TREE_METADATA_LIMIT),
{
    file_count <= LARGE_TREE_METADATA_LIMIT
}

/// The node hash that names a file or a tree.
#[derive(Clone, Copy, Debug, PartialEq, Eq, Hash)]
pub struct HgId(pub [u8; 20]);

/// The parents of a node.
#[derive(Clone, Copy, Debug, PartialEq, Eq)]
pub enum Parents {
    NoParents,
    One(HgId),
    Two(HgId, HgId),
}

impl Parents {
    /// The first parent, if there is one.
    pub open spec fn spec_first(self) -> Option<HgId> {
        match self {
            Parents::NoParents => None,
            Parents::One(first) => Some(first),
            Parents::Two(first, _) => Some(first),
        }
    }

    /// The second parent, if there is one.
    pub open spec fn spec_second(self) -> Option<HgId> {
        match self {
            Parents::NoParents => None,
            Parents::One(_) => None,
            Parents::Two(_, second) => Some(second),
        }
    }

    /// The first parent, if there is one.
    pub fn first(&self) -> (r: Option<HgId>)
        ensures
            r == self.spec_first(),
    {
        match self {
            Parents::NoParents => None,
            Parents::One(first) => Some(*first),
            Parents::Two(first, _) => Some(*first),
        }
    }

    /// The second parent, if there is one.
    pub fn second(&self) -> (r: Option<HgId>)
        ensures
            r == self.spec_second(),
    {
        match self {
            Parents::NoParents => None,
            Parents::One(_) => None,
            Parents::Two(_, second) => Some(*second),
        }
    }
}

/// An uploaded tree.
#[derive(Clone, Debug, PartialEq, Eq)]
pub struct UploadTreeEntry {
    pub node_id: HgId,
    pub data: Vec<u8>,
    pub parents: Parents,
}

/// A request to store one tree.
#[derive(Clone, Debug, PartialEq, Eq)]
pub struct UploadTreeRequest {
    pub entry: UploadTreeEntry,
}

/// The buffer type `bytes::Bytes`, made known so that it can stand in
/// signatures and fields. Nothing is said of its inside.
#[verifier::external_type_specification]
#[verifier::external_body]
pub struct ExBytes(bytes::Bytes);

/// The bytes that a `Bytes` buffer holds, in order.
pub uninterp spec fn bytes_content(buffer: Bytes) -> Seq<u8>;

/// The buffer that takes over the bytes of a vector.
///
/// Calls `Bytes::from` on the vector. The buffer that comes back views the
/// allocation of the vector over its whole length, so it holds the bytes of
/// the vector in their order.
#[verifier::external_body]
fn bytes_from_vec(contents: Vec<u8>) -> (r: Bytes)
    ensures
        bytes_content(r) == contents@,
{
    Bytes::from(contents)
}

/// What is handed to the repository to store one tree.
#[derive(Debug)]
pub struct StoreTreeArguments {
    pub node_id: HgId,
    pub first_parent: Option<HgId>,
    pub second_parent: Option<HgId>,
    pub contents: Bytes,
}

/// What is handed to the repository to store the tree of an upload request:
/// the node of the tree, its parents, and its content as a buffer.
pub fn store_tree_arguments(item: UploadTreeRequest) -> (r: StoreTreeArguments)
    ensures
        r.node_id == item.entry.node_id,
        r.first_parent == item.entry.parents.spec_first(),
        r.second_parent == item.entry.parents.spec_second(),
        bytes_content(r.contents) == item.entry.data@,
{
    let node_id: HgId = item.entry.node_id;
    let first_parent: Option<HgId> = item.entry.parents.first();
    let second_parent: Option<HgId> = item.entry.parents.second();
    let contents: Bytes = bytes_from_vec(item.entry.data);
    StoreTreeArguments { node_id, first_parent, second_parent, contents }
}

} // verus!
