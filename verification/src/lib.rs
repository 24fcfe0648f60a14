//! Segmented changelog: a dense-integer-id, segment-compressed view of a
//! commit ancestry graph, with the identifier types and request rules that
//! travel with it.

pub mod bundle;
pub mod changelog;
pub mod commit_cloud;
pub mod dag;
pub mod hash;
pub mod iddag;
pub mod idmap;
pub mod manager;
pub mod metadata;
pub mod on_demand;
pub mod seeder;
pub mod tailer;
pub mod trees;
pub mod types;

pub use crate::bundle::CloneData;
pub use crate::bundle::IdMapStream;
pub use crate::bundle::StreamCloneData;
pub use crate::changelog::DisabledSegmentedChangelog;
pub use crate::changelog::SegmentedChangelog;
pub use crate::commit_cloud::CommitCloudWorkspace;
pub use crate::dag::Dag;
pub use crate::hash::decode_hex;
pub use crate::hash::encode_hex;
pub use crate::iddag::IdDag;
pub use crate::idmap::IdMap;
pub use crate::manager::Manager;
pub use crate::metadata::AnyFileContentId;
pub use crate::metadata::DirectoryMetadata;
pub use crate::metadata::FileAuxData;
pub use crate::metadata::FileMetadata;
pub use crate::metadata::FileType;
pub use crate::metadata::ServerError;
pub use crate::on_demand::GraphReply;
pub use crate::on_demand::OnDemandWalk;
pub use crate::on_demand::WalkRequest;
pub use crate::seeder::Seeder;
pub use crate::tailer::AppendResult;
pub use crate::tailer::Tailer;
pub use crate::trees::TreeParams;
pub use crate::trees::UploadTreesHandler;
pub use crate::types::ChangesetId;
pub use crate::types::CommitEntry;
pub use crate::types::FlatSegment;
pub use crate::types::Location;
pub use crate::types::PreparedFlatSegments;
pub use crate::types::SegmentedChangelogError;
pub use crate::types::Vertex;
