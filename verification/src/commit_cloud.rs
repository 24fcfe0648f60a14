//! The commit cloud workspace request: which answer the stored versions of a
//! workspace give.

use vstd::prelude::*;

verus! {

/// The handler of workspace requests.
#[derive(Clone, Copy, Debug)]
pub struct CommitCloudWorkspace;

impl CommitCloudWorkspace {
    /// The path under which workspace requests are served.
    pub fn endpoint() -> (r: &'static str)
        ensures
            r@ == "/cloud/workspace"@,
    {
        "/cloud/workspace"
    }
}

/// A request for the state of one workspace of one repository.
#[derive(Clone, Debug, PartialEq, Eq)]
pub struct CloudWorkspaceRequest {
    pub workspace: String,
    pub reponame: String,
}

/// One stored version of a workspace.
#[derive(Clone, Copy, Debug, PartialEq, Eq)]
pub struct WorkspaceVersion {
    pub version: u64,
    pub archived: bool,
    /// When the version was stored, in nanoseconds since the epoch.
    pub timestamp: i64,
}

/// The state of a workspace, as told to the client.
#[derive(Clone, Debug, PartialEq, Eq)]
pub struct WorkspaceData {
    pub name: String,
    pub reponame: String,
    pub version: u64,
    pub archived: bool,
    pub timestamp: i64,
}

/// No version of the workspace is stored.
#[derive(Clone, Debug, PartialEq, Eq)]
pub struct CloudWorkspaceNotFound {
    pub workspace: String,
}

/// The answer to a workspace request, given the versions that are stored for
/// the workspace: the state that the first version records, under the names
/// of the request. Without a stored version the workspace is not found.
pub fn workspace_data(request: CloudWorkspaceRequest, versions: &Vec<WorkspaceVersion>) -> (r:
    Result<WorkspaceData, CloudWorkspaceNotFound>)
    ensures
        r is Ok <==> versions@.len() > 0,
        r matches Ok(data) ==> {
            &&& data.name@ == request.workspace@
            &&& data.reponame@ == request.reponame@
            &&& data.version == versions@[0].version
            &&& data.archived == versions@[0].archived
            &&& data.timestamp == versions@[0].timestamp
        },
        r matches Err(e) ==> e.workspace@ == request.workspace@,
{
    if versions.len() > 0 {
        let first: WorkspaceVersion = versions[0];
        Ok(
            WorkspaceData {
                name: request.workspace,
                reponame: request.reponame,
                version: first.version,
                archived: first.archived,
                timestamp: first.timestamp,
            },
        )
    } else {
        Err(CloudWorkspaceNotFound { workspace: request.workspace })
    }
}

} // verus!
