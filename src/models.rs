//! The records exchanged with clients of the repository browser.

use std::collections::HashMap;
use vstd::prelude::*;

verus! {

/// A repository found under the repositories root.
pub struct Repo {
    pub id: String,
    pub name: String,
}

/// Merge, staleness and birth state of a branch.
pub struct BranchMetadata {
    pub is_merged: bool,
    pub is_stale: bool,
    pub is_unborn: bool,
    pub last_commit_date: Option<String>,
}

/// The branches of a repository and the current one.
pub struct BranchInfo {
    pub current: String,
    pub branches: Vec<String>,
    pub branch_metadata: Option<HashMap<String, BranchMetadata>>,
    /// HEAD commit SHA for cache invalidation
    pub head: Option<String>,
    /// Hash of all branch refs for cache invalidation
    pub refs_hash: Option<String>,
}

/// How far a branch is ahead of and behind its upstream.
pub struct BranchAheadBehind {
    pub ahead: i32,
    pub behind: i32,
    pub upstream: String,
    pub is_local: bool,
}

/// The commit at which a branch was created, if found.
pub struct BranchCreationInfo {
    pub found: bool,
    pub commit_sha: Option<String>,
    pub commit_date: Option<String>,
    pub commit_message: Option<String>,
    pub is_root_commit: Option<bool>,
    pub error: Option<String>,
}

/// A path changed by a commit, with its change kind.
pub struct FileChange {
    pub path: String,
    pub status: String,
}

/// One hunk of a unified diff.
pub struct DiffHunk {
    pub old_start: i32,
    pub old_count: i32,
    pub new_start: i32,
    pub new_count: i32,
    pub lines: Vec<String>,
    pub line_start: i32,
}

/// A file diff: raw text and parsed hunks.
pub struct DiffResponse {
    pub diff: String,
    pub hunks: Vec<DiffHunk>,
    pub file_path: String,
}

/// One entry of the working-tree status.
pub struct StatusFile {
    pub path: String,
    pub old_path: Option<String>,
    pub status: String,
    pub staged: bool,
    pub unstaged: bool,
    pub kind: String,
}

/// The working-tree status.
pub struct StatusResponse {
    pub files: Vec<StatusFile>,
}

/// The commit that added a file, if found.
pub struct FileCreationInfo {
    pub found: bool,
    pub commit_sha: Option<String>,
    pub commit_date: Option<String>,
    pub date: Option<String>,
    pub message: Option<String>,
    pub error: Option<String>,
}

/// The number of commits between two references.
pub struct CommitsBetweenResponse {
    pub count: i32,
    pub note: Option<String>,
    pub from: Option<String>,
    pub to: Option<String>,
    pub error: Option<String>,
}

/// An image blob, base64-encoded, with its MIME type.
pub struct ImageResponse {
    pub data: String,
    pub mime_type: String,
}

/// A tag and the commit it names.
pub struct Tag {
    pub name: String,
    pub sha: String,
    pub date: String,
}

/// One step of an interactive rebase plan.
pub struct RebasePlanItem {
    pub sha: String,
    pub action: String,
    pub message: Option<String>,
}

/// A rebase plan to run onto a base.
pub struct RebasePlanRequest {
    pub onto: String,
    pub plan: Vec<RebasePlanItem>,
    pub dry_run: Option<bool>,
}

/// The outcome of running a rebase plan.
pub struct RebasePlanResponse {
    pub success: bool,
    pub dry_run: Option<bool>,
    pub plan: Option<Vec<RebasePlanItem>>,
    pub error: Option<String>,
}

/// A path with merge conflicts.
pub struct ConflictFile {
    pub path: String,
    pub kind: String,
}

/// The conflicted paths of a repository.
pub struct ConflictsResponse {
    pub files: Vec<ConflictFile>,
    pub has_conflicts: bool,
}

/// The three sides of a conflicted file and the merged text.
pub struct ConflictFileResponse {
    pub base: String,
    pub mine: String,
    pub theirs: String,
    pub result: String,
    pub file_path: String,
}

/// The resolved content of a conflicted file.
pub struct ResolveConflictRequest {
    pub path: String,
    pub content: String,
}

/// Whether an operation succeeded.
pub struct SuccessResponse {
    pub success: bool,
}

/// The configured repositories root.
pub struct ConfigResponse {
    pub repos_root: String,
}

/// A folder chosen by the user.
pub struct BrowseFolderResponse {
    pub path: String,
}

/// An error message for a client.
pub struct ErrorResponse {
    pub error: String,
}

/// One stash entry.
pub struct StashEntry {
    pub index: String,
    pub message: String,
    pub date: String,
}

/// The outcome of a pull, push or stash operation.
pub struct GitOperationResponse {
    pub success: bool,
    pub message: Option<String>,
    pub output: Option<String>,
    pub error: Option<String>,
}

/// Upstream, ahead/behind and working-tree state of the current branch.
pub struct BranchStatusResponse {
    pub branch: String,
    pub has_upstream: bool,
    pub ahead: usize,
    pub behind: usize,
    pub has_uncommitted: bool,
    pub stash_count: usize,
}

/// The stash entries of a repository.
pub struct StashListResponse {
    pub entries: Vec<StashEntry>,
}

} // verus!
