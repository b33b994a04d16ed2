use vstd::prelude::*;

verus! {

/// One commit as read from the object store.
pub struct CommitInfo {
    /// Hex digest of the commit.
    pub id: String,
    /// First line of the message, when the commit has one.
    pub summary: Option<String>,
    /// Author's display name, when it is set.
    pub author: Option<String>,
    /// Commit time, seconds since the epoch.
    pub time: i64,
    /// Hex digests of the parents, in order.
    pub parents: Vec<String>,
}

/// A reference with a direct target, under its full name.
pub struct RefEntry {
    pub name: String,
    pub target: String,
}

/// Where HEAD points and whether it names a branch.
pub struct HeadState {
    /// Hex digest of the commit HEAD resolves to.
    pub target: String,
    /// HEAD points at a commit directly rather than through a branch.
    pub detached: bool,
}

/// Everything a graph request reads from the repository.
pub struct RepoSnapshot {
    /// The commits reachable from the traversal roots, in any order.
    pub commits: Vec<CommitInfo>,
    /// Every reference with a direct target, in the store's order.
    pub refs: Vec<RefEntry>,
    /// HEAD, when it resolves to a commit.
    pub head: Option<HeadState>,
    /// The stash reflog's commits, most recent first.
    pub stashes: Vec<String>,
    /// The working tree has modified or untracked paths.
    pub dirty: bool,
}

/// How HEAD reaches the commit it marks.
#[derive(Clone, Copy, Debug, PartialEq, Eq, Structural)]
pub enum HeadKind {
    Branch,
    Detached,
}

/// One node of the rendered graph.
pub struct GitCommit {
    pub id: String,
    pub message: String,
    pub author: String,
    pub date: i64,
    pub parents: Vec<String>,
    pub refs: Vec<String>,
    /// Set on the node HEAD points at.
    pub head_type: Option<HeadKind>,
}

/// What a graph node says, as plain values.
pub ghost struct CommitNodeView {
    pub id: Seq<char>,
    pub message: Seq<char>,
    pub author: Seq<char>,
    pub date: i64,
    pub parents: Seq<Seq<char>>,
    pub refs: Seq<Seq<char>>,
    pub head_type: Option<HeadKind>,
}

impl View for GitCommit {
    type V = CommitNodeView;

    open spec fn view(&self) -> CommitNodeView {
        CommitNodeView {
            id: self.id@,
            message: self.message@,
            author: self.author@,
            date: self.date,
            parents: texts(self.parents@),
            refs: texts(self.refs@),
            head_type: self.head_type,
        }
    }
}

/// One page of the graph.
pub struct CommitResponse {
    pub commits: Vec<GitCommit>,
    /// At least one visible commit follows this page.
    pub has_more: bool,
}

/// A reference under its display name.
pub struct GitRef {
    pub name: String,
    pub commit_id: String,
}

/// One changed path between two snapshots, as read from the store.
pub struct DeltaInfo {
    pub old_path: Option<String>,
    pub new_path: Option<String>,
    /// The old side's file bytes, when the old path names a file there.
    pub old_blob: Option<Vec<u8>>,
    /// The new side's file bytes, when the new path names a file there.
    pub new_blob: Option<Vec<u8>>,
}

/// One changed path with its whole text on both sides.
pub struct FileDiff {
    pub path: String,
    pub old_content: String,
    pub new_content: String,
}

/// The changed paths between two snapshots.
pub struct DiffResponse {
    pub files: Vec<FileDiff>,
}

/// Why a request failed.
pub enum GraphError {
    /// A diff was asked for against the uncommitted-changes node.
    DiffWithWorkingCopy,
    /// A checkout was asked for of the uncommitted-changes node.
    CheckoutWorkingCopy,
    /// A commit id that does not parse as an object id.
    InvalidId { id: String, reason: String },
    /// A checkout would overwrite uncommitted local changes.
    WouldOverwrite,
    /// A checkout failed for another reason.
    CheckoutFailed { reason: String },
}

/// The message a caller is shown for an error.
pub open spec fn error_text(e: GraphError) -> Seq<char> {
    match e {
        GraphError::DiffWithWorkingCopy => "Cannot diff with working-copy. Please select real commits."@,
        GraphError::CheckoutWorkingCopy => "Cannot checkout working-copy"@,
        GraphError::InvalidId { id, reason } => "Invalid commit ID '"@ + id@ + "': "@ + reason@,
        GraphError::WouldOverwrite =>
            "Cannot checkout: You have uncommitted changes that would be overwritten. Please commit or stash your changes first."@,
        GraphError::CheckoutFailed { reason } => "Failed to checkout commit: "@ + reason@,
    }
}

impl GraphError {
    /// The message a caller is shown.
    pub fn message(&self) -> (r: String)
        ensures
            r@ == error_text(*self),
    {
        match self {
            GraphError::DiffWithWorkingCopy => String::from_str(
                "Cannot diff with working-copy. Please select real commits.",
            ),
            GraphError::CheckoutWorkingCopy => String::from_str("Cannot checkout working-copy"),
            GraphError::InvalidId { id, reason } => {
                let mut s = String::from_str("Invalid commit ID '");
                s.append(id.as_str());
                s.append("': ");
                s.append(reason.as_str());
                s
            },
            GraphError::WouldOverwrite => String::from_str(
                "Cannot checkout: You have uncommitted changes that would be overwritten. Please commit or stash your changes first.",
            ),
            GraphError::CheckoutFailed { reason } => {
                let mut s = String::from_str("Failed to checkout commit: ");
                s.append(reason.as_str());
                s
            },
        }
    }
}

/// The id of the node that stands for uncommitted changes.
pub open spec fn working_copy_id() -> Seq<char> {
    "working-copy"@
}

/// No commit of the snapshot carries the uncommitted-changes id.
pub open spec fn snapshot_wf(s: RepoSnapshot) -> bool {
    forall|i: int| 0 <= i < s.commits@.len() ==> #[trigger] s.commits@[i].id@ != working_copy_id()
}

/// The text of an optional string, empty when absent.
pub open spec fn text_or_empty(s: Option<String>) -> Seq<char> {
    match s {
        Some(t) => t@,
        None => Seq::empty(),
    }
}

/// The views of a sequence of strings.
pub open spec fn texts(v: Seq<String>) -> Seq<Seq<char>> {
    v.map_values(|s: String| s@)
}

/// Pushing a string pushes its view.
pub proof fn lemma_texts_push(v: Seq<String>, x: String)
    ensures
        texts(v.push(x)) == texts(v).push(x@),
{
    assert(texts(v.push(x)) =~= texts(v).push(x@));
}

} // verus!
