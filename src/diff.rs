use vstd::prelude::*;
use crate::external::{decode_lossy, git_error_message, is_oid_text, lossy_text, parse_oid};
use crate::model::{DeltaInfo, DiffResponse, FileDiff, GraphError, working_copy_id};
use crate::text::same_text;

verus! {

/// What a diff entry says, as plain values.
pub ghost struct DiffEntryView {
    pub path: Seq<char>,
    pub old_content: Seq<char>,
    pub new_content: Seq<char>,
}

impl View for FileDiff {
    type V = DiffEntryView;

    open spec fn view(&self) -> DiffEntryView {
        DiffEntryView { path: self.path@, old_content: self.old_content@, new_content: self.new_content@ }
    }
}

/// The text of one side of a change: its file decoded, or empty where the
/// side has no file.
pub open spec fn side_text(b: Option<Vec<u8>>) -> Seq<char> {
    match b {
        Some(v) => lossy_text(v@),
        None => Seq::empty(),
    }
}

/// The path a change is listed under: the new side's, else the old side's.
pub open spec fn delta_path(d: DeltaInfo) -> Seq<char> {
    match d.new_path {
        Some(p) => p@,
        None => match d.old_path {
            Some(p) => p@,
            None => "unknown"@,
        },
    }
}

/// The diff entry of one change.
pub open spec fn entry_of(d: DeltaInfo) -> DiffEntryView {
    DiffEntryView { path: delta_path(d), old_content: side_text(d.old_blob), new_content: side_text(d.new_blob) }
}

/// `r` lists the entry of each change of `deltas`, in order.
pub open spec fn diff_response(deltas: Seq<DeltaInfo>, r: DiffResponse) -> bool {
    r.files@.map_values(|f: FileDiff| f@) == deltas.map_values(|d: DeltaInfo| entry_of(d))
}

fn side_content(b: &Option<Vec<u8>>) -> (r: String)
    ensures
        r@ == side_text(*b),
{
    match b {
        Some(v) => decode_lossy(v),
        None => String::new(),
    }
}

/// Turns the changes between two snapshots into diff entries with the whole
/// text of both sides.
pub fn get_diff(deltas: &Vec<DeltaInfo>) -> (r: DiffResponse)
    ensures
        diff_response(deltas@, r),
{
    let mut files: Vec<FileDiff> = Vec::new();
    let mut i: usize = 0;
    while i < deltas.len()
        invariant
            i <= deltas@.len(),
            files@.map_values(|f: FileDiff| f@) == deltas@.subrange(0, i as int).map_values(
                |d: DeltaInfo| entry_of(d),
            ),
        decreases deltas@.len() - i,
    {
        let d = &deltas[i];
        let path = match &d.new_path {
            Some(p) => p.clone(),
            None => match &d.old_path {
                Some(p) => p.clone(),
                None => String::from_str("unknown"),
            },
        };
        let f = FileDiff { path, old_content: side_content(&d.old_blob), new_content: side_content(&d.new_blob) };
        let ghost before = files@.map_values(|f: FileDiff| f@);
        files.push(f);
        assert(files@.map_values(|f: FileDiff| f@) =~= before.push(f@));
        assert(deltas@.subrange(0, i + 1) =~= deltas@.subrange(0, i as int).push(*d));
        assert(deltas@.subrange(0, i + 1).map_values(|d: DeltaInfo| entry_of(d)) =~= deltas@.subrange(
            0,
            i as int,
        ).map_values(|d: DeltaInfo| entry_of(d)).push(entry_of(*d)));
        i = i + 1;
    }
    assert(deltas@.subrange(0, deltas@.len() as int) =~= deltas@);
    DiffResponse { files }
}

/// The same change seen from the other side.
pub open spec fn mirrored(d: DeltaInfo) -> DeltaInfo {
    DeltaInfo { old_path: d.new_path, new_path: d.old_path, old_blob: d.new_blob, new_blob: d.old_blob }
}

/// The change keeps its path: where both sides name one, it is the same.
pub open spec fn keeps_path(d: DeltaInfo) -> bool {
    match (d.old_path, d.new_path) {
        (Some(a), Some(b)) => a@ == b@,
        _ => true,
    }
}

/// Seen from the other side, changes that keep their paths give the same
/// paths with the two texts of each entry swapped.
pub proof fn lemma_diff_mirror(deltas: Seq<DeltaInfo>, r1: DiffResponse, r2: DiffResponse)
    requires
        forall|i: int| 0 <= i < deltas.len() ==> keeps_path(#[trigger] deltas[i]),
        diff_response(deltas, r1),
        diff_response(deltas.map_values(|d: DeltaInfo| mirrored(d)), r2),
    ensures
        r1.files@.len() == r2.files@.len(),
        forall|i: int|
            0 <= i < r1.files@.len() ==> (#[trigger] r2.files@[i])@.path == r1.files@[i]@.path
                && r2.files@[i]@.old_content == r1.files@[i]@.new_content
                && r2.files@[i]@.new_content == r1.files@[i]@.old_content,
{
    let v1 = r1.files@.map_values(|f: FileDiff| f@);
    let v2 = r2.files@.map_values(|f: FileDiff| f@);
    assert(v1.len() == deltas.len());
    assert(v2.len() == deltas.map_values(|d: DeltaInfo| mirrored(d)).len());
    assert forall|i: int| 0 <= i < r1.files@.len() implies (#[trigger] r2.files@[i])@.path == r1.files@[i]@.path
        && r2.files@[i]@.old_content == r1.files@[i]@.new_content
        && r2.files@[i]@.new_content == r1.files@[i]@.old_content by {
        assert(v1[i] == r1.files@[i]@);
        assert(v2[i] == r2.files@[i]@);
        assert(keeps_path(deltas[i]));
        assert(deltas.map_values(|d: DeltaInfo| mirrored(d))[i] == mirrored(deltas[i]));
    }
}

/// The outcome of checking two commit ids for a diff: both must name stored
/// commits, so the uncommitted-changes id is refused first, then each id in
/// turn that does not parse.
pub open spec fn diff_targets_ok(old: Seq<char>, new: Seq<char>, r: Result<(git2::Oid, git2::Oid), GraphError>) -> bool {
    if old == working_copy_id() || new == working_copy_id() {
        r matches Err(GraphError::DiffWithWorkingCopy)
    } else if !is_oid_text(old) {
        r matches Err(GraphError::InvalidId { id, .. }) && id@ == old
    } else if !is_oid_text(new) {
        r matches Err(GraphError::InvalidId { id, .. }) && id@ == new
    } else {
        r is Ok
    }
}

/// Parses the id of one side of a diff or checkout.
pub(crate) fn parse_commit_id(id: &str) -> (r: Result<git2::Oid, GraphError>)
    ensures
        is_oid_text(id@) ==> r is Ok,
        !is_oid_text(id@) ==> (r matches Err(GraphError::InvalidId { id: i, .. }) && i@ == id@),
{
    match parse_oid(id) {
        Ok(oid) => Ok(oid),
        Err(e) => Err(GraphError::InvalidId { id: id.to_owned(), reason: git_error_message(&e) }),
    }
}

/// Checks the two commit ids of a diff and parses them.
pub fn diff_targets(old: &str, new: &str) -> (r: Result<(git2::Oid, git2::Oid), GraphError>)
    ensures
        diff_targets_ok(old@, new@, r),
{
    if same_text(old, "working-copy") || same_text(new, "working-copy") {
        return Err(GraphError::DiffWithWorkingCopy);
    }
    let a = match parse_commit_id(old) {
        Ok(a) => a,
        Err(e) => return Err(e),
    };
    let b = match parse_commit_id(new) {
        Ok(b) => b,
        Err(e) => return Err(e),
    };
    Ok((a, b))
}

/// The uncommitted-changes id is refused on either side of a diff, whatever
/// the other side holds.
pub proof fn lemma_diff_refuses_working_copy(x: Seq<char>, r1: Result<(git2::Oid, git2::Oid), GraphError>, r2: Result<(git2::Oid, git2::Oid), GraphError>)
    requires
        diff_targets_ok(x, working_copy_id(), r1),
        diff_targets_ok(working_copy_id(), x, r2),
    ensures
        r1 matches Err(GraphError::DiffWithWorkingCopy),
        r2 matches Err(GraphError::DiffWithWorkingCopy),
{
}

} // verus!
