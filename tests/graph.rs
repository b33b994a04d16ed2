use git_graph::graph::{assemble_commits, get_commits};
use git_graph::model::{CommitInfo, CommitResponse, HeadKind, HeadState, RefEntry, RepoSnapshot};
use git_graph::refs::{get_all_refs, walk_roots};

fn commit(id: &str, summary: &str, time: i64, parents: &[&str]) -> CommitInfo {
    CommitInfo {
        id: id.to_string(),
        summary: Some(summary.to_string()),
        author: Some("Ann".to_string()),
        time,
        parents: parents.iter().map(|p| p.to_string()).collect(),
    }
}

fn reference(name: &str, target: &str) -> RefEntry {
    RefEntry { name: name.to_string(), target: target.to_string() }
}

fn linear(dirty: bool) -> RepoSnapshot {
    RepoSnapshot {
        commits: vec![commit("aaa", "first", 100, &[]), commit("bbb", "second", 200, &["aaa"]), commit("ccc", "third", 300, &["bbb"])],
        refs: vec![reference("refs/heads/main", "ccc"), reference("refs/tags/v1", "bbb")],
        head: Some(HeadState { target: "ccc".to_string(), detached: false }),
        stashes: vec![],
        dirty,
    }
}

fn ids(r: &CommitResponse) -> Vec<String> {
    r.commits.iter().map(|c| c.id.clone()).collect()
}

#[test]
fn linear_history_with_branch_and_tag() {
    let r = assemble_commits(&linear(false), 10, 0, 0);
    assert_eq!(ids(&r), vec!["ccc", "bbb", "aaa"]);
    assert_eq!(r.commits[0].refs, vec!["HEAD", "main"]);
    assert_eq!(r.commits[1].refs, vec!["refs/tags/v1"]);
    assert!(r.commits[2].refs.is_empty());
    assert_eq!(r.commits[0].head_type, Some(HeadKind::Branch));
    assert_eq!(r.commits[1].head_type, None);
    assert_eq!(r.commits[1].message, "second");
    assert_eq!(r.commits[1].author, "Ann");
    assert_eq!(r.commits[1].date, 200);
    assert_eq!(r.commits[1].parents, vec!["aaa"]);
    assert!(!r.has_more);
}

#[test]
fn untracked_file_adds_working_copy_node() {
    let r = assemble_commits(&linear(true), 10, 0, 555);
    assert_eq!(ids(&r), vec!["working-copy", "ccc", "bbb", "aaa"]);
    let wc = &r.commits[0];
    assert_eq!(wc.parents, vec!["ccc"]);
    assert_eq!(wc.message, "Uncommitted Changes");
    assert_eq!(wc.author, "You");
    assert_eq!(wc.date, 555);
    assert!(wc.refs.is_empty());
    assert_eq!(wc.head_type, None);
}

#[test]
fn working_copy_only_on_first_page() {
    let r = assemble_commits(&linear(true), 10, 1, 0);
    assert_eq!(ids(&r), vec!["bbb", "aaa"]);
}

#[test]
fn clean_tree_has_no_working_copy_node() {
    for skip in 0..4 {
        let r = assemble_commits(&linear(false), 10, skip, 0);
        assert!(r.commits.iter().all(|c| c.id != "working-copy"));
    }
}

#[test]
fn stash_helpers_are_hidden() {
    let mut s = linear(false);
    s.commits.push(commit("idx", "index on main: ccc third", 400, &["ccc"]));
    s.commits.push(commit("unt", "untracked files on main: ccc third", 400, &[]));
    s.commits.push(commit("www", "WIP on main: ccc third", 401, &["ccc", "idx", "unt"]));
    s.stashes = vec!["www".to_string()];
    let r = assemble_commits(&s, 10, 0, 0);
    assert_eq!(ids(&r), vec!["www", "ccc", "bbb", "aaa"]);
    assert_eq!(r.commits[0].refs, vec!["stash@{0}"]);
    assert_eq!(r.commits[0].parents, vec!["ccc", "idx", "unt"]);
    assert!(r.commits.iter().all(|c| !c.message.starts_with("index on ") && !c.message.starts_with("untracked files on ")));
}

#[test]
fn stash_labels_count_from_most_recent() {
    let mut s = linear(false);
    s.commits.push(commit("s0", "WIP on main: new", 500, &["ccc"]));
    s.commits.push(commit("s1", "WIP on main: old", 450, &["ccc"]));
    s.stashes = vec!["s0".to_string(), "s1".to_string()];
    let r = assemble_commits(&s, 10, 0, 0);
    assert_eq!(ids(&r), vec!["s0", "s1", "ccc", "bbb", "aaa"]);
    assert_eq!(r.commits[0].refs, vec!["stash@{0}"]);
    assert_eq!(r.commits[1].refs, vec!["stash@{1}"]);
}

#[test]
fn stash_label_with_two_digits() {
    let mut s = linear(false);
    s.stashes = (0..13).map(|_| "zzz".to_string()).collect();
    s.stashes[12] = "bbb".to_string();
    let r = assemble_commits(&s, 10, 0, 0);
    assert_eq!(r.commits[1].refs, vec!["refs/tags/v1", "stash@{12}"]);
}

#[test]
fn pages_concatenate() {
    let mut s = linear(true);
    s.commits.push(commit("idx", "index on main: x", 250, &["bbb"]));
    s.commits.push(commit("ddd", "fourth", 400, &["ccc", "idx"]));
    let whole = assemble_commits(&s, 4, 0, 0);
    let first = assemble_commits(&s, 2, 0, 0);
    let second = assemble_commits(&s, 2, 2, 0);
    let mut joined: Vec<String> = ids(&first)[1..].to_vec();
    joined.extend(ids(&second));
    assert_eq!(joined, ids(&whole)[1..].to_vec());
    assert_eq!(ids(&whole), vec!["working-copy", "ddd", "ccc", "bbb", "aaa"]);
    assert!(first.has_more);
    assert!(!second.has_more);
    assert!(!whole.has_more);
}

#[test]
fn has_more_and_limits() {
    let r = assemble_commits(&linear(false), 2, 0, 0);
    assert_eq!(ids(&r), vec!["ccc", "bbb"]);
    assert!(r.has_more);
    let r = assemble_commits(&linear(false), 0, 0, 0);
    assert!(r.commits.is_empty());
    assert!(r.has_more);
    let r = assemble_commits(&linear(false), usize::MAX, 1, 0);
    assert_eq!(ids(&r), vec!["bbb", "aaa"]);
    assert!(!r.has_more);
    let r = assemble_commits(&linear(false), usize::MAX, usize::MAX, 0);
    assert!(r.commits.is_empty());
    assert!(!r.has_more);
}

#[test]
fn children_come_before_parents_even_when_older() {
    // The merge is older than one of its parents; it must still come first.
    let s = RepoSnapshot {
        commits: vec![
            commit("root", "root", 10, &[]),
            commit("left", "left", 50, &["root"]),
            commit("right", "right", 40, &["root"]),
            commit("merge", "merge", 30, &["left", "right"]),
            commit("side", "side", 35, &["root"]),
        ],
        refs: vec![],
        head: None,
        stashes: vec![],
        dirty: true,
    };
    let r = assemble_commits(&s, 100, 0, 0);
    assert_eq!(ids(&r), vec!["side", "merge", "left", "right", "root"]);
    let pos = |id: &str| r.commits.iter().position(|c| c.id == id).unwrap();
    for c in &r.commits {
        for p in &c.parents {
            assert!(pos(&c.id) < pos(p));
        }
    }
}

#[test]
fn equal_times_keep_snapshot_order() {
    let s = RepoSnapshot {
        commits: vec![commit("x", "x", 7, &[]), commit("y", "y", 7, &[]), commit("z", "z", 7, &[])],
        refs: vec![],
        head: None,
        stashes: vec![],
        dirty: false,
    };
    assert_eq!(ids(&assemble_commits(&s, 10, 0, 0)), vec!["x", "y", "z"]);
}

#[test]
fn detached_head_is_marked() {
    let mut s = linear(false);
    s.head = Some(HeadState { target: "bbb".to_string(), detached: true });
    let r = assemble_commits(&s, 10, 0, 0);
    assert_eq!(r.commits[1].refs, vec!["HEAD", "refs/tags/v1"]);
    assert_eq!(r.commits[1].head_type, Some(HeadKind::Detached));
    assert_eq!(r.commits[0].refs, vec!["main"]);
    assert_eq!(r.commits[0].head_type, None);
}

#[test]
fn missing_summary_and_author_are_empty() {
    let mut s = linear(false);
    s.commits[0].summary = None;
    s.commits[0].author = None;
    let r = assemble_commits(&s, 10, 0, 0);
    assert_eq!(r.commits[2].message, "");
    assert_eq!(r.commits[2].author, "");
}

#[test]
fn reference_named_head_is_not_repeated() {
    let mut s = linear(false);
    s.refs.push(reference("HEAD", "ccc"));
    s.refs.push(reference("refs/remotes/origin/main", "ccc"));
    let r = assemble_commits(&s, 10, 0, 0);
    assert_eq!(r.commits[0].refs, vec!["HEAD", "main", "origin/main"]);
}

#[test]
fn get_commits_reads_the_clock_for_the_working_copy() {
    let r = get_commits(&linear(true), 10, None);
    assert_eq!(r.commits[0].id, "working-copy");
    assert!(r.commits[0].date > 1_600_000_000);
    let r = get_commits(&linear(true), 10, Some(1));
    assert_eq!(ids(&r), vec!["bbb", "aaa"]);
}

#[test]
fn empty_history() {
    let s = RepoSnapshot { commits: vec![], refs: vec![], head: None, stashes: vec![], dirty: true };
    let r = assemble_commits(&s, 10, 0, 0);
    assert!(r.commits.is_empty());
    assert!(!r.has_more);
}

#[test]
fn all_refs_use_display_names() {
    let refs = vec![
        reference("refs/heads/feature/x", "a1"),
        reference("refs/remotes/origin/main", "b2"),
        reference("refs/tags/v2", "c3"),
        reference("refs/stash", "d4"),
    ];
    let r = get_all_refs(&refs);
    let names: Vec<(String, String)> = r.into_iter().map(|g| (g.name, g.commit_id)).collect();
    assert_eq!(
        names,
        vec![
            ("feature/x".to_string(), "a1".to_string()),
            ("origin/main".to_string(), "b2".to_string()),
            ("refs/tags/v2".to_string(), "c3".to_string()),
            ("refs/stash".to_string(), "d4".to_string()),
        ]
    );
}

#[test]
fn roots_are_head_local_branches_tags_and_stashes() {
    let refs = vec![
        reference("refs/heads/main", "m"),
        reference("refs/remotes/origin/main", "o"),
        reference("refs/tags/v1", "t"),
        reference("refs/notes/x", "n"),
    ];
    let head = Some(HeadState { target: "h".to_string(), detached: true });
    let r = walk_roots(&refs, &head, &vec!["s0".to_string(), "s1".to_string()]);
    assert_eq!(r, vec!["h", "m", "t", "s0", "s1"]);
    assert_eq!(walk_roots(&vec![], &None, &vec![]), Vec::<String>::new());
}
