use vstd::prelude::*;
use crate::external::now_seconds;
use crate::model::{
    CommitInfo, CommitNodeView, CommitResponse, GitCommit, RepoSnapshot,
    snapshot_wf, text_or_empty, texts, working_copy_id,
};
use crate::refs::{head_kind_for, head_kind_of, labels_for, labels_of};
use crate::text::{copy_strings, is_prefix, starts_with};
use crate::walk::{is_parent, is_walk, lemma_walk_distinct, lemma_walk_topological, lemma_walk_unique, walk_order};

verus! {

/// A message that marks one of the helper commits a stash records (its index
/// or its untracked files).
pub open spec fn is_stash_helper(msg: Seq<char>) -> bool {
    is_prefix("index on "@, msg) || is_prefix("untracked files on "@, msg)
}

/// The commits of `order` that are shown: all but the stash helpers.
pub open spec fn visible_of(cs: Seq<CommitInfo>, order: Seq<int>) -> Seq<int>
    decreases order.len(),
{
    if order.len() == 0 {
        Seq::empty()
    } else {
        let rest = visible_of(cs, order.drop_last());
        if is_stash_helper(text_or_empty(cs[order.last()].summary)) {
            rest
        } else {
            rest.push(order.last())
        }
    }
}

/// The entries of `s` after the first `skip`, at most `limit` of them.
pub open spec fn page_of(s: Seq<int>, skip: nat, limit: nat) -> Seq<int> {
    if skip >= s.len() {
        Seq::empty()
    } else if skip + limit >= s.len() {
        s.subrange(skip as int, s.len() as int)
    } else {
        s.subrange(skip as int, (skip + limit) as int)
    }
}

/// The node that shows the commit at position `k` of the snapshot.
pub open spec fn commit_view(s: RepoSnapshot, k: int) -> CommitNodeView {
    let c = s.commits@[k];
    CommitNodeView {
        id: c.id@,
        message: text_or_empty(c.summary),
        author: text_or_empty(c.author),
        date: c.time,
        parents: texts(c.parents@),
        refs: labels_of(s, c.id@),
        head_type: head_kind_of(s, c.id@),
    }
}

/// A page starts with the uncommitted-changes node: it is the first page,
/// the working tree has changes, and HEAD resolves to a commit.
pub open spec fn shows_working_copy(s: RepoSnapshot, skip: nat) -> bool {
    skip == 0 && s.dirty && s.head is Some
}

/// The uncommitted-changes node, made at time `now`: its one parent is
/// HEAD's commit.
pub open spec fn working_copy_view(s: RepoSnapshot, now: i64) -> CommitNodeView {
    CommitNodeView {
        id: working_copy_id(),
        message: "Uncommitted Changes"@,
        author: "You"@,
        date: now,
        parents: seq![s.head->Some_0.target@],
        refs: Seq::empty(),
        head_type: None,
    }
}

/// The nodes of a page that stand for stored commits.
pub open spec fn stored_nodes(s: RepoSnapshot, skip: nat, r: CommitResponse) -> Seq<CommitNodeView> {
    let all = r.commits@.map_values(|n: GitCommit| n@);
    if shows_working_copy(s, skip) {
        all.skip(1)
    } else {
        all
    }
}

/// `r` is the page after `skip` visible commits, of at most `limit` of them,
/// of the traversal `order`, with the uncommitted-changes node made at `now`
/// in front where it belongs.
pub open spec fn page_response(
    s: RepoSnapshot,
    order: Seq<int>,
    skip: nat,
    limit: nat,
    now: i64,
    r: CommitResponse,
) -> bool {
    let vis = visible_of(s.commits@, order);
    let lead: Seq<CommitNodeView> = if shows_working_copy(s, skip) {
        seq![working_copy_view(s, now)]
    } else {
        Seq::empty()
    };
    &&& r.commits@.map_values(|n: GitCommit| n@) == lead + page_of(vis, skip, limit).map_values(
        |k: int| commit_view(s, k),
    )
    &&& r.has_more == (vis.len() > skip + limit)
}

/// `r` is the page after `skip` visible commits, of at most `limit` of them,
/// of the snapshot's traversal, with the uncommitted-changes node made at
/// `now`.
pub open spec fn commits_response(s: RepoSnapshot, skip: nat, limit: nat, now: i64, r: CommitResponse) -> bool {
    exists|order: Seq<int>| is_walk(s.commits@, order) && page_response(s, order, skip, limit, now, r)
}

/// Builds the node of the commit at position `k`.
fn build_node(s: &RepoSnapshot, k: usize) -> (r: GitCommit)
    requires
        k < s.commits@.len(),
    ensures
        r@ == commit_view(*s, k as int),
{
    let c = &s.commits[k];
    let message = match &c.summary {
        Some(t) => t.clone(),
        None => String::new(),
    };
    let author = match &c.author {
        Some(t) => t.clone(),
        None => String::new(),
    };
    let parents = copy_strings(&c.parents);
    assert(texts(parents@) =~= texts(c.parents@));
    GitCommit {
        id: c.id.clone(),
        message,
        author,
        date: c.time,
        parents,
        refs: labels_for(s, &c.id),
        head_type: head_kind_for(s, &c.id),
    }
}

/// Whether a commit with this summary is a stash helper.
fn is_helper_summary(summary: &Option<String>) -> (r: bool)
    ensures
        r == is_stash_helper(text_or_empty(*summary)),
{
    match summary {
        Some(t) => starts_with(t.as_str(), "index on ") || starts_with(t.as_str(), "untracked files on "),
        None => {
            proof {
                reveal_strlit("index on ");
                reveal_strlit("untracked files on ");
            }
            false
        },
    }
}

/// Assembles one page of the graph at time `now`: the uncommitted-changes
/// node first where it belongs, then the visible commits of the traversal
/// after the first `skip`, at most `limit` of them.
pub fn assemble_commits(s: &RepoSnapshot, limit: usize, skip: usize, now: i64) -> (r: CommitResponse)
    ensures
        commits_response(*s, skip as nat, limit as nat, now, r),
{
    let order = walk_order(&s.commits);
    let ghost gorder = order@.map_values(|x: usize| x as int);
    proof {
        lemma_walk_distinct(s.commits@, gorder);
    }
    let mut vis: Vec<usize> = Vec::new();
    let mut i: usize = 0;
    while i < order.len()
        invariant
            i <= order@.len(),
            gorder == order@.map_values(|x: usize| x as int),
            forall|k: int| 0 <= k < gorder.len() ==> 0 <= #[trigger] gorder[k] < s.commits@.len(),
            vis@.map_values(|x: usize| x as int) == visible_of(s.commits@, gorder.take(i as int)),
        decreases order@.len() - i,
    {
        let k = order[i];
        assert(gorder[i as int] == k as int);
        assert(gorder.take(i + 1).drop_last() =~= gorder.take(i as int));
        if !is_helper_summary(&s.commits[k].summary) {
            vis.push(k);
            assert(vis@.map_values(|x: usize| x as int) =~= visible_of(s.commits@, gorder.take(i + 1)));
        }
        i = i + 1;
    }
    assert(gorder.take(order@.len() as int) =~= gorder);
    let ghost gvis = vis@.map_values(|x: usize| x as int);
    proof {
        lemma_visible_in_order(s.commits@, gorder);
    }
    let mut commits: Vec<GitCommit> = Vec::new();
    if skip == 0 && s.dirty {
        match &s.head {
            Some(h) => {
                let mut parents: Vec<String> = Vec::new();
                parents.push(h.target.clone());
                assert(texts(parents@) =~= seq![h.target@]);
                let node = GitCommit {
                    id: String::from_str("working-copy"),
                    message: String::from_str("Uncommitted Changes"),
                    author: String::from_str("You"),
                    date: now,
                    parents,
                    refs: Vec::new(),
                    head_type: None,
                };
                assert(texts(node.refs@) =~= Seq::<Seq<char>>::empty());
                commits.push(node);
            },
            None => {},
        }
    }
    let ghost lead = commits@.map_values(|n: GitCommit| n@);
    let n = vis.len();
    let start: usize = if skip >= n { n } else { skip };
    let end: usize = if skip >= n {
        n
    } else if limit >= n - skip {
        n
    } else {
        skip + limit
    };
    let ghost pg = page_of(gvis, skip as nat, limit as nat);
    assert(pg =~= gvis.subrange(start as int, end as int));
    assert(commits@.map_values(|x: GitCommit| x@) =~= lead + gvis.subrange(start as int, start as int).map_values(
        |k: int| commit_view(*s, k),
    ));
    let mut j: usize = start;
    while j < end
        invariant
            start <= j <= end <= n,
            n == vis@.len(),
            gvis == vis@.map_values(|x: usize| x as int),
            forall|k: int| 0 <= k < gvis.len() ==> 0 <= #[trigger] gvis[k] < s.commits@.len(),
            commits@.map_values(|x: GitCommit| x@) == lead + gvis.subrange(start as int, j as int).map_values(
                |k: int| commit_view(*s, k),
            ),
        decreases end - j,
    {
        let k = vis[j];
        assert(gvis[j as int] == k as int);
        let node = build_node(s, k);
        let ghost before = commits@.map_values(|x: GitCommit| x@);
        commits.push(node);
        assert(commits@.map_values(|x: GitCommit| x@) =~= before.push(node@));
        assert(gvis.subrange(start as int, j + 1) =~= gvis.subrange(start as int, j as int).push(k as int));
        assert(gvis.subrange(start as int, j + 1).map_values(|k: int| commit_view(*s, k)) =~= gvis.subrange(
            start as int,
            j as int,
        ).map_values(|k: int| commit_view(*s, k)).push(commit_view(*s, k as int)));
        assert(commits@.map_values(|x: GitCommit| x@) =~= lead + gvis.subrange(start as int, j + 1).map_values(
            |k: int| commit_view(*s, k),
        ));
        j = j + 1;
    }
    let has_more = if n <= skip {
        false
    } else {
        n - skip > limit
    };
    let r = CommitResponse { commits, has_more };
    proof {
        let lead2: Seq<CommitNodeView> = if shows_working_copy(*s, skip as nat) {
            seq![working_copy_view(*s, now)]
        } else {
            Seq::empty()
        };
        assert(lead =~= lead2);
        assert(page_response(*s, gorder, skip as nat, limit as nat, now, r));
    }
    r
}

/// The shown commits come in the traversal's order and stay within range.
proof fn lemma_visible_in_order(cs: Seq<CommitInfo>, order: Seq<int>)
    requires
        forall|k: int| 0 <= k < order.len() ==> 0 <= #[trigger] order[k] < cs.len(),
    ensures
        forall|k: int| 0 <= k < visible_of(cs, order).len() ==> 0 <= #[trigger] visible_of(cs, order)[k] < cs.len(),
        forall|k: int| 0 <= k < visible_of(cs, order).len() ==> order.contains(#[trigger] visible_of(cs, order)[k]),
        forall|k: int|
            0 <= k < visible_of(cs, order).len() ==> !is_stash_helper(
                text_or_empty(cs[#[trigger] visible_of(cs, order)[k]].summary),
            ),
        (forall|i: int, j: int| 0 <= i < j < order.len() ==> !is_parent(cs, #[trigger] order[i], #[trigger] order[j]))
            ==> (forall|i: int, j: int|
            0 <= i < j < visible_of(cs, order).len() ==> !is_parent(
                cs,
                #[trigger] visible_of(cs, order)[i],
                #[trigger] visible_of(cs, order)[j],
            )),
    decreases order.len(),
{
    if order.len() > 0 {
        let pre = order.drop_last();
        lemma_visible_in_order(cs, pre);
        let v = visible_of(cs, order);
        let vp = visible_of(cs, pre);
        assert forall|k: int| 0 <= k < v.len() implies !is_stash_helper(
            text_or_empty(cs[#[trigger] v[k]].summary),
        ) by {
            if k < vp.len() {
                assert(vp[k] == v[k]);
            }
        }
        assert forall|k: int| 0 <= k < v.len() implies order.contains(#[trigger] v[k]) by {
            if k < vp.len() {
                let t = choose|t: int| 0 <= t < pre.len() && pre[t] == vp[k];
                assert(order[t] == v[k]);
            } else {
                assert(order[order.len() - 1] == v[k]);
            }
        }
        if forall|i: int, j: int| 0 <= i < j < order.len() ==> !is_parent(cs, #[trigger] order[i], #[trigger] order[j]) {
            assert forall|i: int, j: int| 0 <= i < j < pre.len() implies !is_parent(
                cs,
                #[trigger] pre[i],
                #[trigger] pre[j],
            ) by {
                assert(pre[i] == order[i] && pre[j] == order[j]);
            }
            assert forall|i: int, j: int| 0 <= i < j < v.len() implies !is_parent(
                cs,
                #[trigger] v[i],
                #[trigger] v[j],
            ) by {
                if j >= vp.len() {
                    let t = choose|t: int| 0 <= t < pre.len() && pre[t] == vp[i];
                    assert(order[t] == v[i]);
                    assert(order[order.len() - 1] == v[j]);
                } else {
                    assert(vp[i] == v[i] && vp[j] == v[j]);
                }
            }
        }
    }
}

/// The page's first node when the request leaves `skip` out.
pub open spec fn skip_or_zero(skip: Option<usize>) -> nat {
    match skip {
        Some(k) => k as nat,
        None => 0,
    }
}

/// Assembles one page of the graph, reading the clock for the time of the
/// uncommitted-changes node; `skip` defaults to 0.
pub fn get_commits(s: &RepoSnapshot, limit: usize, skip: Option<usize>) -> (r: CommitResponse)
    ensures
        exists|now: i64| commits_response(*s, skip_or_zero(skip), limit as nat, now, r),
{
    let first = match skip {
        Some(k) => k,
        None => 0,
    };
    let now = now_seconds();
    let r = assemble_commits(s, limit, first, now);
    assert(commits_response(*s, skip_or_zero(skip), limit as nat, now, r));
    r
}

proof fn lemma_stored_nodes(s: RepoSnapshot, order: Seq<int>, skip: nat, limit: nat, now: i64, r: CommitResponse)
    requires
        page_response(s, order, skip, limit, now, r),
    ensures
        stored_nodes(s, skip, r) == page_of(visible_of(s.commits@, order), skip, limit).map_values(
            |k: int| commit_view(s, k),
        ),
{
    let pm = page_of(visible_of(s.commits@, order), skip, limit).map_values(|k: int| commit_view(s, k));
    if shows_working_copy(s, skip) {
        assert((seq![working_copy_view(s, now)] + pm).skip(1) =~= pm);
    } else {
        assert(Seq::<CommitNodeView>::empty() + pm =~= pm);
    }
}

/// Within a page, no commit comes before a commit that lists it as a parent.
pub proof fn lemma_page_topological(s: RepoSnapshot, skip: nat, limit: nat, now: i64, r: CommitResponse)
    requires
        commits_response(s, skip, limit, now, r),
    ensures
        forall|i: int, j: int|
            0 <= i < j < stored_nodes(s, skip, r).len() ==> !(#[trigger] stored_nodes(s, skip, r)[j]).parents.contains(
                (#[trigger] stored_nodes(s, skip, r)[i]).id,
            ),
{
    let order = choose|order: Seq<int>| is_walk(s.commits@, order) && page_response(s, order, skip, limit, now, r);
    let cs = s.commits@;
    lemma_walk_distinct(cs, order);
    lemma_walk_topological(cs, order);
    lemma_visible_in_order(cs, order);
    lemma_stored_nodes(s, order, skip, limit, now, r);
    let vis = visible_of(cs, order);
    let pg = page_of(vis, skip, limit);
    let st = stored_nodes(s, skip, r);
    let base: int = if skip >= vis.len() { 0 } else { skip as int };
    assert(forall|t: int| 0 <= t < pg.len() ==> #[trigger] pg[t] == vis[base + t]);
    assert forall|i: int, j: int| 0 <= i < j < st.len() implies !(#[trigger] st[j]).parents.contains(
        (#[trigger] st[i]).id,
    ) by {
        assert(pg[i] == vis[base + i] && pg[j] == vis[base + j]);
        assert(!is_parent(cs, vis[base + i], vis[base + j]));
        if st[j].parents.contains(st[i].id) {
            let k = choose|k: int| 0 <= k < st[j].parents.len() && st[j].parents[k] == st[i].id;
            assert(cs[pg[j]].parents@[k]@ == cs[pg[i]].id@);
        }
    }
}

/// Paging loses nothing and repeats nothing: the stored commits of the first
/// `k` and of the next `m` are those of the first `k + m`, in order.
pub proof fn lemma_pages_concatenate(
    s: RepoSnapshot,
    k: nat,
    m: nat,
    now1: i64,
    now2: i64,
    now3: i64,
    r1: CommitResponse,
    r2: CommitResponse,
    r3: CommitResponse,
)
    requires
        commits_response(s, 0, k, now1, r1),
        commits_response(s, k, m, now2, r2),
        commits_response(s, 0, k + m, now3, r3),
    ensures
        stored_nodes(s, 0, r1) + stored_nodes(s, k, r2) == stored_nodes(s, 0, r3),
{
    let cs = s.commits@;
    let o1 = choose|order: Seq<int>| is_walk(cs, order) && page_response(s, order, 0, k, now1, r1);
    let o2 = choose|order: Seq<int>| is_walk(cs, order) && page_response(s, order, k, m, now2, r2);
    let o3 = choose|order: Seq<int>| is_walk(cs, order) && page_response(s, order, 0, k + m, now3, r3);
    lemma_walk_unique(cs, o1, o2);
    lemma_walk_unique(cs, o1, o3);
    lemma_stored_nodes(s, o1, 0, k, now1, r1);
    lemma_stored_nodes(s, o1, k, m, now2, r2);
    lemma_stored_nodes(s, o1, 0, k + m, now3, r3);
    let vis = visible_of(cs, o1);
    let f = |x: int| commit_view(s, x);
    assert(page_of(vis, 0, k) + page_of(vis, k, m) =~= page_of(vis, 0, k + m));
    assert(page_of(vis, 0, k).map_values(f) + page_of(vis, k, m).map_values(f) =~= (page_of(vis, 0, k) + page_of(
        vis,
        k,
        m,
    )).map_values(f));
}

/// With a clean working tree no page holds the uncommitted-changes node.
pub proof fn lemma_clean_tree_no_working_copy(s: RepoSnapshot, skip: nat, limit: nat, now: i64, r: CommitResponse)
    requires
        snapshot_wf(s),
        !s.dirty,
        commits_response(s, skip, limit, now, r),
    ensures
        forall|i: int| 0 <= i < r.commits@.len() ==> (#[trigger] r.commits@[i]).id@ != working_copy_id(),
{
    let cs = s.commits@;
    let order = choose|order: Seq<int>| is_walk(cs, order) && page_response(s, order, skip, limit, now, r);
    lemma_walk_distinct(cs, order);
    lemma_visible_in_order(cs, order);
    lemma_stored_nodes(s, order, skip, limit, now, r);
    let vis = visible_of(cs, order);
    let pg = page_of(vis, skip, limit);
    let base: int = if skip >= vis.len() { 0 } else { skip as int };
    assert forall|i: int| 0 <= i < r.commits@.len() implies (#[trigger] r.commits@[i]).id@ != working_copy_id() by {
        assert(stored_nodes(s, skip, r)[i] == r.commits@[i]@);
        assert(pg[i] == vis[base + i]);
    }
}

/// The uncommitted-changes node appears at most once in a page, and no node
/// of a page is a stash helper.
pub proof fn lemma_page_without_helpers(s: RepoSnapshot, skip: nat, limit: nat, now: i64, r: CommitResponse)
    requires
        snapshot_wf(s),
        commits_response(s, skip, limit, now, r),
    ensures
        forall|i: int, j: int|
            0 <= i < r.commits@.len() && 0 <= j < r.commits@.len() && (#[trigger] r.commits@[i]).id@
                == working_copy_id() && (#[trigger] r.commits@[j]).id@ == working_copy_id() ==> i == j,
        forall|i: int| 0 <= i < r.commits@.len() ==> !is_stash_helper((#[trigger] r.commits@[i]).message@),
{
    let cs = s.commits@;
    let order = choose|order: Seq<int>| is_walk(cs, order) && page_response(s, order, skip, limit, now, r);
    lemma_walk_distinct(cs, order);
    lemma_visible_in_order(cs, order);
    lemma_stored_nodes(s, order, skip, limit, now, r);
    let vis = visible_of(cs, order);
    let pg = page_of(vis, skip, limit);
    let base: int = if skip >= vis.len() { 0 } else { skip as int };
    let off: int = if shows_working_copy(s, skip) { 1 } else { 0 };
    let all = r.commits@.map_values(|n: GitCommit| n@);
    reveal_strlit("Uncommitted Changes");
    reveal_strlit("index on ");
    reveal_strlit("untracked files on ");
    assert forall|i: int| off <= i < r.commits@.len() implies (#[trigger] r.commits@[i]).id@ != working_copy_id()
        && !is_stash_helper(r.commits@[i].message@) by {
        assert(all[i] == r.commits@[i]@);
        assert(stored_nodes(s, skip, r)[i - off] == all[i]);
        assert(pg[i - off] == vis[base + i - off]);
    }
    if off == 1 {
        assert(all[0] == r.commits@[0]@);
        assert(!is_stash_helper(r.commits@[0].message@)) by {
            assert(r.commits@[0].message@ == "Uncommitted Changes"@);
            assert(r.commits@[0].message@[0] != "index on "@[0]);
            assert(r.commits@[0].message@[0] != "untracked files on "@[0]);
        }
    }
}

} // verus!
