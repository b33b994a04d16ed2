use vstd::prelude::*;
use vstd::set_lib::{lemma_int_range, lemma_len_subset, set_int_range};
use crate::model::CommitInfo;

verus! {

/// Commit `p` is listed among the parents of commit `c`.
pub open spec fn is_parent(cs: Seq<CommitInfo>, p: int, c: int) -> bool {
    exists|k: int| 0 <= k < cs[c].parents@.len() && #[trigger] cs[c].parents@[k]@ == cs[p].id@
}

/// Commit `c` may come next once the commits of `done` are out: it is not out
/// yet, and no commit still waiting lists it as a parent.
pub open spec fn ready(cs: Seq<CommitInfo>, done: Seq<int>, c: int) -> bool {
    &&& 0 <= c < cs.len()
    &&& !done.contains(c)
    &&& forall|ch: int| 0 <= ch < cs.len() && !done.contains(ch) ==> !#[trigger] is_parent(cs, c, ch)
}

/// Commit `c` goes before commit `d` when both may come next: the newer one
/// first, and on equal times the one listed first.
pub open spec fn goes_before(cs: Seq<CommitInfo>, c: int, d: int) -> bool {
    cs[c].time > cs[d].time || (cs[c].time == cs[d].time && c <= d)
}

/// Commit `c` is the one that comes next after `done`.
pub open spec fn next_pick(cs: Seq<CommitInfo>, done: Seq<int>, c: int) -> bool {
    ready(cs, done, c) && forall|d: int| ready(cs, done, d) ==> #[trigger] goes_before(cs, c, d)
}

/// `order` is the traversal of `cs`: each position holds the commit that comes
/// next after those before it, and once it ends no commit may come next (only
/// commits on a cycle of parent links are then left out).
pub open spec fn is_walk(cs: Seq<CommitInfo>, order: Seq<int>) -> bool {
    &&& forall|k: int| 0 <= k < order.len() ==> next_pick(cs, order.take(k), #[trigger] order[k])
    &&& forall|c: int| !ready(cs, order, c)
}

/// A traversal never lists a commit twice.
pub proof fn lemma_walk_distinct(cs: Seq<CommitInfo>, order: Seq<int>)
    requires
        is_walk(cs, order),
    ensures
        order.no_duplicates(),
        forall|k: int| 0 <= k < order.len() ==> 0 <= #[trigger] order[k] < cs.len(),
{
    assert forall|i: int, j: int| 0 <= i < j < order.len() implies order[i] != order[j] by {
        assert(next_pick(cs, order.take(j), order[j]));
        assert(order.take(j)[i] == order[i]);
    }
    assert forall|k: int| 0 <= k < order.len() implies 0 <= #[trigger] order[k] < cs.len() by {
        assert(next_pick(cs, order.take(k), order[k]));
    }
}

/// The traversal is a topological order of the history: no commit comes
/// before a commit that lists it as a parent.
pub proof fn lemma_walk_topological(cs: Seq<CommitInfo>, order: Seq<int>)
    requires
        is_walk(cs, order),
    ensures
        forall|i: int, j: int|
            0 <= i < j < order.len() ==> !is_parent(cs, #[trigger] order[i], #[trigger] order[j]),
{
    lemma_walk_distinct(cs, order);
    assert forall|i: int, j: int| 0 <= i < j < order.len() implies !is_parent(
        cs,
        #[trigger] order[i],
        #[trigger] order[j],
    ) by {
        assert(next_pick(cs, order.take(i), order[i]));
        if order.take(i).contains(order[j]) {
            let t = choose|t: int| 0 <= t < i && order.take(i)[t] == order[j];
            assert(order[t] == order[j]);
        }
        assert(ready(cs, order.take(i), order[i]));
    }
}

proof fn lemma_walk_prefix_agree(cs: Seq<CommitInfo>, o1: Seq<int>, o2: Seq<int>, k: int)
    requires
        is_walk(cs, o1),
        is_walk(cs, o2),
        0 <= k <= o1.len(),
        k <= o2.len(),
    ensures
        o1.take(k) == o2.take(k),
    decreases k,
{
    if k > 0 {
        lemma_walk_prefix_agree(cs, o1, o2, k - 1);
        let a = o1[k - 1];
        let b = o2[k - 1];
        assert(next_pick(cs, o1.take(k - 1), a));
        assert(next_pick(cs, o2.take(k - 1), b));
        assert(goes_before(cs, a, b));
        assert(goes_before(cs, b, a));
        assert(o1.take(k) =~= o1.take(k - 1).push(a));
        assert(o2.take(k) =~= o2.take(k - 1).push(b));
    }
}

/// There is one traversal of a given history.
pub proof fn lemma_walk_unique(cs: Seq<CommitInfo>, o1: Seq<int>, o2: Seq<int>)
    requires
        is_walk(cs, o1),
        is_walk(cs, o2),
    ensures
        o1 == o2,
{
    if o1.len() < o2.len() {
        lemma_walk_prefix_agree(cs, o1, o2, o1.len() as int);
        assert(o1.take(o1.len() as int) =~= o1);
        assert(next_pick(cs, o2.take(o1.len() as int), o2[o1.len() as int]));
        assert(!ready(cs, o1, o2[o1.len() as int]));
    } else if o2.len() < o1.len() {
        lemma_walk_prefix_agree(cs, o1, o2, o2.len() as int);
        assert(o2.take(o2.len() as int) =~= o2);
        assert(next_pick(cs, o1.take(o2.len() as int), o1[o2.len() as int]));
        assert(!ready(cs, o2, o1[o2.len() as int]));
    } else {
        lemma_walk_prefix_agree(cs, o1, o2, o1.len() as int);
        assert(o1.take(o1.len() as int) =~= o1);
        assert(o2.take(o2.len() as int) =~= o2);
    }
}

proof fn lemma_distinct_in_range_len(s: Seq<int>, n: int)
    requires
        0 <= n,
        s.no_duplicates(),
        forall|i: int| 0 <= i < s.len() ==> 0 <= #[trigger] s[i] < n,
    ensures
        s.len() <= n,
{
    s.unique_seq_to_set();
    lemma_int_range(0, n);
    assert(s.to_set().subset_of(set_int_range(0, n)));
    lemma_len_subset(s.to_set(), set_int_range(0, n));
}

/// Whether `id` is among `ids`.
fn is_listed(ids: &Vec<String>, id: &String) -> (r: bool)
    ensures
        r == exists|k: int| 0 <= k < ids@.len() && #[trigger] ids@[k]@ == id@,
{
    let mut k: usize = 0;
    while k < ids.len()
        invariant
            k <= ids@.len(),
            forall|j: int| 0 <= j < k ==> #[trigger] ids@[j]@ != id@,
        decreases ids@.len() - k,
    {
        if ids[k] == *id {
            return true;
        }
        k = k + 1;
    }
    false
}

/// For each commit, the positions of its parents within `cs`.
fn parent_positions(cs: &Vec<CommitInfo>) -> (r: Vec<Vec<usize>>)
    ensures
        r@.len() == cs@.len(),
        forall|c: int, k: int| 0 <= c < r@.len() && 0 <= k < r@[c]@.len() ==> #[trigger] r@[c]@[k] < cs@.len(),
        forall|c: int, p: int|
            0 <= c < cs@.len() && 0 <= p < cs@.len() ==> (#[trigger] is_parent(cs@, p, c) <==> r@[c]@.contains(p as usize)),
{
    let n = cs.len();
    let mut r: Vec<Vec<usize>> = Vec::new();
    let mut c: usize = 0;
    while c < n
        invariant
            n == cs@.len(),
            c <= n,
            r@.len() == c,
            forall|d: int, k: int| 0 <= d < c && 0 <= k < r@[d]@.len() ==> #[trigger] r@[d]@[k] < n,
            forall|d: int, p: int|
                0 <= d < c && 0 <= p < n ==> (#[trigger] is_parent(cs@, p, d) <==> r@[d]@.contains(p as usize)),
        decreases n - c,
    {
        let mut row: Vec<usize> = Vec::new();
        let mut p: usize = 0;
        while p < n
            invariant
                n == cs@.len(),
                c < n,
                p <= n,
                forall|k: int| 0 <= k < row@.len() ==> #[trigger] row@[k] < p,
                forall|q: int| 0 <= q < p ==> (#[trigger] is_parent(cs@, q, c as int) <==> row@.contains(q as usize)),
            decreases n - p,
        {
            let listed = is_listed(&cs[c].parents, &cs[p].id);
            let ghost old_row = row@;
            if listed {
                row.push(p);
                assert(row@[old_row.len() as int] == p);
            }
            assert forall|q: int| 0 <= q <= p implies (#[trigger] is_parent(cs@, q, c as int) <==> row@.contains(q as usize)) by {
                if row@.contains(q as usize) && q < p {
                    let k = choose|k: int| 0 <= k < row@.len() && row@[k] == q as usize;
                    if k < old_row.len() {
                        assert(old_row[k] == q as usize);
                    }
                }
                if q < p && old_row.contains(q as usize) {
                    let k = choose|k: int| 0 <= k < old_row.len() && old_row[k] == q as usize;
                    assert(row@[k] == q as usize);
                }
            }
            p = p + 1;
        }
        r.push(row);
        c = c + 1;
    }
    r
}

/// Orders the commits of a history for display: every commit before its
/// parents, and among the commits free to come next, the newest first.
pub fn walk_order(cs: &Vec<CommitInfo>) -> (r: Vec<usize>)
    ensures
        is_walk(cs@, r@.map_values(|x: usize| x as int)),
{
    let n = cs.len();
    let parents = parent_positions(cs);
    let mut done: Vec<bool> = Vec::new();
    let mut i: usize = 0;
    while i < n
        invariant
            i <= n,
            done@.len() == i,
            forall|c: int| 0 <= c < i ==> !#[trigger] done@[c],
        decreases n - i,
    {
        done.push(false);
        i = i + 1;
    }
    let mut order: Vec<usize> = Vec::new();
    let ghost mut gorder: Seq<int> = Seq::empty();
    loop
        invariant
            n == cs@.len(),
            parents@.len() == n,
            forall|c: int, k: int| 0 <= c < n && 0 <= k < parents@[c]@.len() ==> #[trigger] parents@[c]@[k] < n,
            forall|c: int, p: int|
                0 <= c < n && 0 <= p < n ==> (#[trigger] is_parent(cs@, p, c) <==> parents@[c]@.contains(p as usize)),
            done@.len() == n,
            gorder == order@.map_values(|x: usize| x as int),
            gorder.no_duplicates(),
            forall|k: int| 0 <= k < gorder.len() ==> 0 <= #[trigger] gorder[k] < n,
            forall|c: int| 0 <= c < n ==> (#[trigger] done@[c] <==> gorder.contains(c)),
            forall|k: int| 0 <= k < gorder.len() ==> next_pick(cs@, gorder.take(k), #[trigger] gorder[k]),
        decreases n - gorder.len(),
    {
        proof {
            lemma_distinct_in_range_len(gorder, n as int);
        }
        // Mark every commit that a waiting commit lists as a parent.
        let mut blocked: Vec<bool> = Vec::new();
        let mut j: usize = 0;
        while j < n
            invariant
                j <= n,
                blocked@.len() == j,
                forall|c: int| 0 <= c < j ==> !#[trigger] blocked@[c],
            decreases n - j,
        {
            blocked.push(false);
            j = j + 1;
        }
        let mut ch: usize = 0;
        while ch < n
            invariant
                n == cs@.len(),
                parents@.len() == n,
                forall|c: int, k: int| 0 <= c < n && 0 <= k < parents@[c]@.len() ==> #[trigger] parents@[c]@[k] < n,
                forall|c: int, p: int|
                    0 <= c < n && 0 <= p < n ==> (#[trigger] is_parent(cs@, p, c) <==> parents@[c]@.contains(p as usize)),
                done@.len() == n,
                forall|c: int| 0 <= c < n ==> (#[trigger] done@[c] <==> gorder.contains(c)),
                ch <= n,
                blocked@.len() == n,
                forall|c: int|
                    0 <= c < n ==> (#[trigger] blocked@[c] <==> exists|x: int|
                        0 <= x < ch && !done@[x] && #[trigger] is_parent(cs@, c, x)),
            decreases n - ch,
        {
            if !done[ch] {
                let row = &parents[ch];
                let mut k: usize = 0;
                while k < row.len()
                    invariant
                        n == cs@.len(),
                        ch < n,
                        row@ == parents@[ch as int]@,
                        forall|t: int| 0 <= t < row@.len() ==> #[trigger] row@[t] < n,
                        !done@[ch as int],
                        done@.len() == n,
                        k <= row@.len(),
                        blocked@.len() == n,
                        forall|c: int|
                            0 <= c < n ==> (#[trigger] blocked@[c] <==> (exists|x: int|
                                0 <= x < ch && !done@[x] && #[trigger] is_parent(cs@, c, x))
                                || exists|t: int| 0 <= t < k && row@[t] == c),
                    decreases row@.len() - k,
                {
                    let p = row[k];
                    blocked.set(p, true);
                    k = k + 1;
                }
                assert forall|c: int| 0 <= c < n implies (#[trigger] blocked@[c] <==> exists|x: int|
                    0 <= x < ch + 1 && !done@[x] && #[trigger] is_parent(cs@, c, x)) by {
                    if is_parent(cs@, c, ch as int) {
                        assert(parents@[ch as int]@.contains(c as usize));
                    }
                    if exists|t: int| 0 <= t < row@.len() && row@[t] == c {
                        assert(parents@[ch as int]@.contains(c as usize));
                        assert(is_parent(cs@, c, ch as int));
                    }
                }
            }
            ch = ch + 1;
        }
        // Among the commits free to come next, take the newest.
        let mut best: Option<usize> = None;
        let mut c: usize = 0;
        while c < n
            invariant
                n == cs@.len(),
                c <= n,
                done@.len() == n,
                blocked@.len() == n,
                forall|x: int| 0 <= x < n ==> (#[trigger] done@[x] <==> gorder.contains(x)),
                forall|x: int|
                    0 <= x < n ==> (#[trigger] blocked@[x] <==> exists|y: int|
                        0 <= y < n && !done@[y] && #[trigger] is_parent(cs@, x, y)),
                match best {
                    Some(b) => b < c && ready(cs@, gorder, b as int) && forall|d: int|
                        0 <= d < c && ready(cs@, gorder, d) ==> #[trigger] goes_before(cs@, b as int, d),
                    None => forall|d: int| 0 <= d < c ==> !#[trigger] ready(cs@, gorder, d),
                },
            decreases n - c,
        {
            assert(ready(cs@, gorder, c as int) <==> (!done@[c as int] && !blocked@[c as int]));
            if !done[c] && !blocked[c] {
                match best {
                    Some(b) => {
                        if cs[c].time > cs[b].time {
                            assert forall|d: int|
                                0 <= d < c + 1 && ready(cs@, gorder, d) implies #[trigger] goes_before(cs@, c as int, d) by {
                                if d < c {
                                    assert(goes_before(cs@, b as int, d));
                                }
                            }
                            best = Some(c);
                        } else {
                            assert forall|d: int|
                                0 <= d < c + 1 && ready(cs@, gorder, d) implies #[trigger] goes_before(cs@, b as int, d) by {
                                if d < c {
                                    assert(goes_before(cs@, b as int, d));
                                }
                            }
                        }
                    },
                    None => {
                        best = Some(c);
                    },
                }
            }
            c = c + 1;
        }
        match best {
            None => {
                assert forall|x: int| !ready(cs@, gorder, x) by {
                    if 0 <= x < n {
                        assert(!ready(cs@, gorder, x));
                    }
                }
                proof {
                    assert(order@.map_values(|x: usize| x as int) == gorder);
                }
                return order;
            },
            Some(b) => {
                assert(next_pick(cs@, gorder, b as int));
                let ghost old_g = gorder;
                done.set(b, true);
                order.push(b);
                proof {
                    gorder = gorder.push(b as int);
                    assert(gorder =~= order@.map_values(|x: usize| x as int));
                    assert(gorder.take(old_g.len() as int) =~= old_g);
                    assert forall|k: int| 0 <= k < gorder.len() implies next_pick(cs@, gorder.take(k), #[trigger] gorder[k]) by {
                        if k < old_g.len() {
                            assert(gorder.take(k) =~= old_g.take(k));
                        }
                    }
                    assert forall|x: int| 0 <= x < n implies (#[trigger] done@[x] <==> gorder.contains(x)) by {
                        if gorder.contains(x) && x != b {
                            let t = choose|t: int| 0 <= t < gorder.len() && gorder[t] == x;
                            assert(old_g[t] == x);
                        }
                        if old_g.contains(x) {
                            let t = choose|t: int| 0 <= t < old_g.len() && old_g[t] == x;
                            assert(gorder[t] == x);
                        }
                        if x == b {
                            assert(gorder[old_g.len() as int] == x);
                        }
                    }
                    assert forall|s: int, t: int| 0 <= s < t < gorder.len() implies gorder[s] != gorder[t] by {
                        if t == old_g.len() {
                            assert(old_g[s] == gorder[s]);
                        }
                    }
                    lemma_distinct_in_range_len(gorder, n as int);
                }
            },
        }
    }
}

} // verus!
