use vstd::prelude::*;
use crate::model::{GitRef, HeadKind, HeadState, RefEntry, RepoSnapshot, lemma_texts_push, texts};
use crate::text::{decimal, decimal_string, is_prefix, short_name, short_ref_name, starts_with};

verus! {

/// Each reference under its display name, paired with its target.
pub open spec fn ref_listing_ok(refs: Seq<RefEntry>, r: Seq<GitRef>) -> bool {
    r.len() == refs.len() && forall|i: int|
        0 <= i < refs.len() ==> (#[trigger] r[i]).name@ == short_name(refs[i].name@)
            && r[i].commit_id@ == refs[i].target@
}

/// Lists every reference under its display name, in the order given.
pub fn get_all_refs(refs: &Vec<RefEntry>) -> (r: Vec<GitRef>)
    ensures
        ref_listing_ok(refs@, r@),
{
    let mut r: Vec<GitRef> = Vec::new();
    let mut i: usize = 0;
    while i < refs.len()
        invariant
            i <= refs@.len(),
            r@.len() == i,
            forall|j: int|
                0 <= j < i ==> (#[trigger] r@[j]).name@ == short_name(refs@[j].name@)
                    && r@[j].commit_id@ == refs@[j].target@,
        decreases refs@.len() - i,
    {
        let name = short_ref_name(refs[i].name.as_str());
        r.push(GitRef { name, commit_id: refs[i].target.clone() });
        i = i + 1;
    }
    r
}

/// The labels that the references of `refs` put on the commit `id`: the
/// display name of each reference that targets it, in order, leaving out any
/// that reads `HEAD`.
pub open spec fn ref_labels(refs: Seq<RefEntry>, id: Seq<char>) -> Seq<Seq<char>>
    decreases refs.len(),
{
    if refs.len() == 0 {
        Seq::empty()
    } else {
        let e = refs.last();
        let rest = ref_labels(refs.drop_last(), id);
        if e.target@ == id && short_name(e.name@) != "HEAD"@ {
            rest.push(short_name(e.name@))
        } else {
            rest
        }
    }
}

/// The last position at which `id` occurs in the stash reflog, if any.
pub open spec fn stash_index(stashes: Seq<String>, id: Seq<char>) -> Option<nat>
    decreases stashes.len(),
{
    if stashes.len() == 0 {
        None
    } else if stashes.last()@ == id {
        Some((stashes.len() - 1) as nat)
    } else {
        stash_index(stashes.drop_last(), id)
    }
}

/// The label of the stash at position `n` of the reflog.
pub open spec fn stash_label(n: nat) -> Seq<char> {
    "stash@{"@ + decimal(n) + "}"@
}

/// Every label of the commit `id`: `HEAD` when HEAD points at it, then the
/// references' display names, then its stash label.
pub open spec fn labels_of(s: RepoSnapshot, id: Seq<char>) -> Seq<Seq<char>> {
    let head: Seq<Seq<char>> = match s.head {
        Some(h) => if h.target@ == id { seq!["HEAD"@] } else { Seq::empty() },
        None => Seq::empty(),
    };
    let stash: Seq<Seq<char>> = match stash_index(s.stashes@, id) {
        Some(n) => seq![stash_label(n)],
        None => Seq::empty(),
    };
    head + ref_labels(s.refs@, id) + stash
}

/// The mark that HEAD puts on the commit `id`.
pub open spec fn head_kind_of(s: RepoSnapshot, id: Seq<char>) -> Option<HeadKind> {
    match s.head {
        Some(h) => if h.target@ == id {
            Some(if h.detached { HeadKind::Detached } else { HeadKind::Branch })
        } else {
            None
        },
        None => None,
    }
}

proof fn lemma_ref_labels_not_head(refs: Seq<RefEntry>, id: Seq<char>)
    ensures
        !ref_labels(refs, id).contains("HEAD"@),
    decreases refs.len(),
{
    if refs.len() > 0 {
        lemma_ref_labels_not_head(refs.drop_last(), id);
        let rest = ref_labels(refs.drop_last(), id);
        let e = refs.last();
        if e.target@ == id && short_name(e.name@) != "HEAD"@ {
            assert forall|i: int| 0 <= i < rest.len() + 1 implies rest.push(short_name(e.name@))[i] != "HEAD"@ by {
                if i < rest.len() {
                    assert(rest.push(short_name(e.name@))[i] == rest[i]);
                }
            }
        }
    }
}

/// A commit carries the `HEAD` label at most once, and HEAD marks it exactly
/// when it carries that label.
pub proof fn lemma_head_label(s: RepoSnapshot, id: Seq<char>)
    ensures
        (head_kind_of(s, id) is Some) == labels_of(s, id).contains("HEAD"@),
        forall|i: int, j: int|
            0 <= i < labels_of(s, id).len() && 0 <= j < labels_of(s, id).len() && #[trigger] labels_of(s, id)[i]
                == "HEAD"@ && #[trigger] labels_of(s, id)[j] == "HEAD"@ ==> i == j,
{
    reveal_strlit("HEAD");
    reveal_strlit("stash@{");
    lemma_ref_labels_not_head(s.refs@, id);
    let l = labels_of(s, id);
    let head: Seq<Seq<char>> = match s.head {
        Some(h) => if h.target@ == id { seq!["HEAD"@] } else { Seq::empty() },
        None => Seq::empty(),
    };
    let mid = ref_labels(s.refs@, id);
    let stash: Seq<Seq<char>> = match stash_index(s.stashes@, id) {
        Some(n) => seq![stash_label(n)],
        None => Seq::empty(),
    };
    assert(l == head + mid + stash);
    assert forall|i: int| head.len() <= i < l.len() implies l[i] != "HEAD"@ by {
        if i < head.len() + mid.len() {
            assert(l[i] == mid[i - head.len()]);
        } else {
            let n = stash_index(s.stashes@, id)->Some_0;
            assert(l[i] == stash_label(n));
            assert(stash_label(n)[0] == 's');
            assert("HEAD"@[0] == 'H');
        }
    }
    if head_kind_of(s, id) is Some {
        assert(l[0] == "HEAD"@);
    }
}

/// Where the stash `id` stands in the reflog, if it does.
pub fn find_stash(stashes: &Vec<String>, id: &String) -> (r: Option<usize>)
    ensures
        match r {
            Some(n) => stash_index(stashes@, id@) == Some(n as nat),
            None => stash_index(stashes@, id@) is None,
        },
{
    let mut k: usize = stashes.len();
    assert(stashes@.subrange(0, k as int) =~= stashes@);
    while k > 0
        invariant
            k <= stashes@.len(),
            stash_index(stashes@, id@) == stash_index(stashes@.subrange(0, k as int), id@),
        decreases k,
    {
        let ghost pre = stashes@.subrange(0, k as int);
        assert(pre.drop_last() =~= stashes@.subrange(0, k - 1));
        if stashes[k - 1] == *id {
            return Some(k - 1);
        }
        k = k - 1;
    }
    None
}

/// The label `stash@{n}`.
pub fn make_stash_label(n: usize) -> (r: String)
    ensures
        r@ == stash_label(n as nat),
{
    let mut s = String::from_str("stash@{");
    let digits = decimal_string(n);
    s.append(digits.as_str());
    s.append("}");
    s
}

/// Collects the labels of the commit `id`.
pub fn labels_for(s: &RepoSnapshot, id: &String) -> (r: Vec<String>)
    ensures
        texts(r@) == labels_of(*s, id@),
{
    let mut r: Vec<String> = Vec::new();
    match &s.head {
        Some(h) => {
            if h.target == *id {
                let t = String::from_str("HEAD");
            proof {
                lemma_texts_push(r@, t);
            }
            r.push(t);
            }
        },
        None => {},
    }
    let ghost head_part = texts(r@);
    let mut i: usize = 0;
    while i < s.refs.len()
        invariant
            i <= s.refs@.len(),
            texts(r@) == head_part + ref_labels(s.refs@.subrange(0, i as int), id@),
        decreases s.refs@.len() - i,
    {
        let e = &s.refs[i];
        assert(s.refs@.subrange(0, i + 1).drop_last() =~= s.refs@.subrange(0, i as int));
        if e.target == *id {
            let name = short_ref_name(e.name.as_str());
            let head_text = String::from_str("HEAD");
            if name != head_text {
                proof {
                    lemma_texts_push(r@, name);
                }
                r.push(name);
                assert(texts(r@) =~= head_part + ref_labels(s.refs@.subrange(0, i + 1), id@));
            }
        }
        i = i + 1;
    }
    assert(s.refs@.subrange(0, s.refs@.len() as int) =~= s.refs@);
    match find_stash(&s.stashes, id) {
        Some(n) => {
            let label = make_stash_label(n);
            proof {
                lemma_texts_push(r@, label);
            }
            r.push(label);
        },
        None => {},
    }
    assert(texts(r@) =~= labels_of(*s, id@));
    r
}

/// Computes the mark that HEAD puts on the commit `id`.
pub fn head_kind_for(s: &RepoSnapshot, id: &String) -> (r: Option<HeadKind>)
    ensures
        r == head_kind_of(*s, id@),
{
    match &s.head {
        Some(h) => if h.target == *id {
            Some(if h.detached { HeadKind::Detached } else { HeadKind::Branch })
        } else {
            None
        },
        None => None,
    }
}

/// Whether a reference of this full name starts a traversal: local branches
/// and tags do; remote-tracking branches and other names do not.
pub open spec fn is_root_ref(name: Seq<char>) -> bool {
    is_prefix("refs/heads/"@, name) || is_prefix("refs/tags/"@, name)
}

/// The targets of the root references of `refs`, in order.
pub open spec fn root_ref_targets(refs: Seq<RefEntry>) -> Seq<Seq<char>>
    decreases refs.len(),
{
    if refs.len() == 0 {
        Seq::empty()
    } else {
        let rest = root_ref_targets(refs.drop_last());
        if is_root_ref(refs.last().name@) {
            rest.push(refs.last().target@)
        } else {
            rest
        }
    }
}

/// The commits a traversal starts from: HEAD's target, the targets of local
/// branches and tags, and every stash, in that order.
pub open spec fn walk_roots_of(refs: Seq<RefEntry>, head: Option<HeadState>, stashes: Seq<String>) -> Seq<Seq<char>> {
    let h: Seq<Seq<char>> = match head {
        Some(hs) => seq![hs.target@],
        None => Seq::empty(),
    };
    h + root_ref_targets(refs) + texts(stashes)
}

/// Lists the commits a traversal starts from; the commits reachable from them
/// are the ones a snapshot holds.
pub fn walk_roots(refs: &Vec<RefEntry>, head: &Option<HeadState>, stashes: &Vec<String>) -> (r: Vec<String>)
    ensures
        texts(r@) == walk_roots_of(refs@, *head, stashes@),
{
    let mut r: Vec<String> = Vec::new();
    match head {
        Some(h) => {
            let t = h.target.clone();
            proof {
                lemma_texts_push(r@, t);
            }
            r.push(t);
        },
        None => {},
    }
    let ghost head_part = texts(r@);
    let mut i: usize = 0;
    while i < refs.len()
        invariant
            i <= refs@.len(),
            texts(r@) == head_part + root_ref_targets(refs@.subrange(0, i as int)),
        decreases refs@.len() - i,
    {
        assert(refs@.subrange(0, i + 1).drop_last() =~= refs@.subrange(0, i as int));
        let name = refs[i].name.as_str();
        if starts_with(name, "refs/heads/") || starts_with(name, "refs/tags/") {
            let t = refs[i].target.clone();
            proof {
                lemma_texts_push(r@, t);
            }
            r.push(t);
            assert(texts(r@) =~= head_part + root_ref_targets(refs@.subrange(0, i + 1)));
        }
        i = i + 1;
    }
    assert(refs@.subrange(0, refs@.len() as int) =~= refs@);
    let ghost mid = texts(r@);
    let mut j: usize = 0;
    while j < stashes.len()
        invariant
            j <= stashes@.len(),
            texts(r@) == mid + texts(stashes@.subrange(0, j as int)),
        decreases stashes@.len() - j,
    {
        let t = stashes[j].clone();
        proof {
            lemma_texts_push(r@, t);
        }
        r.push(t);
        assert(stashes@.subrange(0, j + 1) =~= stashes@.subrange(0, j as int).push(stashes@[j as int]));
        proof {
            lemma_texts_push(stashes@.subrange(0, j as int), stashes@[j as int]);
        }
        assert(texts(r@) =~= mid + texts(stashes@.subrange(0, j + 1)));
        j = j + 1;
    }
    assert(stashes@.subrange(0, stashes@.len() as int) =~= stashes@);
    assert(texts(r@) =~= walk_roots_of(refs@, *head, stashes@));
    r
}

} // verus!
