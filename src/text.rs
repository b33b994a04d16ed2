use vstd::prelude::*;

verus! {

/// `p` is a prefix of `s`.
pub open spec fn is_prefix(p: Seq<char>, s: Seq<char>) -> bool {
    p.len() <= s.len() && s.subrange(0, p.len() as int) == p
}

/// `p` occurs somewhere inside `s`.
pub open spec fn occurs_in(p: Seq<char>, s: Seq<char>) -> bool {
    exists|k: int| 0 <= k <= s.len() - p.len() && #[trigger] s.subrange(k, k + p.len()) == p
}

/// Whether `s` begins with `p`.
pub fn starts_with(s: &str, p: &str) -> (r: bool)
    ensures
        r == is_prefix(p@, s@),
{
    let n = p.unicode_len();
    let m = s.unicode_len();
    if n > m {
        return false;
    }
    let mut i: usize = 0;
    while i < n
        invariant
            n == p@.len(),
            n <= m == s@.len(),
            i <= n,
            forall|j: int| 0 <= j < i ==> s@[j] == p@[j],
        decreases n - i,
    {
        if s.get_char(i) != p.get_char(i) {
            assert(s@.subrange(0, n as int)[i as int] != p@[i as int]);
            return false;
        }
        i = i + 1;
    }
    assert(s@.subrange(0, n as int) =~= p@);
    true
}

/// Whether `a` and `b` hold the same text.
pub fn same_text(a: &str, b: &str) -> (r: bool)
    ensures
        r == (a@ == b@),
{
    if a.unicode_len() != b.unicode_len() {
        return false;
    }
    let r = starts_with(a, b);
    assert(a@.subrange(0, b@.len() as int) =~= a@);
    r
}

/// Whether `p` occurs anywhere inside `s`.
pub fn contains(s: &str, p: &str) -> (r: bool)
    ensures
        r == occurs_in(p@, s@),
{
    let n = p.unicode_len();
    let m = s.unicode_len();
    if n > m {
        return false;
    }
    let mut k: usize = 0;
    while k <= m - n
        invariant
            n == p@.len(),
            m == s@.len(),
            n <= m,
            forall|j: int| 0 <= j < k ==> #[trigger] s@.subrange(j, j + n) != p@,
        decreases m - n + 1 - k,
    {
        let mut i: usize = 0;
        let mut same = true;
        while i < n
            invariant
                n == p@.len(),
                m == s@.len(),
                k + n <= m,
                i <= n,
                same == forall|j: int| 0 <= j < i ==> s@[k + j] == p@[j],
            decreases n - i,
        {
            if s.get_char(k + i) != p.get_char(i) {
                same = false;
            }
            i = i + 1;
        }
        if same {
            assert(s@.subrange(k as int, k + n) =~= p@);
            return true;
        }
        assert(s@.subrange(k as int, k + n) != p@) by {
            let j = choose|j: int| 0 <= j < n && s@[k + j] != p@[j];
            assert(s@.subrange(k as int, k + n)[j] != p@[j]);
        }
        k = k + 1;
    }
    false
}

/// `s` with its first `n` characters removed.
pub fn drop_chars(s: &str, n: usize) -> (r: String)
    requires
        n <= s@.len(),
    ensures
        r@ == s@.skip(n as int),
{
    let len = s.unicode_len();
    let rest = s.substring_char(n, len);
    rest.to_owned()
}

/// The name under which a reference is shown: branch names lose their
/// `refs/heads/` or `refs/remotes/` namespace; other names stay whole.
pub open spec fn short_name(name: Seq<char>) -> Seq<char> {
    if is_prefix("refs/heads/"@, name) {
        name.skip("refs/heads/"@.len() as int)
    } else if is_prefix("refs/remotes/"@, name) {
        name.skip("refs/remotes/"@.len() as int)
    } else {
        name
    }
}

/// Computes `short_name`.
pub fn short_ref_name(name: &str) -> (r: String)
    ensures
        r@ == short_name(name@),
{
    let heads = "refs/heads/";
    let remotes = "refs/remotes/";
    if starts_with(name, heads) {
        drop_chars(name, heads.unicode_len())
    } else if starts_with(name, remotes) {
        drop_chars(name, remotes.unicode_len())
    } else {
        name.to_owned()
    }
}

/// The digits of `n` in base ten.
pub open spec fn decimal(n: nat) -> Seq<char>
    decreases n,
{
    if n < 10 {
        seq!["0123456789"@[n as int]]
    } else {
        decimal(n / 10) + seq!["0123456789"@[(n % 10) as int]]
    }
}

/// Writes `n` in base ten.
pub fn decimal_string(n: usize) -> (r: String)
    ensures
        r@ == decimal(n as nat),
    decreases n,
{
    let digits = "0123456789";
    proof {
        reveal_strlit("0123456789");
    }
    let d: usize = n % 10;
    let last = digits.substring_char(d, d + 1);
    assert(last@ =~= seq!["0123456789"@[d as int]]);
    if n < 10 {
        last.to_owned()
    } else {
        let mut s = decimal_string(n / 10);
        s.append(last);
        s
    }
}

/// A copy of each string, in order.
pub fn copy_strings(v: &Vec<String>) -> (r: Vec<String>)
    ensures
        r@.len() == v@.len(),
        forall|i: int| 0 <= i < v@.len() ==> #[trigger] r@[i]@ == v@[i]@,
{
    let mut r: Vec<String> = Vec::new();
    let mut i: usize = 0;
    while i < v.len()
        invariant
            i <= v@.len(),
            r@.len() == i,
            forall|j: int| 0 <= j < i ==> #[trigger] r@[j]@ == v@[j]@,
        decreases v@.len() - i,
    {
        r.push(v[i].clone());
        i = i + 1;
    }
    r
}

} // verus!
