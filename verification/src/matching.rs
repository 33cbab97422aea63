//! Prefix and active-state predicates on paths.
//!
//! Both predicates respect segment boundaries: `/files` is a prefix of
//! `/files/sub` but not of `/files-and-more`.

use vstd::prelude::*;

verus! {

/// `s` with every trailing `'/'` removed.
pub open spec fn trim_trailing_slashes(s: Seq<char>) -> Seq<char>
    decreases s.len(),
{
    if s.len() > 0 && s.last() == '/' {
        trim_trailing_slashes(s.drop_last())
    } else {
        s
    }
}

/// `path` begins with `prefix`, and the match ends on a segment boundary:
/// either `path` ends there or the next character is `'/'`.
pub open spec fn starts_with_segment(path: Seq<char>, prefix: Seq<char>) -> bool {
    &&& prefix.len() <= path.len()
    &&& path.take(prefix.len() as int) == prefix
    &&& (path.len() == prefix.len() || path[prefix.len() as int] == '/')
}

/// The root path `"/"`.
pub open spec fn root_path() -> Seq<char> {
    seq!['/']
}

/// Whether the layout path `prefix` covers `path`: the root covers every path;
/// otherwise, trailing slashes ignored on both sides, `path` starts with
/// `prefix` on a segment boundary.
pub open spec fn prefix_matches(prefix: Seq<char>, path: Seq<char>) -> bool {
    prefix == root_path() || starts_with_segment(
        trim_trailing_slashes(path),
        trim_trailing_slashes(prefix),
    )
}

/// Navigation-link active state: for the root target or in exact mode the
/// paths must be equal; otherwise `current` is `target` or lies below it.
pub open spec fn active_simple(current: Seq<char>, target: Seq<char>, exact: bool) -> bool {
    if target == root_path() || exact {
        current == target
    } else {
        starts_with_segment(current, target)
    }
}

/// The characters of `s`, in order.
pub fn chars_of(s: &str) -> (v: Vec<char>)
    ensures
        v@ == s@,
{
    let mut v: Vec<char> = Vec::new();
    for c in it: s.chars()
        invariant
            v@ == it.seq().take(it.index()),
    {
        v.push(c);
    }
    v
}

/// The length of `v` once its trailing slashes are removed.
fn trimmed_len(v: &Vec<char>) -> (n: usize)
    ensures
        n <= v.len(),
        v@.take(n as int) == trim_trailing_slashes(v@),
{
    let mut n = v.len();
    assert(v@.take(n as int) =~= v@);
    while n > 0 && v[n - 1] == '/'
        invariant
            n <= v.len(),
            trim_trailing_slashes(v@) == trim_trailing_slashes(v@.take(n as int)),
        decreases n,
    {
        assert(v@.take(n as int).drop_last() =~= v@.take(n - 1));
        n -= 1;
    }
    n
}

/// Whether the first `qn` characters of `q` start with the first `pn`
/// characters of `p` on a segment boundary.
fn segment_starts(q: &Vec<char>, qn: usize, p: &Vec<char>, pn: usize) -> (r: bool)
    requires
        qn <= q.len(),
        pn <= p.len(),
    ensures
        r == starts_with_segment(q@.take(qn as int), p@.take(pn as int)),
{
    if pn > qn {
        return false;
    }
    let mut i: usize = 0;
    while i < pn
        invariant
            pn <= qn <= q.len(),
            pn <= p.len(),
            i <= pn,
            forall|j: int| 0 <= j < i ==> q@[j] == p@[j],
        decreases pn - i,
    {
        if q[i] != p[i] {
            assert(q@.take(qn as int).take(pn as int)[i as int] != p@.take(pn as int)[i as int]);
            return false;
        }
        i += 1;
    }
    assert(q@.take(qn as int).take(pn as int) =~= p@.take(pn as int));
    pn == qn || q[pn] == '/'
}

/// Whether `a` and `b` hold the same characters.
fn chars_eq(a: &Vec<char>, b: &Vec<char>) -> (r: bool)
    ensures
        r == (a@ == b@),
{
    if a.len() != b.len() {
        return false;
    }
    let mut i: usize = 0;
    while i < a.len()
        invariant
            a.len() == b.len(),
            i <= a.len(),
            forall|j: int| 0 <= j < i ==> a@[j] == b@[j],
        decreases a.len() - i,
    {
        if a[i] != b[i] {
            return false;
        }
        i += 1;
    }
    assert(a@ =~= b@);
    true
}

/// Whether `v` is the root path `"/"`.
fn is_root(v: &Vec<char>) -> (r: bool)
    ensures
        r == (v@ == root_path()),
{
    let r = v.len() == 1 && v[0] == '/';
    if r {
        assert(v@ =~= root_path());
    }
    r
}

/// Whether the layout path `prefix` covers `path` (see [`prefix_matches`]):
/// `"/"` covers everything, `"/settings"` covers `/settings` and
/// `/settings/profile` but not `/settings-account`, and `"/settings/"`
/// behaves like `"/settings"`.
pub fn is_prefix_of(prefix: &str, path: &str) -> (r: bool)
    ensures
        r == prefix_matches(prefix@, path@),
{
    let p = chars_of(prefix);
    if is_root(&p) {
        return true;
    }
    let q = chars_of(path);
    let pn = trimmed_len(&p);
    let qn = trimmed_len(&q);
    segment_starts(&q, qn, &p, pn)
}

/// Navigation-link active state (see [`active_simple`]): with `target == "/"`
/// or `exact`, `current` must equal `target`; otherwise `/files` is active on
/// `/files` and `/files/sub` but not on `/files-and-more`.
pub fn is_active_simple(current: &str, target: &str, exact: bool) -> (r: bool)
    ensures
        r == active_simple(current@, target@, exact),
{
    let c = chars_of(current);
    let t = chars_of(target);
    if is_root(&t) || exact {
        return chars_eq(&c, &t);
    }
    assert(c@.take(c.len() as int) =~= c@);
    assert(t@.take(t.len() as int) =~= t@);
    segment_starts(&c, c.len(), &t, t.len())
}

/// The root layout covers every path.
pub proof fn law_root_covers_every_path(path: Seq<char>)
    ensures
        prefix_matches(root_path(), path),
{
}

/// A trailing slash on a layout path changes nothing: `"/settings/"` covers
/// exactly the paths that `"/settings"` covers.
pub proof fn law_layout_trailing_slash_ignored(prefix: Seq<char>, path: Seq<char>)
    requires
        prefix.len() > 0,
        prefix != root_path(),
    ensures
        prefix_matches(prefix.push('/'), path) == prefix_matches(prefix, path),
{
    assert(prefix.push('/').drop_last() =~= prefix);
    assert(prefix.push('/').len() >= 2);
    assert(prefix.push('/') != root_path());
}

/// A trailing slash on the path changes nothing: a layout covers `/x/` exactly
/// when it covers `/x`.
pub proof fn law_path_trailing_slash_ignored(prefix: Seq<char>, path: Seq<char>)
    ensures
        prefix_matches(prefix, path.push('/')) == prefix_matches(prefix, path),
{
    assert(path.push('/').drop_last() =~= path);
}

/// A path below a layout path on a segment boundary is covered by it.
pub proof fn law_layout_covers_descendants(prefix: Seq<char>, rest: Seq<char>)
    requires
        prefix.len() > 0,
        prefix.last() != '/',
    ensures
        prefix_matches(prefix, prefix + seq!['/'] + rest),
{
    let path = prefix + seq!['/'] + rest;
    assert(trim_trailing_slashes(prefix) == prefix);
    let q = trim_trailing_slashes(path);
    assert(path[prefix.len() - 1] == prefix.last());
    lemma_trim_is_prefix(path, prefix.len() as int);
    assert forall|j: int| 0 <= j < q.len() implies q[j] == path[j] by {
        assert(q[j] == path.take(q.len() as int)[j]);
    }
    assert(path.take(prefix.len() as int) =~= prefix);
    assert(q.take(prefix.len() as int) =~= prefix);
    if q.len() > prefix.len() {
        assert(q[prefix.len() as int] == path[prefix.len() as int]);
    }
}

/// Trimming trailing slashes keeps a prefix of the string, and keeps at least
/// everything up to a non-slash character.
proof fn lemma_trim_is_prefix(s: Seq<char>, n: int)
    requires
        0 < n <= s.len(),
        s[n - 1] != '/',
    ensures
        n <= trim_trailing_slashes(s).len() <= s.len(),
        trim_trailing_slashes(s) == s.take(trim_trailing_slashes(s).len() as int),
    decreases s.len(),
{
    if s.len() > 0 && s.last() == '/' {
        assert(s.drop_last()[n - 1] == s[n - 1]);
        lemma_trim_is_prefix(s.drop_last(), n);
        let t = trim_trailing_slashes(s.drop_last());
        assert(s.drop_last().take(t.len() as int) =~= s.take(t.len() as int));
    } else {
        assert(s.take(s.len() as int) =~= s);
    }
}

/// With `exact` set, a link is active exactly on its own path.
pub proof fn law_exact_means_equal(current: Seq<char>, target: Seq<char>)
    ensures
        active_simple(current, target, true) == (current == target),
{
}

/// The root link is active only on the root itself.
pub proof fn law_root_link_only_on_root(current: Seq<char>, exact: bool)
    ensures
        active_simple(current, root_path(), exact) == (current == root_path()),
{
}

/// A link is active on its own path.
pub proof fn law_link_active_on_itself(target: Seq<char>, exact: bool)
    ensures
        active_simple(target, target, exact),
{
    assert(target.take(target.len() as int) =~= target);
}

/// Outside exact mode, a link is active on every path below it.
pub proof fn law_link_active_on_descendants(target: Seq<char>, rest: Seq<char>)
    requires
        target != root_path(),
    ensures
        active_simple(target + seq!['/'] + rest, target, false),
{
    let c = target + seq!['/'] + rest;
    assert(c.take(target.len() as int) =~= target);
    assert(c[target.len() as int] == '/');
}

/// Segment boundary: a path that continues the target with anything but
/// `'/'` does not make the link active (`/files` is not active on `/files2`).
pub proof fn law_link_respects_segment_boundary(
    target: Seq<char>,
    next: char,
    rest: Seq<char>,
    exact: bool,
)
    requires
        next != '/',
    ensures
        !active_simple(target + seq![next] + rest, target, exact),
{
    let c = target + seq![next] + rest;
    assert(c.len() > target.len());
    assert(c[target.len() as int] == next);
    assert(c != target);
}

} // verus!
