//! Route tables built on matchit's radix tree.
//!
//! A route table is matchit's radix tree; a table built from patterns stores
//! every pattern under itself, so that a match tells which pattern was hit.

use vstd::prelude::*;
use crate::params::{kv_map, keys_unique, collect_params, pair_views};
use crate::matching::chars_of;

verus! {

/// A route table: matchit's radix tree, whose routes store strings.
#[verifier::external_body]
pub struct RouteTable {
    tree: matchit::Router<String>,
}

/// The error matchit reports when it refuses a route.
#[verifier::external_type_specification]
#[verifier::external_body]
pub struct ExMatchitInsertError(matchit::InsertError);

/// The `(route, value)` pairs handed to `insert` on this tree, in call order,
/// whether matchit accepted them or not. The tree is built by these calls
/// alone, so what it answers is a function of this sequence.
pub uninterp spec fn trie_inserts(t: RouteTable) -> Seq<(Seq<char>, Seq<char>)>;

/// What matchit's `Router::at` answers for `path` on a tree built by the
/// insert calls `inserts`: `None` when no route matches, otherwise the value
/// stored under the matched route and the route parameters in order.
pub uninterp spec fn matchit_at(inserts: Seq<(Seq<char>, Seq<char>)>, path: Seq<char>) -> Option<
    (Seq<char>, Seq<(Seq<char>, Seq<char>)>),
>;

/// The views of a sequence of strings.
pub open spec fn str_views(v: Seq<String>) -> Seq<Seq<char>> {
    v.map_values(|s: String| s@)
}

/// The view of a match as matchit hands it back.
pub open spec fn match_view(m: Option<(String, Vec<(String, String)>)>) -> Option<
    (Seq<char>, Seq<(Seq<char>, Seq<char>)>),
> {
    match m {
        Some((v, ps)) => Some((v@, pair_views(ps@))),
        None => None,
    }
}

/// A lookup result agrees with what matchit answers: both absent, or the
/// same value and the same parameters read as a map.
pub open spec fn match_agrees(
    r: Option<RouteMatch>,
    m: Option<(Seq<char>, Seq<(Seq<char>, Seq<char>)>)>,
) -> bool {
    match (r, m) {
        (None, None) => true,
        (Some(x), Some((v, kv))) => {
            &&& x.pattern@ == v
            &&& keys_unique(pair_views(x.params@))
            &&& kv_map(pair_views(x.params@)) == kv_map(kv)
        },
        _ => false,
    }
}

/// The number of `'{'` characters in `route`. matchit finds each named
/// parameter at a distinct `'{'` of the route (unescaping `"{{"` and renaming
/// parameters never add one), so this bounds the named parameters it makes.
pub open spec fn open_braces(route: Seq<char>) -> nat
    decreases route.len(),
{
    if route.len() == 0 {
        0
    } else if route[0] == '{' {
        1 + open_braces(route.skip(1))
    } else {
        open_braces(route.skip(1))
    }
}

/// A route that matchit can take without panicking: matchit renames named
/// parameters to the letters `a` to `z` and panics at the 26th, so a route
/// with fewer than 26 `'{'` characters is safe.
pub open spec fn route_fits(route: Seq<char>) -> bool {
    open_braces(route) < 26
}

/// Whether `route` can go into a route table (see [`route_fits`]): it holds
/// fewer than 26 `'{'` characters, so matchit cannot reach its 26th named
/// parameter on it.
pub fn fits_route_table(route: &str) -> (r: bool)
    ensures
        r == route_fits(route@),
{
    let v = chars_of(route);
    let mut i: usize = 0;
    let mut n: usize = 0;
    assert(v@.skip(0) =~= v@);
    while i < v.len()
        invariant
            i <= v.len(),
            n <= i,
            n + open_braces(v@.skip(i as int)) == open_braces(v@),
        decreases v.len() - i,
    {
        let ghost s = v@.skip(i as int);
        assert(s[0] == v@[i as int]);
        assert(s.skip(1) =~= v@.skip(i + 1));
        if v[i] == '{' {
            n += 1;
        }
        i += 1;
    }
    assert(v@.skip(i as int).len() == 0);
    n < 26
}

/// The insert calls that build the table of `patterns`: each pattern in
/// order, stored under itself.
pub open spec fn pattern_routes(patterns: Seq<Seq<char>>) -> Seq<(Seq<char>, Seq<char>)> {
    patterns.map_values(|p: Seq<char>| (p, p))
}

/// What the table of `patterns` answers for `path`.
pub open spec fn route_match(patterns: Seq<Seq<char>>, path: Seq<char>) -> Option<
    (Seq<char>, Seq<(Seq<char>, Seq<char>)>),
> {
    matchit_at(pattern_routes(patterns), path)
}

impl RouteTable {
    /// `matchit::Router::new`: an empty tree, on which no insert has been made.
    #[verifier::external_body]
    fn new() -> (t: RouteTable)
        ensures
            trie_inserts(t) == Seq::<(Seq<char>, Seq<char>)>::empty(),
    {
        RouteTable { tree: matchit::Router::new() }
    }

    /// `matchit::Router::insert`: records one more insert call of `route`
    /// with `value` on the tree. Whether matchit accepts the route is not
    /// stated. matchit panics on a route with 26 or more named parameters;
    /// `requires` leaves out every route with 26 or more `'{'` characters,
    /// which covers them.
    #[verifier::external_body]
    fn insert(&mut self, route: &str, value: String) -> (r: Result<(), matchit::InsertError>)
        requires
            route_fits(route@),
        ensures
            trie_inserts(*final(self)) == trie_inserts(*old(self)).push((route@, value@)),
    {
        self.tree.insert(route, value)
    }

    /// `matchit::Router::at`: the match for `path`, its value and parameters
    /// copied out as strings; a `MatchError` becomes `None`. The value of a
    /// match is one that was handed to `insert` on this tree.
    #[verifier::external_body]
    fn at(&self, path: &str) -> (r: Option<(String, Vec<(String, String)>)>)
        ensures
            match_view(r) == matchit_at(trie_inserts(*self), path@),
            r matches Some((v, _)) ==> exists|i: int|
                0 <= i < trie_inserts(*self).len() && #[trigger] trie_inserts(*self)[i].1 == v@,
    {
        match self.tree.at(path) {
            Ok(m) => Some(
                (m.value.clone(), m.params.iter().map(|(k, v)| (k.to_string(), v.to_string())).collect()),
            ),
            Err(_) => None,
        }
    }

    /// Looks `path` up: the value stored under the matched route (for a table
    /// made by [`build_matchit`], the matched pattern) and the route
    /// parameters read as a map, each key once.
    pub fn find(&self, path: &str) -> (r: Option<RouteMatch>)
        ensures
            match_agrees(r, matchit_at(trie_inserts(*self), path@)),
            r matches Some(m) ==> exists|i: int|
                0 <= i < trie_inserts(*self).len() && #[trigger] trie_inserts(*self)[i].1
                    == m.pattern@,
    {
        match self.at(path) {
            Some((pattern, kv)) => Some(RouteMatch { pattern, params: collect_params(&kv) }),
            None => None,
        }
    }
}

/// A successful lookup in a route table.
pub struct RouteMatch {
    /// The value stored under the matched route.
    pub pattern: String,
    /// The route parameters, each key once.
    pub params: Vec<(String, String)>,
}

/// Builds the route table of `patterns`: every pattern is inserted in order,
/// stored under itself. A pattern that matchit refuses (bad syntax, conflict
/// with an earlier one) is skipped and the rest still go in. Each pattern
/// must fit a route table (fewer than 26 `'{'` characters).
pub fn build_matchit(patterns: &[String]) -> (t: RouteTable)
    requires
        forall|i: int| 0 <= i < patterns@.len() ==> route_fits(#[trigger] patterns@[i]@),
    ensures
        trie_inserts(t) == pattern_routes(str_views(patterns@)),
{
    let mut t = RouteTable::new();
    let mut i: usize = 0;
    while i < patterns.len()
        invariant
            i <= patterns@.len(),
            forall|j: int| 0 <= j < patterns@.len() ==> route_fits(#[trigger] patterns@[j]@),
            trie_inserts(t) == pattern_routes(str_views(patterns@.take(i as int))),
        decreases patterns@.len() - i,
    {
        let p = &patterns[i];
        let r = t.insert(p.as_str(), p.clone());
        match r {
            Ok(()) => {},
            Err(_) => {},
        }
        assert(str_views(patterns@.take(i + 1)) =~= str_views(patterns@.take(i as int)).push(
            patterns@[i as int]@,
        ));
        assert(pattern_routes(str_views(patterns@.take(i + 1))) =~= pattern_routes(
            str_views(patterns@.take(i as int)),
        ).push((patterns@[i as int]@, patterns@[i as int]@)));
        i += 1;
    }
    assert(patterns@.take(i as int) =~= patterns@);
    t
}

} // verus!
