//! The router state: pathname history with a cursor, registered route
//! patterns, the parameters of the current path, and the layout and element
//! tables that an outlet renders from.
//!
//! The router decides; its owner performs the outside work. A guarded move
//! takes the answer of the navigation guard (`Ok(true)` lets it through,
//! `Ok(false)` cancels it silently, `Err(msg)` cancels it with a message),
//! asked with `from` = the current path and `to` = the target; a move that
//! returns `true` is then announced by its owner.

use vstd::prelude::*;
use crate::matching::{
    is_active_simple, is_prefix_of, prefix_matches, active_simple, root_path, trim_trailing_slashes,
};
use crate::params::{kv_map, keys_unique, pair_views};
use crate::trie::{
    RouteTable, RouteMatch, build_matchit, trie_inserts, pattern_routes, str_views,
    route_match, match_agrees, route_fits,
};

verus! {

/// The abstract state of a [`Router`].
#[verifier::ext_equal]
pub struct RouterView {
    /// Visited paths; `history[cursor]` is the current path.
    pub history: Seq<Seq<char>>,
    pub cursor: nat,
    /// Registered route patterns, in registration order.
    pub patterns: Seq<Seq<char>>,
    /// Parameters extracted from the current path when it was entered.
    pub params: Map<Seq<char>, Seq<char>>,
    /// Layout path prefixes, in registration order.
    pub layouts: Seq<Seq<char>>,
    /// Element route patterns, in registration order.
    pub elements: Seq<Seq<char>>,
}

/// `s` with `x` appended unless it already holds it.
pub open spec fn with_item(s: Seq<Seq<char>>, x: Seq<char>) -> Seq<Seq<char>> {
    if s.contains(x) {
        s
    } else {
        s.push(x)
    }
}

/// No entry of `h` is directly followed by the same entry.
pub open spec fn no_repeats(h: Seq<Seq<char>>) -> bool {
    forall|i: int| 0 <= i < h.len() - 1 ==> #[trigger] h[i] != h[i + 1]
}

/// Whether a guard answer lets the navigation through.
pub open spec fn allows(verdict: Result<bool, String>) -> bool {
    verdict == Ok::<bool, String>(true)
}

impl RouterView {
    /// The state a fresh router starts in: at `"/"`, nothing registered.
    pub open spec fn initial() -> RouterView {
        RouterView {
            history: seq![root_path()],
            cursor: 0,
            patterns: Seq::empty(),
            params: Map::empty(),
            layouts: Seq::empty(),
            elements: Seq::empty(),
        }
    }

    /// The state invariant: the cursor points into a non-empty history in
    /// which no path directly follows itself, the tables hold no duplicates,
    /// every pattern fits a route table, and every element pattern is a route
    /// pattern.
    pub open spec fn valid(self) -> bool {
        &&& 0 < self.history.len()
        &&& self.cursor < self.history.len()
        &&& no_repeats(self.history)
        &&& forall|i: int| 0 <= i < self.patterns.len() ==> route_fits(#[trigger] self.patterns[i])
        &&& forall|i: int| 0 <= i < self.elements.len() ==> route_fits(#[trigger] self.elements[i])
        &&& self.patterns.no_duplicates()
        &&& self.layouts.no_duplicates()
        &&& self.elements.no_duplicates()
        &&& forall|i: int| 0 <= i < self.elements.len() ==> self.patterns.contains(
            #[trigger] self.elements[i],
        )
    }

    /// The current path.
    pub open spec fn current(self) -> Seq<char> {
        self.history[self.cursor as int]
    }

    pub open spec fn can_go_back(self) -> bool {
        self.cursor > 0
    }

    pub open spec fn can_go_forward(self) -> bool {
        self.cursor < self.history.len() - 1
    }

    /// The parameters that `path` yields: empty when no pattern is registered
    /// or none matches, otherwise those of the matched pattern.
    pub open spec fn params_for(self, path: Seq<char>) -> Map<Seq<char>, Seq<char>> {
        if self.patterns.len() == 0 {
            Map::empty()
        } else {
            match route_match(self.patterns, path) {
                Some((_, kv)) => kv_map(kv),
                None => Map::empty(),
            }
        }
    }

    /// The history after entering `path`: the forward history is dropped, and
    /// `path` is pushed unless it is already the current path.
    pub open spec fn pushed_history(self, path: Seq<char>) -> Seq<Seq<char>> {
        let kept = self.history.take(self.cursor + 1 as int);
        if kept.last() == path {
            kept
        } else {
            kept.push(path)
        }
    }

    /// The state after navigating to `path`.
    pub open spec fn navigated(self, path: Seq<char>) -> RouterView {
        let h = self.pushed_history(path);
        RouterView {
            history: h,
            cursor: (h.len() - 1) as nat,
            params: self.params_for(path),
            ..self
        }
    }

    /// The state after moving the cursor to `c` (back or forward).
    pub open spec fn moved(self, c: nat) -> RouterView {
        RouterView { cursor: c, params: self.params_for(self.history[c as int]), ..self }
    }

    /// The state after restoring `path` at start-up.
    pub open spec fn restored(self, path: Seq<char>) -> RouterView {
        RouterView { history: seq![path], cursor: 0, params: self.params_for(path), ..self }
    }

    /// The state after registering the route pattern `p`.
    pub open spec fn with_pattern(self, p: Seq<char>) -> RouterView {
        RouterView { patterns: with_item(self.patterns, p), ..self }
    }

    /// The state after registering the element pattern `p` (which registers
    /// `p` as a route pattern too).
    pub open spec fn with_element(self, p: Seq<char>) -> RouterView {
        RouterView {
            elements: with_item(self.elements, p),
            patterns: with_item(self.patterns, p),
            ..self
        }
    }

    /// The state after registering the layout prefix `p`.
    pub open spec fn with_layout(self, p: Seq<char>) -> RouterView {
        RouterView { layouts: with_item(self.layouts, p), ..self }
    }

    /// Whether the link `target` is active: a registered pattern is active
    /// when the current path matches exactly that pattern; any other target
    /// falls back to [`active_simple`].
    pub open spec fn active(self, target: Seq<char>) -> bool {
        if self.patterns.contains(target) {
            match route_match(self.patterns, self.current()) {
                Some((v, _)) => v == target,
                None => false,
            }
        } else {
            active_simple(self.current(), target, false)
        }
    }

    /// Whether `leaf` is the element for the current path: the element whose
    /// pattern the element table matches; none when there is no element or
    /// nothing matches.
    pub open spec fn is_leaf(self, leaf: Option<usize>) -> bool {
        match leaf {
            Some(i) => {
                &&& i < self.elements.len()
                &&& self.elements.len() > 0
                &&& route_match(self.elements, self.current()) matches Some((v, _))
                &&& self.elements[i as int] == v
            },
            None => self.elements.len() == 0 || route_match(self.elements, self.current()) is None,
        }
    }

    /// Whether `order` lists the layouts that cover the current path, each
    /// once, longest first and, among equally long ones, in registration
    /// order: the order in which they wrap the content, innermost first.
    pub open spec fn is_layout_order(self, order: Seq<usize>) -> bool {
        &&& order.no_duplicates()
        &&& forall|k: int|
            0 <= k < order.len() ==> #[trigger] order[k] < self.layouts.len() && prefix_matches(
                self.layouts[order[k] as int],
                self.current(),
            )
        &&& forall|i: int|
            0 <= i < self.layouts.len() && prefix_matches(#[trigger] self.layouts[i], self.current())
                ==> order.contains(i as usize)
        &&& forall|a: int, b: int|
            0 <= a < b < order.len() ==> layout_before(
                self.layouts,
                #[trigger] order[a] as int,
                #[trigger] order[b] as int,
            )
    }

    /// Whether a persisted path is restored: not the empty path or `"/"`, and
    /// matched by the route table when any pattern is registered.
    pub open spec fn restorable(self, path: Seq<char>) -> bool {
        &&& path.len() != 0
        &&& path != root_path()
        &&& (self.patterns.len() == 0 || route_match(self.patterns, path) is Some)
    }
}

/// The byte length of the UTF-8 encoding of `s`, as `str::len` reports it.
pub open spec fn byte_len(s: Seq<char>) -> usize {
    vstd::utf8::encode_utf8(s).len() as usize
}

/// In the wrapping order of layouts, `a` comes before `b`: it is longer, or
/// as long and registered earlier.
pub open spec fn layout_before(layouts: Seq<Seq<char>>, a: int, b: int) -> bool {
    ||| byte_len(layouts[a]) > byte_len(layouts[b])
    ||| (byte_len(layouts[a]) == byte_len(layouts[b]) && a < b)
}

/// What an outlet renders for the current path.
pub struct OutletPlan {
    /// The element whose factory makes the innermost content, if any.
    pub leaf: Option<usize>,
    /// The layouts that wrap it, innermost first.
    pub layouts: Vec<usize>,
}

/// The outcome of [`Router::restore`].
#[derive(Clone, Copy, Debug, PartialEq, Eq, Structural)]
pub enum RestoreOutcome {
    /// Nothing to restore (no saved path, or the empty path or `"/"`).
    Nothing,
    /// The saved path is matched by no registered pattern; the router stays.
    Unmatched,
    /// The saved path is now the current path.
    Restored,
}

/// `with_item` holds `x`, keeps what was there, and adds nothing twice.
proof fn lemma_with_item(s: Seq<Seq<char>>, x: Seq<char>)
    requires
        s.no_duplicates(),
    ensures
        with_item(s, x).no_duplicates(),
        with_item(s, x).contains(x),
        forall|y: Seq<char>| s.contains(y) ==> with_item(s, x).contains(y),
        with_item(with_item(s, x), x) == with_item(s, x),
{
    if !s.contains(x) {
        let t = s.push(x);
        assert(t[s.len() as int] == x);
        assert forall|y: Seq<char>| s.contains(y) implies t.contains(y) by {
            let i = choose|i: int| 0 <= i < s.len() && s[i] == y;
            assert(t[i] == y);
        }
    }
}

/// Adding a fitting route to fitting routes keeps them fitting.
proof fn lemma_with_item_fits(s: Seq<Seq<char>>, x: Seq<char>)
    requires
        forall|i: int| 0 <= i < s.len() ==> route_fits(#[trigger] s[i]),
    ensures
        route_fits(x) ==> forall|i: int|
            0 <= i < with_item(s, x).len() ==> route_fits(#[trigger] with_item(s, x)[i]),
{
    if route_fits(x) && !s.contains(x) {
        assert forall|i: int| 0 <= i < with_item(s, x).len() implies route_fits(
            #[trigger] with_item(s, x)[i],
        ) by {
            if i < s.len() {
                assert(with_item(s, x)[i] == s[i]);
            }
        }
    }
}

/// Every transition keeps the state invariant.
pub proof fn law_transitions_keep_valid(s: RouterView, p: Seq<char>)
    requires
        s.valid(),
    ensures
        s.navigated(p).valid(),
        s.can_go_back() ==> s.moved((s.cursor - 1) as nat).valid(),
        s.can_go_forward() ==> s.moved(s.cursor + 1).valid(),
        s.restored(p).valid(),
        route_fits(p) ==> s.with_pattern(p).valid(),
        route_fits(p) ==> s.with_element(p).valid(),
        s.with_layout(p).valid(),
{
    lemma_with_item_fits(s.patterns, p);
    lemma_with_item_fits(s.elements, p);
    lemma_with_item(s.patterns, p);
    lemma_with_item(s.elements, p);
    lemma_with_item(s.layouts, p);
    let e = with_item(s.elements, p);
    assert forall|i: int| 0 <= i < e.len() implies with_item(s.patterns, p).contains(
        #[trigger] e[i],
    ) by {
        if i < s.elements.len() {
            assert(e[i] == s.elements[i]);
            assert(s.patterns.contains(s.elements[i]));
        }
    }
}

/// Going back and then forward again returns to the same place: the same
/// history and cursor, with the parameters of the current path read afresh.
pub proof fn law_back_then_forward(s: RouterView)
    requires
        s.valid(),
        s.can_go_back(),
    ensures
        s.moved((s.cursor - 1) as nat).can_go_forward(),
        s.moved((s.cursor - 1) as nat).moved(s.cursor) == s.moved(s.cursor),
        s.moved((s.cursor - 1) as nat).moved(s.cursor).current() == s.current(),
{
    assert(s.moved((s.cursor - 1) as nat).moved(s.cursor) =~= s.moved(s.cursor));
}

/// Going forward and then back again returns to the same place.
pub proof fn law_forward_then_back(s: RouterView)
    requires
        s.valid(),
        s.can_go_forward(),
    ensures
        s.moved(s.cursor + 1).can_go_back(),
        s.moved(s.cursor + 1).moved(s.cursor) == s.moved(s.cursor),
        s.moved(s.cursor + 1).moved(s.cursor).current() == s.current(),
{
    assert(s.moved(s.cursor + 1).moved(s.cursor) =~= s.moved(s.cursor));
}

/// Back and forward only move the cursor: the history stays as it is.
pub proof fn law_moves_keep_history(s: RouterView, c: nat)
    requires
        s.valid(),
        c < s.history.len(),
    ensures
        s.moved(c).history == s.history,
        s.moved(c).current() == s.history[c as int],
{
}

/// After navigating to `path`, `path` is current, nothing lies ahead, and the
/// history up to the previous position is kept; when `path` differs from
/// the previous path, one step back returns there.
pub proof fn law_navigate(s: RouterView, path: Seq<char>)
    requires
        s.valid(),
    ensures
        s.navigated(path).current() == path,
        !s.navigated(path).can_go_forward(),
        s.navigated(path).history.take(s.cursor + 1 as int) == s.history.take(s.cursor + 1 as int),
        path != s.current() ==> s.navigated(path).can_go_back() && s.navigated(path).moved(
            s.cursor,
        ).current() == s.current(),
        path != s.current() ==> s.navigated(path).history.len() == s.cursor + 2,
{
    let kept = s.history.take(s.cursor + 1 as int);
    assert(kept.last() == s.current());
    if kept.last() != path {
        assert(kept.push(path).take(s.cursor + 1 as int) =~= kept);
    } else {
        assert(kept.take(s.cursor + 1 as int) =~= kept);
    }
}

/// Navigating to the current path pushes nothing: it only drops the forward
/// history.
pub proof fn law_navigate_to_current(s: RouterView)
    requires
        s.valid(),
    ensures
        s.navigated(s.current()).history == s.history.take(s.cursor + 1 as int),
        s.navigated(s.current()).cursor == s.cursor,
{
}

/// Navigating twice to the same path is navigating once.
pub proof fn law_navigate_twice(s: RouterView, path: Seq<char>)
    requires
        s.valid(),
    ensures
        s.navigated(path).navigated(path) == s.navigated(path),
{
    law_navigate(s, path);
    let n = s.navigated(path);
    assert(n.history.take(n.cursor + 1 as int) =~= n.history);
    assert(n.navigated(path) =~= n);
}

/// After a restore the history holds the restored path alone: nothing to go
/// back or forward to.
pub proof fn law_restore_starts_afresh(s: RouterView, path: Seq<char>)
    ensures
        s.restored(path).current() == path,
        s.restored(path).history.len() == 1,
        !s.restored(path).can_go_back(),
        !s.restored(path).can_go_forward(),
{
}

/// Registering the same pattern, element or layout twice is registering it
/// once.
pub proof fn law_register_idempotent(s: RouterView, p: Seq<char>)
    requires
        s.valid(),
    ensures
        s.with_pattern(p).with_pattern(p) == s.with_pattern(p),
        s.with_element(p).with_element(p) == s.with_element(p),
        s.with_layout(p).with_layout(p) == s.with_layout(p),
{
    lemma_with_item(s.patterns, p);
    lemma_with_item(s.elements, p);
    lemma_with_item(s.layouts, p);
    assert(s.with_pattern(p).with_pattern(p) =~= s.with_pattern(p));
    assert(s.with_element(p).with_element(p) =~= s.with_element(p));
    assert(s.with_layout(p).with_layout(p) =~= s.with_layout(p));
}

/// An element pattern is a route pattern too: its parameters are extracted
/// and its links are judged by route matching.
pub proof fn law_element_is_pattern(s: RouterView, p: Seq<char>)
    requires
        s.valid(),
    ensures
        s.with_element(p).patterns.contains(p),
        s.with_element(p).elements.contains(p),
{
    lemma_with_item(s.patterns, p);
    lemma_with_item(s.elements, p);
}

/// With no pattern registered, no path yields parameters.
pub proof fn law_no_patterns_no_params(s: RouterView, path: Seq<char>)
    requires
        s.patterns.len() == 0,
    ensures
        s.params_for(path) == Map::<Seq<char>, Seq<char>>::empty(),
{
}

/// An unregistered target is active exactly by the prefix rule.
pub proof fn law_unregistered_target_by_prefix(s: RouterView, target: Seq<char>)
    requires
        !s.patterns.contains(target),
    ensures
        s.active(target) == active_simple(s.current(), target, false),
{
}

/// A registered target is active exactly when the route table matches the
/// current path to that very pattern; when no registered pattern matches the
/// current path, every registered target is inactive (`/user` registered,
/// current path `/user/123`: inactive).
pub proof fn law_registered_target_needs_its_match(s: RouterView, target: Seq<char>)
    requires
        s.patterns.contains(target),
    ensures
        s.active(target) <==> (route_match(s.patterns, s.current()) matches Some((v, _)) && v
            == target),
        route_match(s.patterns, s.current()) is None ==> !s.active(target),
{
}

/// A layout covers a path only when it is the root or its path, trailing
/// slashes ignored, is no longer than the path and is the path's beginning,
/// ending on a segment boundary. So a layout longer than the path (such as
/// `/settings` on `/`) never covers it.
pub proof fn law_covering_layout_is_a_prefix(layout: Seq<char>, path: Seq<char>)
    requires
        prefix_matches(layout, path),
        layout != root_path(),
    ensures
        trim_trailing_slashes(layout).len() <= trim_trailing_slashes(path).len(),
        forall|j: int|
            0 <= j < trim_trailing_slashes(layout).len() ==> #[trigger] trim_trailing_slashes(
                layout,
            )[j] == trim_trailing_slashes(path)[j],
        trim_trailing_slashes(layout).len() < trim_trailing_slashes(path).len()
            ==> trim_trailing_slashes(path)[trim_trailing_slashes(layout).len() as int] == '/',
{
    let p = trim_trailing_slashes(layout);
    let q = trim_trailing_slashes(path);
    assert forall|j: int| 0 <= j < p.len() implies #[trigger] p[j] == q[j] by {
        assert(q.take(p.len() as int)[j] == q[j]);
    }
}

/// Every layout in a wrapping order covers the current path, and every
/// covering layout is in it; a layout that does not cover the current path
/// (such as `/settings` on `/`) is never in the order.
pub proof fn law_layout_order_only_covering(s: RouterView, order: Seq<usize>)
    requires
        s.is_layout_order(order),
    ensures
        forall|k: int|
            0 <= k < order.len() ==> #[trigger] order[k] < s.layouts.len() && prefix_matches(
                s.layouts[order[k] as int],
                s.current(),
            ),
        forall|i: usize|
            i < s.layouts.len() && !prefix_matches(s.layouts[i as int], s.current())
                ==> !#[trigger] order.contains(i),
        forall|i: usize|
            i < s.layouts.len() && prefix_matches(s.layouts[i as int], s.current())
                ==> #[trigger] order.contains(i),
{
    assert forall|i: usize|
        i < s.layouts.len() && !prefix_matches(s.layouts[i as int], s.current())
            implies !#[trigger] order.contains(i) by {
        if order.contains(i) {
            let k = choose|k: int| 0 <= k < order.len() && order[k] == i;
            assert(prefix_matches(s.layouts[order[k] as int], s.current()));
        }
    }
    assert forall|i: usize|
        i < s.layouts.len() && prefix_matches(s.layouts[i as int], s.current())
            implies #[trigger] order.contains(i) by {
        assert(prefix_matches(s.layouts[(i as int)], s.current()));
        assert((i as int) as usize == i);
    }
}

/// Whether a saved path is restored depends only on the path and the route
/// patterns, never on the element or layout tables: a non-empty path other
/// than `"/"` is restored when the pattern table matches it, or when no
/// pattern is registered; the empty path and `"/"` never are.
pub proof fn law_restore_depends_on_patterns_only(
    s: RouterView,
    path: Seq<char>,
    elements: Seq<Seq<char>>,
    layouts: Seq<Seq<char>>,
)
    ensures
        (RouterView { elements, layouts, ..s }).restorable(path) == s.restorable(path),
        path.len() != 0 && path != root_path() && route_match(s.patterns, path) is Some
            ==> s.restorable(path),
        path.len() != 0 && path != root_path() && s.patterns.len() == 0 ==> s.restorable(path),
        path.len() == 0 || path == root_path() ==> !s.restorable(path),
{
}

/// Registering a pattern, element or layout `p` keeps every entry that was
/// there, makes `p` present, and adds nothing else; a pattern is kept even
/// when an existing pattern already matches it (`/user/new` beside
/// `/user/{id}`).
pub proof fn law_register_keeps_and_adds(s: RouterView, p: Seq<char>)
    requires
        s.valid(),
    ensures
        s.with_pattern(p).patterns.contains(p),
        forall|q: Seq<char>| s.patterns.contains(q) ==> s.with_pattern(p).patterns.contains(q),
        forall|q: Seq<char>| #[trigger]
            s.with_pattern(p).patterns.contains(q) ==> q == p || s.patterns.contains(q),
        s.with_element(p).elements.contains(p) && s.with_element(p).patterns.contains(p),
        forall|q: Seq<char>| s.elements.contains(q) ==> s.with_element(p).elements.contains(q),
        forall|q: Seq<char>| s.patterns.contains(q) ==> s.with_element(p).patterns.contains(q),
        s.with_layout(p).layouts.contains(p),
        forall|q: Seq<char>| s.layouts.contains(q) ==> s.with_layout(p).layouts.contains(q),
{
    lemma_with_item(s.patterns, p);
    lemma_with_item(s.elements, p);
    lemma_with_item(s.layouts, p);
    assert forall|q: Seq<char>| #[trigger]
        s.with_pattern(p).patterns.contains(q) implies q == p || s.patterns.contains(q) by {
        if !s.patterns.contains(p) {
            let i = choose|i: int| 0 <= i < s.patterns.push(p).len() && s.patterns.push(p)[i] == q;
            if i < s.patterns.len() {
                assert(s.patterns[i] == q);
            }
        }
    }
}

/// A step moves the cursor by exactly one and keeps the history: after a
/// step back the cursor is one less and the path there is current; after a
/// step forward it is one more.
pub proof fn law_step_moves_cursor_by_one(s: RouterView)
    requires
        s.valid(),
    ensures
        s.can_go_back() ==> s.moved((s.cursor - 1) as nat).cursor + 1 == s.cursor && s.moved(
            (s.cursor - 1) as nat,
        ).history == s.history && s.moved((s.cursor - 1) as nat).current() == s.history[s.cursor
            - 1],
        s.can_go_forward() ==> s.moved(s.cursor + 1).cursor == s.cursor + 1 && s.moved(
            s.cursor + 1,
        ).history == s.history && s.moved(s.cursor + 1).current() == s.history[s.cursor + 1 as int],
        forall|c: nat| c < s.history.len() ==> #[trigger] s.moved(c).cursor == c,
{
}

/// The router.
pub struct Router {
    history: Vec<String>,
    cursor: usize,
    patterns: Vec<String>,
    params: Vec<(String, String)>,
    layouts: Vec<String>,
    elements: Vec<String>,
    pattern_trie: Option<RouteTable>,
    element_trie: Option<RouteTable>,
}

impl View for Router {
    type V = RouterView;

    closed spec fn view(&self) -> RouterView {
        RouterView {
            history: str_views(self.history@),
            cursor: self.cursor as nat,
            patterns: str_views(self.patterns@),
            params: kv_map(pair_views(self.params@)),
            layouts: str_views(self.layouts@),
            elements: str_views(self.elements@),
        }
    }
}

/// Where `x` stands in `v`, if it does.
fn position(v: &Vec<String>, x: &String) -> (r: Option<usize>)
    ensures
        r matches Some(i) ==> i < v.len() && str_views(v@)[i as int] == x@,
        r is None ==> !str_views(v@).contains(x@),
{
    let mut i: usize = 0;
    while i < v.len()
        invariant
            i <= v.len(),
            forall|j: int| 0 <= j < i ==> str_views(v@)[j] != x@,
        decreases v.len() - i,
    {
        if v[i] == *x {
            return Some(i);
        }
        i += 1;
    }
    None
}

/// A copy of a list of string pairs.
fn clone_pairs(v: &Vec<(String, String)>) -> (r: Vec<(String, String)>)
    ensures
        pair_views(r@) == pair_views(v@),
{
    let mut r: Vec<(String, String)> = Vec::new();
    let mut i: usize = 0;
    while i < v.len()
        invariant
            i <= v.len(),
            pair_views(r@) == pair_views(v@.take(i as int)),
        decreases v.len() - i,
    {
        r.push((v[i].0.clone(), v[i].1.clone()));
        assert(pair_views(v@.take(i + 1)) =~= pair_views(v@.take(i as int)).push(
            (v@[i as int].0@, v@[i as int].1@),
        ));
        assert(pair_views(r@) =~= pair_views(v@.take(i as int)).push(
            (v@[i as int].0@, v@[i as int].1@),
        ));
        i += 1;
    }
    assert(v@.take(i as int) =~= v@);
    r
}

impl Router {
    /// The invariant of the representation: the view is valid, the parameter
    /// list has unique keys, and each cached route table is the table of its
    /// patterns.
    pub closed spec fn wf(&self) -> bool {
        &&& self@.valid()
        &&& keys_unique(pair_views(self.params@))
        &&& (self.pattern_trie matches Some(t) ==> trie_inserts(t) == pattern_routes(
            self@.patterns,
        ))
        &&& (self.element_trie matches Some(t) ==> trie_inserts(t) == pattern_routes(
            self@.elements,
        ))
    }

    /// Every router satisfies the state invariant.
    pub proof fn law_state_valid(&self)
        requires
            self.wf(),
        ensures
            self@.valid(),
    {
    }

    /// No path in the history directly follows itself: navigating to the
    /// current path pushes nothing.
    pub proof fn law_no_path_follows_itself(&self)
        requires
            self.wf(),
        ensures
            forall|i: int|
                0 <= i < self@.history.len() - 1 ==> #[trigger] self@.history[i] != self@.history[i
                    + 1],
    {
    }

    /// A router at `"/"` with history `["/"]`, cursor 0 and nothing registered.
    pub fn new() -> (r: Router)
        ensures
            r.wf(),
            r@ == RouterView::initial(),
    {
        let mut history: Vec<String> = Vec::new();
        history.push("/".to_owned());
        let r = Router {
            history,
            cursor: 0,
            patterns: Vec::new(),
            params: Vec::new(),
            layouts: Vec::new(),
            elements: Vec::new(),
            pattern_trie: None,
            element_trie: None,
        };
        proof {
            reveal_strlit("/");
            assert(r.history@[0]@ =~= root_path());
            assert(r@.history =~= RouterView::initial().history);
            assert(r@.patterns =~= Seq::<Seq<char>>::empty());
            assert(r@.layouts =~= Seq::<Seq<char>>::empty());
            assert(r@.elements =~= Seq::<Seq<char>>::empty());
            assert(pair_views(r.params@) =~= Seq::empty());
            assert(r@.params =~= Map::empty());
        }
        r
    }

    /// The current path.
    pub fn current(&self) -> (p: String)
        requires
            self.wf(),
        ensures
            p@ == self@.current(),
    {
        self.history[self.cursor].clone()
    }

    /// Whether there is a step back.
    pub fn can_go_back(&self) -> (r: bool)
        requires
            self.wf(),
        ensures
            r == self@.can_go_back(),
    {
        self.cursor > 0
    }

    /// Whether there is a step forward.
    pub fn can_go_forward(&self) -> (r: bool)
        requires
            self.wf(),
        ensures
            r == self@.can_go_forward(),
    {
        self.cursor < self.history.len() - 1
    }

    /// The number of history entries.
    pub fn history_len(&self) -> (n: usize)
        ensures
            n == self@.history.len(),
    {
        self.history.len()
    }

    /// The position of the current path in the history.
    pub fn cursor(&self) -> (c: usize)
        ensures
            c == self@.cursor,
    {
        self.cursor
    }

    /// What the route table of the registered patterns answers for `path`;
    /// the table is built on first use and kept until the patterns change.
    fn lookup_pattern(&mut self, path: &str) -> (r: Option<RouteMatch>)
        requires
            old(self).wf(),
        ensures
            final(self).wf(),
            final(self)@ == old(self)@,
            match_agrees(r, route_match(old(self)@.patterns, path@)),
    {
        if self.pattern_trie.is_none() {
            assert forall|i: int| 0 <= i < self.patterns@.len() implies route_fits(
                #[trigger] self.patterns@[i]@,
            ) by {
                assert(self@.patterns[i] == self.patterns@[i]@);
            }
            self.pattern_trie = Some(build_matchit(self.patterns.as_slice()));
        }
        match &self.pattern_trie {
            Some(t) => t.find(path),
            None => None,
        }
    }

    /// What the route table of the element patterns answers for `path`.
    fn lookup_element(&mut self, path: &str) -> (r: Option<RouteMatch>)
        requires
            old(self).wf(),
        ensures
            final(self).wf(),
            final(self)@ == old(self)@,
            match_agrees(r, route_match(old(self)@.elements, path@)),
            r matches Some(m) ==> old(self)@.elements.contains(m.pattern@),
    {
        if self.element_trie.is_none() {
            assert forall|i: int| 0 <= i < self.elements@.len() implies route_fits(
                #[trigger] self.elements@[i]@,
            ) by {
                assert(self@.elements[i] == self.elements@[i]@);
            }
            self.element_trie = Some(build_matchit(self.elements.as_slice()));
        }
        match &self.element_trie {
            Some(t) => {
                let r = t.find(path);
                proof {
                    if r is Some {
                        let i = choose|i: int|
                            0 <= i < trie_inserts(*t).len() && #[trigger] trie_inserts(*t)[i].1
                                == r->Some_0.pattern@;
                        assert(trie_inserts(*t)[i] == (self@.elements[i], self@.elements[i]));
                    }
                }
                r
            },
            None => None,
        }
    }

    /// Sets the parameters to those that `path` yields.
    fn update_params_for(&mut self, path: &str)
        requires
            old(self).wf(),
        ensures
            final(self).wf(),
            final(self)@ == (RouterView { params: old(self)@.params_for(path@), ..old(self)@ }),
    {
        if self.patterns.len() == 0 {
            self.params = Vec::new();
            assert(pair_views(self.params@) =~= Seq::empty());
            assert(self@.params =~= Map::empty());
            return;
        }
        match self.lookup_pattern(path) {
            Some(m) => {
                self.params = m.params;
            },
            None => {
                self.params = Vec::new();
                assert(pair_views(self.params@) =~= Seq::empty());
                assert(self@.params =~= Map::empty());
            },
        }
    }

    /// Pushes `path` onto the history: the forward history is dropped, and
    /// `path` is not pushed again when it is already the current path.
    fn push_history(&mut self, path: String)
        requires
            old(self).wf(),
        ensures
            final(self).wf(),
            final(self)@ == (RouterView {
                history: old(self)@.pushed_history(path@),
                cursor: (old(self)@.pushed_history(path@).len() - 1) as nat,
                ..old(self)@
            }),
    {
        let ghost old_view = self@;
        assert(self.cursor < self.history.len());
        self.history.truncate(self.cursor + 1);
        assert(str_views(self.history@) =~= old_view.history.take(old_view.cursor + 1 as int));
        let last = self.history.len() - 1;
        if self.history[last] == path {
            return;
        }
        self.history.push(path);
        self.cursor = self.history.len() - 1;
        assert(str_views(self.history@) =~= old_view.pushed_history(path@));
    }

    /// Enters `path`: parameters, then history.
    fn navigate_inner(&mut self, path: String)
        requires
            old(self).wf(),
        ensures
            final(self).wf(),
            final(self)@ == old(self)@.navigated(path@),
    {
        self.update_params_for(path.as_str());
        self.push_history(path);
    }

    /// Navigates to `path` if the guard's answer `verdict` lets it through;
    /// returns whether it did. A cancelled navigation changes nothing.
    pub fn navigate(&mut self, path: String, verdict: Result<bool, String>) -> (r: bool)
        requires
            old(self).wf(),
        ensures
            final(self).wf(),
            r == allows(verdict),
            r ==> final(self)@ == old(self)@.navigated(path@),
            !r ==> final(self)@ == old(self)@,
    {
        match verdict {
            Ok(b) => {
                if b {
                    self.navigate_inner(path);
                    true
                } else {
                    false
                }
            },
            Err(_) => false,
        }
    }

    /// Navigates to `path` without asking the guard; always returns `true`.
    pub fn navigate_force(&mut self, path: String) -> (r: bool)
        requires
            old(self).wf(),
        ensures
            final(self).wf(),
            r,
            final(self)@ == old(self)@.navigated(path@),
    {
        self.navigate_inner(path);
        true
    }

    /// The target of a step back, if there is one: the path that the guard is
    /// asked about (as `to`) before [`Router::back`].
    pub fn back_target(&self) -> (r: Option<String>)
        requires
            self.wf(),
        ensures
            r is Some <==> self@.can_go_back(),
            r matches Some(p) ==> p@ == self@.history[self@.cursor - 1],
    {
        if self.cursor > 0 {
            Some(self.history[self.cursor - 1].clone())
        } else {
            None
        }
    }

    /// The target of a step forward, if there is one.
    pub fn forward_target(&self) -> (r: Option<String>)
        requires
            self.wf(),
        ensures
            r is Some <==> self@.can_go_forward(),
            r matches Some(p) ==> p@ == self@.history[self@.cursor + 1 as int],
    {
        if self.cursor < self.history.len() - 1 {
            Some(self.history[self.cursor + 1].clone())
        } else {
            None
        }
    }

    /// Moves the cursor to `c` and sets the parameters of the path there; the
    /// history is kept as it is.
    fn move_to(&mut self, c: usize)
        requires
            old(self).wf(),
            c < old(self)@.history.len(),
        ensures
            final(self).wf(),
            final(self)@ == old(self)@.moved(c as nat),
    {
        self.cursor = c;
        let to = self.history[c].clone();
        self.update_params_for(to.as_str());
    }

    /// Steps back if there is a step back and the guard's answer `verdict`
    /// lets it through; returns whether it did.
    pub fn back(&mut self, verdict: Result<bool, String>) -> (r: bool)
        requires
            old(self).wf(),
        ensures
            final(self).wf(),
            r == (old(self)@.can_go_back() && allows(verdict)),
            r ==> final(self)@ == old(self)@.moved((old(self)@.cursor - 1) as nat),
            !r ==> final(self)@ == old(self)@,
    {
        if self.cursor == 0 {
            return false;
        }
        match verdict {
            Ok(b) => {
                if b {
                    let c = self.cursor - 1;
                    self.move_to(c);
                    true
                } else {
                    false
                }
            },
            Err(_) => false,
        }
    }

    /// Steps forward if there is a step forward and the guard's answer
    /// `verdict` lets it through; returns whether it did.
    pub fn forward(&mut self, verdict: Result<bool, String>) -> (r: bool)
        requires
            old(self).wf(),
        ensures
            final(self).wf(),
            r == (old(self)@.can_go_forward() && allows(verdict)),
            r ==> final(self)@ == old(self)@.moved(old(self)@.cursor + 1),
            !r ==> final(self)@ == old(self)@,
    {
        if self.cursor >= self.history.len() - 1 {
            return false;
        }
        match verdict {
            Ok(b) => {
                if b {
                    let c = self.cursor + 1;
                    self.move_to(c);
                    true
                } else {
                    false
                }
            },
            Err(_) => false,
        }
    }

    /// Steps back without asking the guard; returns whether there was a step.
    pub fn back_force(&mut self) -> (r: bool)
        requires
            old(self).wf(),
        ensures
            final(self).wf(),
            r == old(self)@.can_go_back(),
            r ==> final(self)@ == old(self)@.moved((old(self)@.cursor - 1) as nat),
            !r ==> final(self)@ == old(self)@,
    {
        self.back(Ok(true))
    }

    /// Steps forward without asking the guard; returns whether there was a
    /// step.
    pub fn forward_force(&mut self) -> (r: bool)
        requires
            old(self).wf(),
        ensures
            final(self).wf(),
            r == old(self)@.can_go_forward(),
            r ==> final(self)@ == old(self)@.moved(old(self)@.cursor + 1),
            !r ==> final(self)@ == old(self)@,
    {
        self.forward(Ok(true))
    }

    /// Registers a route pattern (static segments, `{name}` parameters,
    /// `{*name}` catch-alls); registering it again changes nothing. The
    /// pattern must fit a route table (fewer than 26 `'{'` characters).
    pub fn register(&mut self, pattern: String)
        requires
            old(self).wf(),
            route_fits(pattern@),
        ensures
            final(self).wf(),
            final(self)@ == old(self)@.with_pattern(pattern@),
    {
        let ghost old_view = self@;
        if position(&self.patterns, &pattern).is_none() {
            self.patterns.push(pattern);
            self.pattern_trie = None;
            assert(self@.patterns =~= old_view.patterns.push(pattern@));
            proof {
                lemma_with_item_fits(old_view.patterns, pattern@);
            }
            assert forall|i: int| 0 <= i < self@.elements.len() implies self@.patterns.contains(
                #[trigger] self@.elements[i],
            ) by {
                let j = choose|j: int| 0 <= j < old_view.patterns.len() && old_view.patterns[j]
                    == old_view.elements[i];
                assert(self@.patterns[j] == old_view.patterns[j]);
            }
        }
    }

    /// Registers the element pattern `path`, which registers it as a route
    /// pattern too; returns its slot in the element table, where the caller
    /// keeps its content factory (registering it again returns the same slot).
    /// The pattern must fit a route table (fewer than 26 `'{'` characters).
    pub fn register_element(&mut self, path: String) -> (r: usize)
        requires
            old(self).wf(),
            route_fits(path@),
        ensures
            final(self).wf(),
            final(self)@ == old(self)@.with_element(path@),
            r < final(self)@.elements.len(),
            final(self)@.elements[r as int] == path@,
    {
        let ghost old_view = self@;
        self.register(path.clone());
        match position(&self.elements, &path) {
            Some(i) => i,
            None => {
                let ghost mid = self@;
                self.elements.push(path);
                self.element_trie = None;
                assert(self@.elements =~= mid.elements.push(path@));
                proof {
                    lemma_with_item_fits(mid.elements, path@);
                }
                proof {
                    if !old_view.patterns.contains(path@) {
                        assert(mid.patterns[mid.patterns.len() - 1] == path@);
                    }
                }
                assert(mid.patterns.contains(path@));
                assert forall|i: int| 0 <= i < self@.elements.len() implies self@.patterns.contains(
                    #[trigger] self@.elements[i],
                ) by {
                    if i < mid.elements.len() {
                        assert(self@.elements[i] == mid.elements[i]);
                    }
                }
                self.elements.len() - 1
            },
        }
    }

    /// Registers the layout prefix `path`; returns its slot in the layout
    /// table, where the caller keeps its layout factory (registering it again
    /// returns the same slot).
    pub fn register_layout(&mut self, path: String) -> (r: usize)
        requires
            old(self).wf(),
        ensures
            final(self).wf(),
            final(self)@ == old(self)@.with_layout(path@),
            r < final(self)@.layouts.len(),
            final(self)@.layouts[r as int] == path@,
    {
        let ghost old_view = self@;
        match position(&self.layouts, &path) {
            Some(i) => i,
            None => {
                self.layouts.push(path);
                assert(self@.layouts =~= old_view.layouts.push(path@));
                self.layouts.len() - 1
            },
        }
    }

    /// Whether the link `target` is active (see [`RouterView::active`]): a
    /// registered pattern by route matching, any other target by prefix.
    pub fn is_active(&mut self, target: &str) -> (r: bool)
        requires
            old(self).wf(),
        ensures
            final(self).wf(),
            final(self)@ == old(self)@,
            r == old(self)@.active(target@),
    {
        let t = target.to_owned();
        let cur = self.current();
        if position(&self.patterns, &t).is_some() {
            match self.lookup_pattern(cur.as_str()) {
                Some(m) => m.pattern == t,
                None => false,
            }
        } else {
            is_active_simple(cur.as_str(), target, false)
        }
    }

    /// Restores a persisted path at start-up, quietly: no guard, and the
    /// history starts afresh as `[path]`. Nothing happens for no path, the
    /// empty path or `"/"`; a path that no registered pattern matches is
    /// refused when patterns are registered.
    pub fn restore(&mut self, saved: Option<String>) -> (r: RestoreOutcome)
        requires
            old(self).wf(),
        ensures
            final(self).wf(),
            r == RestoreOutcome::Restored <==> (saved matches Some(p) && old(self)@.restorable(
                p@,
            )),
            r == RestoreOutcome::Unmatched <==> (saved matches Some(p) && p@.len() != 0 && p@
                != root_path() && !old(self)@.restorable(p@)),
            r == RestoreOutcome::Restored ==> final(self)@ == old(self)@.restored(saved->Some_0@),
            r != RestoreOutcome::Restored ==> final(self)@ == old(self)@,
    {
        match saved {
            None => RestoreOutcome::Nothing,
            Some(p) => {
                let root = "/".to_owned();
                proof {
                    reveal_strlit("/");
                    assert(root@ =~= root_path());
                }
                if p.as_str().is_empty() || p == root {
                    return RestoreOutcome::Nothing;
                }
                if self.patterns.len() > 0 {
                    if self.lookup_pattern(p.as_str()).is_none() {
                        return RestoreOutcome::Unmatched;
                    }
                }
                self.update_params_for(p.as_str());
                let mut history: Vec<String> = Vec::new();
                history.push(p);
                self.history = history;
                self.cursor = 0;
                assert(self@.history =~= seq![saved->Some_0@]);
                RestoreOutcome::Restored
            },
        }
    }

    /// The layouts that cover the current path, in wrapping order.
    fn layout_order(&self) -> (order: Vec<usize>)
        requires
            self.wf(),
        ensures
            self@.is_layout_order(order@),
    {
        let cur = self.current();
        let ghost lays = self@.layouts;
        let mut order: Vec<usize> = Vec::new();
        let mut i: usize = 0;
        while i < self.layouts.len()
            invariant
                self.wf(),
                lays == self@.layouts,
                cur@ == self@.current(),
                i <= self.layouts.len(),
                order@.no_duplicates(),
                forall|k: int|
                    0 <= k < order.len() ==> #[trigger] order@[k] < i && prefix_matches(
                        lays[order@[k] as int],
                        cur@,
                    ),
                forall|j: int|
                    0 <= j < i && prefix_matches(#[trigger] lays[j], cur@) ==> order@.contains(
                        j as usize,
                    ),
                forall|a: int, b: int|
                    0 <= a < b < order.len() ==> layout_before(
                        lays,
                        #[trigger] order@[a] as int,
                        #[trigger] order@[b] as int,
                    ),
            decreases self.layouts.len() - i,
        {
            if is_prefix_of(self.layouts[i].as_str(), cur.as_str()) {
                let li = self.layouts[i].as_str().len();
                assert(li == byte_len(lays[i as int]));
                let mut p: usize = 0;
                while p < order.len() && self.layouts[order[p]].as_str().len() >= li
                    invariant
                        self.wf(),
                        lays == self@.layouts,
                        i < self.layouts.len(),
                        li == byte_len(lays[i as int]),
                        p <= order.len(),
                        forall|k: int| 0 <= k < order.len() ==> #[trigger] order@[k] < i,
                        forall|k: int| 0 <= k < p ==> byte_len(lays[#[trigger] order@[k] as int]) >= li,
                    decreases order.len() - p,
                {
                    p += 1;
                }
                let ghost old_order = order@;
                proof {
                    old_order.insert_ensures(p as int, i);
                    if p < old_order.len() {
                        assert(byte_len(lays[old_order[p as int] as int]) < li);
                        assert forall|k: int| p <= k < old_order.len() implies byte_len(
                            lays[#[trigger] old_order[k] as int],
                        ) < li by {
                            if k > p {
                                assert(layout_before(lays, old_order[p as int] as int, old_order[k] as int));
                            }
                        }
                    }
                }
                order.insert(p, i);
                assert forall|a: int, b: int| 0 <= a < b < order.len() implies layout_before(
                    lays,
                    #[trigger] order@[a] as int,
                    #[trigger] order@[b] as int,
                ) by {
                    if b < p {
                        assert(order@[a] == old_order[a] && order@[b] == old_order[b]);
                    } else if b == p {
                        assert(order@[a] == old_order[a]);
                        assert(byte_len(lays[old_order[a] as int]) >= li);
                    } else if a == p {
                        assert(order@[b] == old_order[b - 1]);
                    } else if a < p {
                        assert(order@[a] == old_order[a] && order@[b] == old_order[b - 1]);
                    } else {
                        assert(order@[a] == old_order[a - 1] && order@[b] == old_order[b - 1]);
                    }
                }
                assert forall|k: int| 0 <= k < order.len() implies #[trigger] order@[k] < i + 1
                    && prefix_matches(lays[order@[k] as int], cur@) by {
                    if k < p {
                        assert(order@[k] == old_order[k]);
                    } else if k > p {
                        assert(order@[k] == old_order[k - 1]);
                    }
                }
                assert forall|j: int| 0 <= j < i + 1 && prefix_matches(#[trigger] lays[j], cur@)
                    implies order@.contains(j as usize) by {
                    if j == i {
                        assert(order@[p as int] == i);
                    } else {
                        let k = choose|k: int| 0 <= k < old_order.len() && old_order[k] == j as usize;
                        if k < p {
                            assert(order@[k] == old_order[k]);
                        } else {
                            assert(order@[k + 1] == old_order[k]);
                        }
                    }
                }
                assert forall|a: int, b: int| 0 <= a < b < order.len() implies order@[a]
                    != order@[b] by {
                    assert(layout_before(lays, order@[a] as int, order@[b] as int));
                }
            }
            i += 1;
        }
        order
    }

    /// What an outlet renders for the current path: the element whose
    /// pattern matches it (static patterns win over dynamic ones, as matchit
    /// ranks them), wrapped by every layout that covers the path, longest
    /// first.
    pub fn render_outlet(&mut self) -> (plan: OutletPlan)
        requires
            old(self).wf(),
        ensures
            final(self).wf(),
            final(self)@ == old(self)@,
            old(self)@.is_leaf(plan.leaf),
            old(self)@.elements.len() > 0 && route_match(old(self)@.elements, old(self)@.current())
                is Some ==> plan.leaf is Some,
            old(self)@.is_layout_order(plan.layouts@),
    {
        let cur = self.current();
        let leaf = if self.elements.len() == 0 {
            None
        } else {
            match self.lookup_element(cur.as_str()) {
                Some(m) => position(&self.elements, &m.pattern),
                None => None,
            }
        };
        let layouts = self.layout_order();
        OutletPlan { leaf, layouts }
    }

    /// The parameters of the current path, each key once.
    pub fn params(&self) -> (ps: Vec<(String, String)>)
        requires
            self.wf(),
        ensures
            keys_unique(pair_views(ps@)),
            kv_map(pair_views(ps@)) == self@.params,
    {
        clone_pairs(&self.params)
    }
}

} // verus!
