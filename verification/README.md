# routers

A path router for desktop applications: the current pathname is the single
source of truth, with a browser-style history (back / forward, forward
history dropped on navigation, no duplicate push), route patterns with
`{name}` and `{*name}` segments (matched by the `matchit` crate), a
navigation guard, quiet start-up restore of a persisted path, and outlets
that render the element of the current path inside nested layouts
(longest layout prefix innermost).

Layout:

- `src/` — the verified library (Verus). `router.rs` holds the router state
  machine, its abstract view `RouterView` and the laws over it; `matching.rs`
  the prefix / active-link predicates; `trie.rs` the route tables on
  `matchit`; `params.rs` the parameter lists read as maps; `outlet.rs` and
  `event_bus.rs` the outlet and the default bus.
- `app/` — the gpui glue: a thread-local router with a reactive pathname
  signal, the `RouterEventBus` trait, and the `Outlet` element. It asks the
  bus, hands the answers to the library and announces what the library did.
- `tests/` — scenarios of the library.

`app/` names `gpui`, which is not a dependency: gpui's dependency tree
(about 600 packages even without default features) exceeds what this build
can fetch, so `app/` does not type-check here.
