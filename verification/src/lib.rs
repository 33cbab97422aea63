//! A path router: the current pathname as the single source of truth, a
//! browser-style history stack with back and forward, route patterns with
//! `{name}` and `{*name}` segments, a navigation guard, start-up restore, and
//! outlets that render the element of the current path inside nested layouts.

pub mod event_bus;
pub mod matching;
pub mod outlet;
pub mod params;
pub mod router;
pub mod trie;

pub use event_bus::NoopEventBus;
pub use matching::{is_active_simple, is_prefix_of};
pub use outlet::Outlet;
pub use router::{OutletPlan, RestoreOutcome, Router, RouterView};
pub use trie::{build_matchit, fits_route_table, RouteMatch, RouteTable};
