//! The outlet: the placeholder whose content is whatever the router's current
//! path calls for.

use vstd::prelude::*;
use crate::router::{OutletPlan, Router};
use crate::trie::route_match;

verus! {

/// A content placeholder that renders the element of the current path,
/// wrapped in the layouts that cover it.
pub struct Outlet;

impl Outlet {
    /// An outlet.
    pub fn new() -> (o: Outlet)
        ensures
            o == Outlet,
    {
        Outlet
    }

    /// What this outlet shows for the router's current path: the element
    /// whose pattern matches, wrapped by the covering layouts, longest first.
    pub fn render(self, router: &mut Router) -> (plan: OutletPlan)
        requires
            old(router).wf(),
        ensures
            final(router).wf(),
            final(router)@ == old(router)@,
            old(router)@.is_leaf(plan.leaf),
            old(router)@.elements.len() > 0 && route_match(old(router)@.elements, old(router)@.current())
                is Some ==> plan.leaf is Some,
            old(router)@.is_layout_order(plan.layouts@),
    {
        router.render_outlet()
    }
}

impl Default for Outlet {
    fn default() -> (o: Outlet)
        ensures
            o == Outlet,
    {
        Outlet
    }
}

} // verus!
