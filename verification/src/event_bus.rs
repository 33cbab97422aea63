//! The default event bus: lets every navigation through and restores nothing.

use vstd::prelude::*;

verus! {

/// The bus that a router runs with when its owner supplies none: it drops
/// every notification, lets every navigation through and has nothing saved.
pub struct NoopEventBus;

impl NoopEventBus {
    /// The guard's answer for a navigation from `from` to `to`: always
    /// `Ok(true)`.
    pub fn allow_navigate(&self, from: &str, to: &str) -> (r: Result<bool, String>)
        ensures
            r == Ok::<bool, String>(true),
    {
        Ok(true)
    }

    /// The persisted path to restore at start-up: none.
    pub fn restore_pathname(&self) -> (r: Option<String>)
        ensures
            r is None,
    {
        None
    }
}

} // verus!
