//! End-to-end scenarios of the router, driven the way its owner drives it:
//! ask the guard, let the router decide, announce what it did.

use routers::{NoopEventBus, Outlet, RestoreOutcome, Router};

/// An event bus for the scenarios: records announcements and guard calls,
/// refuses targets by prefix (with an error or silently), and may hold a
/// saved path.
struct RecBus {
    published: Vec<String>,
    persisted: Vec<String>,
    guard_calls: Vec<(String, String)>,
    blocked_err: Vec<&'static str>,
    blocked_silent: Vec<&'static str>,
    saved: Option<String>,
    noop: bool,
}

impl RecBus {
    fn new() -> Self {
        RecBus {
            published: Vec::new(),
            persisted: Vec::new(),
            guard_calls: Vec::new(),
            blocked_err: Vec::new(),
            blocked_silent: Vec::new(),
            saved: None,
            noop: false,
        }
    }

    /// The default bus of the library.
    fn noop() -> Self {
        let mut b = RecBus::new();
        b.noop = true;
        b
    }

    fn allow_navigate(&mut self, from: &str, to: &str) -> Result<bool, String> {
        if self.noop {
            return NoopEventBus.allow_navigate(from, to);
        }
        self.guard_calls.push((from.to_string(), to.to_string()));
        if self.blocked_err.iter().any(|p| to.starts_with(p)) {
            return Err(format!("refused: {to}"));
        }
        if self.blocked_silent.iter().any(|p| to.starts_with(p)) {
            return Ok(false);
        }
        Ok(true)
    }

    fn restore_pathname(&self) -> Option<String> {
        if self.noop {
            return NoopEventBus.restore_pathname();
        }
        self.saved.clone()
    }
}

/// A router with its bus, moved the way the application layer moves it.
struct Nav {
    router: Router,
    bus: RecBus,
}

impl Nav {
    fn new(bus: RecBus) -> Self {
        Nav { router: Router::new(), bus }
    }

    fn announce(&mut self, moved: bool) -> bool {
        if moved {
            let p = self.router.current();
            self.bus.published.push(p.clone());
            self.bus.persisted.push(p);
        }
        moved
    }

    fn navigate(&mut self, path: &str) -> bool {
        let from = self.router.current();
        let verdict = self.bus.allow_navigate(&from, path);
        let moved = self.router.navigate(path.to_string(), verdict);
        self.announce(moved)
    }

    fn navigate_force(&mut self, path: &str) -> bool {
        let moved = self.router.navigate_force(path.to_string());
        self.announce(moved)
    }

    fn back(&mut self) -> bool {
        match self.router.back_target() {
            None => false,
            Some(to) => {
                let from = self.router.current();
                let verdict = self.bus.allow_navigate(&from, &to);
                let moved = self.router.back(verdict);
                self.announce(moved)
            }
        }
    }

    fn forward(&mut self) -> bool {
        match self.router.forward_target() {
            None => false,
            Some(to) => {
                let from = self.router.current();
                let verdict = self.bus.allow_navigate(&from, &to);
                let moved = self.router.forward(verdict);
                self.announce(moved)
            }
        }
    }

    fn back_force(&mut self) -> bool {
        let moved = self.router.back_force();
        self.announce(moved)
    }

    fn forward_force(&mut self) -> bool {
        let moved = self.router.forward_force();
        self.announce(moved)
    }

    fn restore(&mut self) -> RestoreOutcome {
        let saved = self.bus.restore_pathname();
        self.router.restore(saved)
    }

    fn param(&self, key: &str) -> Option<String> {
        self.router.params().into_iter().find(|(k, _)| k == key).map(|(_, v)| v)
    }

    fn current(&self) -> String {
        self.router.current()
    }
}

/// Content factories of the scenarios: the name each slot renders as.
struct Factories {
    elements: Vec<&'static str>,
    layouts: Vec<&'static str>,
}

impl Factories {
    fn new() -> Self {
        Factories { elements: Vec::new(), layouts: Vec::new() }
    }

    fn element(&mut self, router: &mut Router, path: &str, name: &'static str) {
        let slot = router.register_element(path.to_string());
        if slot < self.elements.len() {
            self.elements[slot] = name;
        } else {
            self.elements.push(name);
        }
    }

    fn layout(&mut self, router: &mut Router, path: &str, name: &'static str) {
        let slot = router.register_layout(path.to_string());
        if slot < self.layouts.len() {
            self.layouts[slot] = name;
        } else {
            self.layouts.push(name);
        }
    }

    /// The factories an outlet calls, in call order: the element, then the
    /// layouts from the innermost out.
    fn render(&self, router: &mut Router) -> Vec<&'static str> {
        let plan = Outlet::new().render(router);
        let mut calls = Vec::new();
        if let Some(i) = plan.leaf {
            calls.push(self.elements[i]);
        }
        for i in plan.layouts {
            calls.push(self.layouts[i]);
        }
        calls
    }
}

// 1. Start and navigate

#[test]
fn test_init_default_state() {
    let nav = Nav::new(RecBus::noop());
    assert_eq!(nav.current(), "/");
    assert_eq!(nav.router.history_len(), 1);
    assert_eq!(nav.router.cursor(), 0);
    assert!(!nav.router.can_go_back());
    assert!(!nav.router.can_go_forward());
}

#[test]
fn test_navigate_updates_current_history_and_fires_hooks() {
    let mut nav = Nav::new(RecBus::new());
    assert!(nav.navigate("/files"));
    assert!(nav.navigate("/search"));
    assert_eq!(nav.current(), "/search");
    assert_eq!(nav.router.history_len(), 3);
    assert_eq!(nav.router.cursor(), 2);
    assert!(nav.router.can_go_back());
    assert!(!nav.router.can_go_forward());
    assert_eq!(nav.bus.published, vec!["/files", "/search"]);
    assert_eq!(nav.bus.persisted, vec!["/files", "/search"]);
}

#[test]
fn test_navigate_same_path_no_duplicate_push() {
    let mut nav = Nav::new(RecBus::noop());
    assert!(nav.navigate("/files"));
    assert!(nav.navigate("/files"));
    assert_eq!(nav.current(), "/files");
    assert_eq!(nav.router.history_len(), 2);
    assert_eq!(nav.router.cursor(), 1);
}

// 2. Back and forward

#[test]
fn test_back_forward_semantics() {
    let mut nav = Nav::new(RecBus::new());
    nav.navigate("/a");
    nav.navigate("/b");
    nav.navigate("/c");
    assert_eq!(nav.current(), "/c");
    assert!(nav.back());
    assert_eq!(nav.current(), "/b");
    assert!(nav.back());
    assert_eq!(nav.current(), "/a");
    assert!(nav.router.can_go_forward());
    assert!(nav.forward());
    assert_eq!(nav.current(), "/b");
    assert_eq!(nav.bus.published, vec!["/a", "/b", "/c", "/b", "/a", "/b"]);
    assert_eq!(nav.bus.persisted, nav.bus.published);
    assert_eq!(nav.router.history_len(), 4);
    assert_eq!(nav.router.cursor(), 2);
}

#[test]
fn test_back_forward_boundaries() {
    let mut nav = Nav::new(RecBus::noop());
    assert!(!nav.back());
    assert!(!nav.forward());
    nav.navigate("/a");
    assert!(!nav.forward());
    assert!(nav.back());
    assert!(!nav.back());
    assert_eq!(nav.current(), "/");
    assert_eq!(nav.router.cursor(), 0);
}

#[test]
fn test_navigate_after_back_truncates_forward_history() {
    let mut nav = Nav::new(RecBus::noop());
    nav.navigate("/a");
    nav.navigate("/b");
    nav.back();
    nav.navigate("/c");
    assert_eq!(nav.current(), "/c");
    assert_eq!(nav.router.history_len(), 3);
    assert_eq!(nav.router.cursor(), 2);
    assert!(!nav.router.can_go_forward());
}

// 3. The guard

#[test]
fn test_guard_rejects_with_err() {
    let mut bus = RecBus::new();
    bus.blocked_err = vec!["/admin"];
    let mut nav = Nav::new(bus);
    assert!(!nav.navigate("/admin/panel"));
    assert_eq!(nav.current(), "/");
    assert_eq!(nav.router.history_len(), 1);
    assert!(nav.bus.published.is_empty());
    assert!(nav.bus.persisted.is_empty());
    assert!(nav.navigate("/files"));
    assert_eq!(nav.current(), "/files");
}

#[test]
fn test_guard_ok_false_silent_reject() {
    let mut bus = RecBus::new();
    bus.blocked_silent = vec!["/dirty"];
    let mut nav = Nav::new(bus);
    assert!(!nav.navigate("/dirty-page"));
    assert_eq!(nav.current(), "/");
    assert!(nav.bus.published.is_empty());
}

#[test]
fn test_navigate_force_bypasses_guard() {
    let mut bus = RecBus::new();
    bus.blocked_err = vec!["/admin"];
    let mut nav = Nav::new(bus);
    assert!(nav.navigate_force("/admin/panel"));
    assert_eq!(nav.current(), "/admin/panel");
    assert_eq!(nav.bus.published, vec!["/admin/panel"]);
}

#[test]
fn test_back_forward_guard_and_force_variants() {
    let mut bus = RecBus::new();
    bus.blocked_err = vec!["/a"];
    let mut nav = Nav::new(bus);
    nav.navigate_force("/a");
    nav.navigate("/b");
    assert!(!nav.back());
    assert_eq!(nav.current(), "/b");
    assert!(nav.back_force());
    assert_eq!(nav.current(), "/a");
    assert!(nav.forward());
    assert_eq!(nav.current(), "/b");
    assert!(nav.back_force());
    assert!(nav.forward_force());
    assert_eq!(nav.current(), "/b");
    assert_eq!(nav.bus.published, vec!["/a", "/b", "/a", "/b", "/a", "/b"]);
}

#[test]
fn test_guard_receives_correct_from_and_to() {
    let mut nav = Nav::new(RecBus::new());
    nav.navigate("/one");
    nav.navigate("/two");
    nav.back();
    assert_eq!(
        nav.bus.guard_calls,
        vec![
            ("/".to_string(), "/one".to_string()),
            ("/one".to_string(), "/two".to_string()),
            ("/two".to_string(), "/one".to_string()),
        ]
    );
}

// 4. Route parameters

#[test]
fn test_dynamic_params_extraction() {
    let mut nav = Nav::new(RecBus::noop());
    nav.router.register("/user/{id}".to_string());
    nav.navigate("/user/123");
    assert_eq!(nav.param("id").as_deref(), Some("123"));
    nav.navigate("/user/abc");
    assert_eq!(nav.param("id").as_deref(), Some("abc"));
}

#[test]
fn test_wildcard_params_extraction() {
    let mut nav = Nav::new(RecBus::noop());
    nav.router.register("/files/{*path}".to_string());
    nav.navigate("/files/docs/rs/main.rs");
    assert_eq!(nav.param("path").as_deref(), Some("docs/rs/main.rs"));
}

#[test]
fn test_params_cleared_when_path_not_matched() {
    let mut nav = Nav::new(RecBus::noop());
    nav.router.register("/user/{id}".to_string());
    nav.navigate("/user/123");
    assert!(!nav.router.params().is_empty());
    nav.navigate("/elsewhere");
    assert!(nav.router.params().is_empty());
}

#[test]
fn test_params_follow_back_forward() {
    let mut nav = Nav::new(RecBus::noop());
    nav.router.register("/user/{id}".to_string());
    nav.navigate("/user/1");
    nav.navigate("/user/2");
    nav.back();
    assert_eq!(nav.param("id").as_deref(), Some("1"));
    nav.forward();
    assert_eq!(nav.param("id").as_deref(), Some("2"));
}

// 5. Active links

#[test]
fn test_is_active_with_registered_patterns() {
    let mut nav = Nav::new(RecBus::noop());
    nav.router.register("/files".to_string());
    nav.router.register("/user/{id}".to_string());
    nav.navigate("/user/123");
    assert!(nav.router.is_active("/user/{id}"));
    assert!(!nav.router.is_active("/files"));
    nav.navigate("/files");
    assert!(nav.router.is_active("/files"));
    assert!(!nav.router.is_active("/user/{id}"));
}

#[test]
fn test_is_active_unregistered_falls_back_to_prefix() {
    let mut nav = Nav::new(RecBus::noop());
    nav.navigate("/docs/guide/intro");
    assert!(nav.router.is_active("/docs"));
    assert!(!nav.router.is_active("/docs-account"));
}

#[test]
fn test_register_dedup_then_navigate_works() {
    let mut nav = Nav::new(RecBus::noop());
    nav.router.register("/files".to_string());
    nav.router.register("/files".to_string());
    assert!(nav.navigate("/files"));
    assert!(nav.router.is_active("/files"));
}

// 6. Restore

#[test]
fn test_restore_from_persisted_path() {
    let mut bus = RecBus::new();
    bus.saved = Some("/user/42".to_string());
    let mut nav = Nav::new(bus);
    nav.router.register("/user/{id}".to_string());
    assert_eq!(nav.restore(), RestoreOutcome::Restored);
    assert_eq!(nav.current(), "/user/42");
    assert_eq!(nav.param("id").as_deref(), Some("42"));
    assert_eq!(nav.router.history_len(), 1);
    assert!(!nav.router.can_go_back());
    assert!(!nav.router.can_go_forward());
    assert!(nav.bus.published.is_empty());
}

#[test]
fn test_restore_invalid_path_falls_back_to_root() {
    let mut bus = RecBus::new();
    bus.saved = Some("/deleted-page".to_string());
    let mut nav = Nav::new(bus);
    nav.router.register("/files".to_string());
    assert_eq!(nav.restore(), RestoreOutcome::Unmatched);
    assert_eq!(nav.current(), "/");
    assert_eq!(nav.router.history_len(), 1);
}

#[test]
fn test_restore_without_patterns_skips_validation() {
    let mut bus = RecBus::new();
    bus.saved = Some("/anything".to_string());
    let mut nav = Nav::new(bus);
    nav.restore();
    assert_eq!(nav.current(), "/anything");
}

#[test]
fn test_restore_none_or_root_keeps_default() {
    let mut nav = Nav::new(RecBus::new());
    nav.restore();
    assert_eq!(nav.current(), "/");
}

// 7. Outlet

#[test]
fn test_outlet_renders_registered_element() {
    let mut nav = Nav::new(RecBus::noop());
    let mut f = Factories::new();
    f.element(&mut nav.router, "/files", "files_element");
    nav.navigate("/files");
    assert_eq!(f.render(&mut nav.router), vec!["files_element"]);
}

#[test]
fn test_outlet_layout_wrapping_order_longest_first() {
    let mut nav = Nav::new(RecBus::noop());
    let mut f = Factories::new();
    f.element(&mut nav.router, "/settings/profile", "element");
    f.layout(&mut nav.router, "/", "layout_root");
    f.layout(&mut nav.router, "/settings", "layout_settings");
    f.layout(&mut nav.router, "/unrelated", "layout_unrelated");
    nav.navigate("/settings/profile");
    assert_eq!(
        f.render(&mut nav.router),
        vec!["element", "layout_settings", "layout_root"]
    );
}

#[test]
fn test_outlet_no_match_renders_empty_gracefully() {
    let mut nav = Nav::new(RecBus::noop());
    nav.navigate("/nothing-registered");
    let plan = Outlet::new().render(&mut nav.router);
    assert!(plan.leaf.is_none());
    assert!(plan.layouts.is_empty());
}

#[test]
fn test_register_same_path_overrides_factory() {
    let mut nav = Nav::new(RecBus::noop());
    let mut f = Factories::new();
    f.element(&mut nav.router, "/files", "old");
    f.element(&mut nav.router, "/files", "new");
    nav.navigate("/files");
    assert_eq!(f.render(&mut nav.router), vec!["new"]);
}

#[test]
fn test_outlet_dynamic_element_pattern() {
    let mut nav = Nav::new(RecBus::noop());
    let mut f = Factories::new();
    f.element(&mut nav.router, "/user/{id}", "user_panel");
    nav.navigate("/user/42");
    assert_eq!(nav.param("id").as_deref(), Some("42"));
    assert!(nav.router.is_active("/user/{id}"));
    assert_eq!(f.render(&mut nav.router), vec!["user_panel"]);
}

#[test]
fn test_outlet_static_beats_dynamic() {
    let mut nav = Nav::new(RecBus::noop());
    let mut f = Factories::new();
    f.element(&mut nav.router, "/user/{id}", "dynamic");
    f.element(&mut nav.router, "/user/new", "static");
    nav.navigate("/user/new");
    let mut calls = f.render(&mut nav.router);
    assert_eq!(calls, vec!["static"]);
    nav.navigate("/user/42");
    calls.extend(f.render(&mut nav.router));
    assert_eq!(calls, vec!["static", "dynamic"]);
}

#[test]
fn test_outlet_wildcard_element_pattern() {
    let mut nav = Nav::new(RecBus::noop());
    let mut f = Factories::new();
    f.element(&mut nav.router, "/docs/{*path}", "docs_panel");
    nav.navigate("/docs/guide/intro");
    assert_eq!(nav.param("path").as_deref(), Some("guide/intro"));
    assert_eq!(f.render(&mut nav.router), vec!["docs_panel"]);
}

// Further scenarios

#[test]
fn back_then_forward_returns_to_the_same_place() {
    let mut nav = Nav::new(RecBus::noop());
    nav.router.register("/user/{id}".to_string());
    nav.navigate("/user/1");
    nav.navigate("/user/2");
    let (len, cur) = (nav.router.history_len(), nav.router.cursor());
    assert!(nav.back());
    assert!(nav.forward());
    assert_eq!((nav.router.history_len(), nav.router.cursor()), (len, cur));
    assert_eq!(nav.current(), "/user/2");
    assert_eq!(nav.param("id").as_deref(), Some("2"));
}

#[test]
fn navigate_to_current_after_back_drops_forward_history() {
    let mut nav = Nav::new(RecBus::noop());
    nav.navigate("/a");
    nav.navigate("/b");
    nav.back();
    assert!(nav.navigate("/a"));
    assert_eq!(nav.router.history_len(), 2);
    assert_eq!(nav.router.cursor(), 1);
    assert!(!nav.router.can_go_forward());
}

#[test]
fn guard_refusal_leaves_params_and_history() {
    let mut bus = RecBus::new();
    bus.blocked_silent = vec!["/user/9"];
    let mut nav = Nav::new(bus);
    nav.router.register("/user/{id}".to_string());
    nav.navigate("/user/1");
    assert!(!nav.navigate("/user/9"));
    assert_eq!(nav.current(), "/user/1");
    assert_eq!(nav.param("id").as_deref(), Some("1"));
    assert_eq!(nav.router.history_len(), 2);
}

#[test]
fn restore_outcomes() {
    let mut r = Router::new();
    assert_eq!(r.restore(None), RestoreOutcome::Nothing);
    assert_eq!(r.restore(Some(String::new())), RestoreOutcome::Nothing);
    assert_eq!(r.restore(Some("/".to_string())), RestoreOutcome::Nothing);
    assert_eq!(r.current(), "/");
    r.register("/a".to_string());
    assert_eq!(r.restore(Some("/b".to_string())), RestoreOutcome::Unmatched);
    assert_eq!(r.restore(Some("/a".to_string())), RestoreOutcome::Restored);
    assert_eq!(r.current(), "/a");
    assert_eq!(r.history_len(), 1);
}

#[test]
fn register_returns_stable_slots() {
    let mut r = Router::new();
    assert_eq!(r.register_element("/a".to_string()), 0);
    assert_eq!(r.register_element("/b".to_string()), 1);
    assert_eq!(r.register_element("/a".to_string()), 0);
    assert_eq!(r.register_layout("/".to_string()), 0);
    assert_eq!(r.register_layout("/x".to_string()), 1);
    assert_eq!(r.register_layout("/".to_string()), 0);
}

#[test]
fn layouts_of_equal_length_wrap_in_registration_order() {
    let mut nav = Nav::new(RecBus::noop());
    let mut f = Factories::new();
    f.layout(&mut nav.router, "/a/b", "a_b");
    f.layout(&mut nav.router, "//", "slashes");
    f.layout(&mut nav.router, "/", "root");
    f.layout(&mut nav.router, "/a", "a");
    nav.navigate("/a/b/c");
    // "//" and "/a" are both two bytes long: registration order decides.
    assert_eq!(f.render(&mut nav.router), vec!["a_b", "slashes", "a", "root"]);
}

#[test]
fn outlet_without_elements_or_with_unmatched_path() {
    let mut nav = Nav::new(RecBus::noop());
    let mut f = Factories::new();
    f.layout(&mut nav.router, "/", "root");
    assert_eq!(f.render(&mut nav.router), vec!["root"]);
    f.element(&mut nav.router, "/files", "files");
    nav.navigate("/other");
    assert_eq!(f.render(&mut nav.router), vec!["root"]);
}

#[test]
fn noop_bus_allows_all_and_restores_nothing() {
    assert_eq!(NoopEventBus.allow_navigate("/", "/x"), Ok(true));
    assert_eq!(NoopEventBus.restore_pathname(), None);
}

#[test]
fn params_without_patterns_are_empty() {
    let mut r = Router::new();
    assert!(r.navigate("/user/1".to_string(), Ok(true)));
    assert!(r.params().is_empty());
    assert!(!r.navigate("/x".to_string(), Err("no".to_string())));
    assert!(!r.navigate("/x".to_string(), Ok(false)));
    assert_eq!(r.current(), "/user/1");
}

#[test]
fn registered_pattern_needs_the_same_segment_count() {
    let mut nav = Nav::new(RecBus::noop());
    nav.router.register("/user".to_string());
    nav.router.register("/user/{id}".to_string());
    nav.navigate("/user/123");
    assert!(!nav.router.is_active("/user"));
    assert!(nav.router.is_active("/user/{id}"));
    // an unregistered target goes by the prefix rule, where "/" is exact
    assert!(!nav.router.is_active("/"));
    nav.navigate("/");
    assert!(nav.router.is_active("/"));
}
