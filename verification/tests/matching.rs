use routers::{build_matchit, fits_route_table, is_active_simple, is_prefix_of};

fn param<'a>(params: &'a [(String, String)], key: &str) -> Option<&'a str> {
    params.iter().find(|(k, _)| k == key).map(|(_, v)| v.as_str())
}

// is_active_simple: prefix semantics of navigation links

#[test]
fn test_root_only_active_on_exact_root() {
    assert!(is_active_simple("/", "/", false));
    assert!(!is_active_simple("/files", "/", false));
}

#[test]
fn test_prefix_match_includes_descendants() {
    assert!(is_active_simple("/files/sub", "/files", false));
    assert!(is_active_simple("/files/", "/files", false));
    assert!(is_active_simple("/files", "/files", false));
}

#[test]
fn test_exact_match_strict() {
    assert!(is_active_simple("/files", "/files", true));
    assert!(!is_active_simple("/files/sub", "/files", true));
}

#[test]
fn test_segment_boundary_not_false_positive() {
    assert!(!is_active_simple("/files-and-more", "/files", false));
    assert!(!is_active_simple("/files2", "/files", false));
}

// build_matchit: the route table

#[test]
fn test_matchit_dynamic_segment_match() {
    let trie = build_matchit(&[
        "/home".to_string(),
        "/user/{id}".to_string(),
        "/files/{*path}".to_string(),
    ]);
    assert!(trie.find("/home").is_some());
    let matched = trie.find("/user/123").unwrap();
    assert_eq!(param(&matched.params, "id"), Some("123"));
    let matched = trie.find("/files/a/b/c").unwrap();
    assert_eq!(param(&matched.params, "path"), Some("a/b/c"));
}

#[test]
fn test_matchit_value_stores_pattern_string() {
    let trie = build_matchit(&["/user/{id}".to_string()]);
    let matched = trie.find("/user/123").unwrap();
    assert_eq!(matched.pattern.as_str(), "/user/{id}");
}

#[test]
fn test_matchit_no_match_returns_err() {
    let trie = build_matchit(&["/home".to_string()]);
    assert!(trie.find("/nonexistent").is_none());
}

#[test]
fn test_matchit_segment_count_must_match() {
    let trie = build_matchit(&["/user/{id}".to_string()]);
    assert!(trie.find("/user/123").is_some());
    assert!(trie.find("/user/123/456").is_none());
}

#[test]
fn test_build_matchit_skips_invalid_pattern() {
    let trie = build_matchit(&["/valid".to_string(), "{invalid".to_string()]);
    assert!(trie.find("/valid").is_some());
}

// is_prefix_of: layout prefixes

#[test]
fn test_is_prefix_of_root_matches_all() {
    assert!(is_prefix_of("/", "/"));
    assert!(is_prefix_of("/", "/files"));
    assert!(is_prefix_of("/", "/settings/profile"));
}

#[test]
fn test_is_prefix_of_concrete_prefix() {
    assert!(is_prefix_of("/settings", "/settings"));
    assert!(is_prefix_of("/settings", "/settings/profile"));
    assert!(is_prefix_of("/settings", "/settings/"));
}

#[test]
fn test_is_prefix_of_segment_boundary() {
    assert!(!is_prefix_of("/settings", "/settings-account"));
    assert!(!is_prefix_of("/settings", "/settings2"));
    assert!(!is_prefix_of("/user", "/users"));
}

// Further cases

#[test]
fn layout_trailing_slash_behaves_like_bare_prefix() {
    assert!(is_prefix_of("/settings/", "/settings/profile"));
    assert!(is_prefix_of("/settings/", "/settings"));
    assert!(!is_prefix_of("/settings/", "/settings-account"));
}

#[test]
fn layout_prefix_longer_than_path_does_not_cover() {
    assert!(!is_prefix_of("/settings/profile", "/settings"));
    assert!(!is_prefix_of("/a", ""));
}

#[test]
fn root_link_exact_and_descendant_links() {
    assert!(!is_active_simple("/files", "/", true));
    assert!(is_active_simple("/a/b/c", "/a", false));
    assert!(!is_active_simple("/a", "/a/b", false));
    assert!(is_active_simple("/files/ünï", "/files", false));
    assert!(!is_active_simple("/filesü", "/files", false));
}

#[test]
fn route_table_params_and_static_priority() {
    let trie = build_matchit(&[
        "/user/{id}".to_string(),
        "/user/new".to_string(),
        "/docs/{*path}".to_string(),
    ]);
    let m = trie.find("/user/new").unwrap();
    assert_eq!(m.pattern, "/user/new");
    assert!(m.params.is_empty());
    let m = trie.find("/user/42").unwrap();
    assert_eq!(m.pattern, "/user/{id}");
    assert_eq!(m.params, vec![("id".to_string(), "42".to_string())]);
    let m = trie.find("/docs/guide/intro").unwrap();
    assert_eq!(m.pattern, "/docs/{*path}");
    assert_eq!(param(&m.params, "path"), Some("guide/intro"));
}

#[test]
fn route_table_conflicting_pattern_is_skipped() {
    // the second catch-all conflicts with the first and is left out
    let trie = build_matchit(&["/a/{*x}".to_string(), "/a/{*y}".to_string()]);
    let m = trie.find("/a/b").unwrap();
    assert_eq!(m.pattern, "/a/{*x}");
    assert_eq!(param(&m.params, "x"), Some("b"));
    let empty = build_matchit(&[]);
    assert!(empty.find("/").is_none());
}

#[test]
fn route_table_fit_counts_braces() {
    let letters: Vec<char> = ('a'..='z').collect();
    let route = |n: usize| -> String { letters[..n].iter().map(|c| format!("/{{{c}}}")).collect() };
    assert!(fits_route_table("/home"));
    assert!(fits_route_table(&route(25)));
    assert!(!fits_route_table(&route(26)));
    // every '{' counts, escaped or opening a catch-all
    let escaped: String = (0..13).map(|_| "/{{x}}").collect();
    assert!(!fits_route_table(&escaped));
    assert!(fits_route_table(&format!("{}/{{*rest}}", route(24))));
    assert!(!fits_route_table(&format!("{}/{{*rest}}", route(25))));
    // after a long parameter name matchit reads "{{x}" as a second parameter:
    // thirteen copies would make 26 parameters, and the route is refused
    let tricky: String = (0..13).map(|_| "/{ab}{{x}").collect();
    assert!(!fits_route_table(&tricky));
    assert!(fits_route_table("/{ab}{{x}"));
    // a table takes 25 named parameters
    let trie = build_matchit(&[route(25)]);
    let path: String = (0..25).map(|i| format!("/{i}")).collect();
    let m = trie.find(&path).unwrap();
    assert_eq!(param(&m.params, "y"), Some("24"));
}
