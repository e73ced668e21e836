use huskarl_route_guard::subtree_patterns;

#[test]
fn no_trailing_slash_expands_to_three() {
    assert_eq!(
        subtree_patterns("/blah"),
        vec!["/blah", "/blah/", "/blah/{*rest}"]
    );
}

#[test]
fn trailing_slash_omits_bare_path() {
    assert_eq!(subtree_patterns("/blah/"), vec!["/blah/", "/blah/{*rest}"]);
}

#[test]
fn root_covers_whole_tree() {
    assert_eq!(subtree_patterns("/"), vec!["/", "/{*rest}"]);
}

#[test]
fn nested_path() {
    assert_eq!(
        subtree_patterns("/a/b"),
        vec!["/a/b", "/a/b/", "/a/b/{*rest}"]
    );
}
