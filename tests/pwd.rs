use yash_syntax::pwd::has_dot_or_dot_dot;

#[test]
fn has_dot_or_dot_dot_cases() {
    assert!(!has_dot_or_dot_dot(""));
    assert!(!has_dot_or_dot_dot("foo"));
    assert!(!has_dot_or_dot_dot(".foo"));
    assert!(!has_dot_or_dot_dot("foo.bar"));
    assert!(!has_dot_or_dot_dot("..."));
    assert!(!has_dot_or_dot_dot("/"));
    assert!(!has_dot_or_dot_dot("/bar"));
    assert!(!has_dot_or_dot_dot("/bar/baz"));

    assert!(has_dot_or_dot_dot("."));
    assert!(has_dot_or_dot_dot("/."));
    assert!(has_dot_or_dot_dot("./"));
    assert!(has_dot_or_dot_dot("/./"));
    assert!(has_dot_or_dot_dot("foo/.//bar"));

    assert!(has_dot_or_dot_dot(".."));
    assert!(has_dot_or_dot_dot("/.."));
    assert!(has_dot_or_dot_dot("../"));
    assert!(has_dot_or_dot_dot("/../"));
    assert!(has_dot_or_dot_dot("/foo//../bar"));
}
