use patchlib::safe::is_safe_path;

#[test]
fn test_safe_path() {
    assert!(is_safe_path("foo/bar"));
    assert!(!is_safe_path("/etc/passwd"));
    assert!(!is_safe_path("../etc/passwd"));
}

#[test]
fn test_safe_path_dotdot_inside() {
    assert!(!is_safe_path("foo/../bar"));
    assert!(!is_safe_path("foo/.."));
    assert!(!is_safe_path(".."));
}

#[test]
fn test_safe_path_dots_that_are_not_parent() {
    assert!(is_safe_path("foo/..bar"));
    assert!(is_safe_path("foo/bar.."));
    assert!(is_safe_path("..."));
    assert!(is_safe_path("foo/.hidden"));
    assert!(is_safe_path(""));
}
