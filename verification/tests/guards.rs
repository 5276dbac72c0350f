use mystquarto_core::fs::path_guard::{guard_target, PathGuardError};
use mystquarto_core::reader::fence::is_colon_close;

#[test]
fn an_absolute_target_is_refused_before_resolution_is_looked_at() {
    let r = guard_target("/proj", "/etc/passwd", "/proj/etc/passwd");
    assert!(matches!(r, Err(PathGuardError::AbsoluteTarget { ref path }) if path == "/etc/passwd"));
}

#[test]
fn a_target_resolving_outside_the_root_is_refused() {
    let r = guard_target("/proj", "../secret.md", "/secret.md");
    assert!(matches!(r, Err(PathGuardError::EscapesRoot { ref path, ref root }) if path == "/secret.md" && root == "/proj"));
}

#[test]
fn a_target_inside_the_root_resolves_to_its_canonical_path() {
    assert_eq!(guard_target("/proj", "sub/a.md", "/proj/sub/a.md").ok(), Some("/proj/sub/a.md".to_string()));
}

#[test]
fn a_sibling_directory_sharing_the_root_prefix_is_outside_it() {
    assert!(guard_target("/proj", "../proj2/a.md", "/proj2/a.md").is_err());
}

#[test]
fn colon_fences_close_with_three_or_more_colons() {
    assert!(is_colon_close(":::", 0));
    assert!(is_colon_close("::::", 0));
    assert!(!is_colon_close("::", 0));
    assert!(!is_colon_close("::: note", 0));
}
