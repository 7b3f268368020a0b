use mediatree::error::ErrorKind;
use mediatree::sandbox::{is_within, safe_path, PathProbe};

fn probe(canonical: Option<&str>, parent_canonical: Option<&str>) -> PathProbe {
    PathProbe {
        canonical: canonical.map(String::from),
        parent_canonical: parent_canonical.map(String::from),
        exists: canonical.is_some(),
        is_file: canonical.is_some(),
        parent_exists: parent_canonical.is_some(),
    }
}

#[test]
fn root_and_descendants_are_within() {
    assert!(is_within("/srv/media", "/srv/media"));
    assert!(is_within("/srv/media", "/srv/media/a"));
    assert!(is_within("/srv/media", "/srv/media/a/b.mp4"));
    assert!(is_within("/", "/anything/at/all"));
    assert!(is_within("/", "/"));
}

#[test]
fn siblings_and_ancestors_are_not_within() {
    assert!(!is_within("/srv/media", "/srv/media2"));
    assert!(!is_within("/srv/media", "/srv/mediafile.mp4"));
    assert!(!is_within("/srv/media", "/srv"));
    assert!(!is_within("/srv/media", "/"));
    assert!(!is_within("/srv/media", "/etc/passwd"));
}

#[test]
fn paths_that_are_not_canonical_are_never_within() {
    assert!(!is_within("/srv/media", "/srv/media/../media/a"));
    assert!(!is_within("/srv/media", "/srv/media/./a"));
    assert!(!is_within("/srv/media", "/srv/media//a"));
    assert!(!is_within("/srv/media", "/srv/media/a/"));
    assert!(!is_within("/srv/media", "/srv/media/.."));
    assert!(!is_within("/srv/media", "srv/media/a"));
    assert!(!is_within("/srv/media", ""));
    assert!(!is_within("/srv/media/", "/srv/media/a"));
    assert!(!is_within("srv/media", "srv/media/a"));
}

#[test]
fn names_that_only_start_with_dots_are_fine() {
    assert!(is_within("/srv/media", "/srv/media/.hidden"));
    assert!(is_within("/srv/media", "/srv/media/..."));
    assert!(is_within("/srv/media", "/srv/media/..a"));
    assert!(is_within("/srv/media", "/srv/media/a..b/c."));
}

#[test]
fn existing_target_inside_the_root_is_accepted() {
    let p = probe(Some("/srv/media/a/x.mp4"), Some("/srv/media/a"));
    let r = safe_path("/srv/media", "a/x.mp4", &p);
    assert_eq!(r.unwrap(), "/srv/media/a/x.mp4");
}

#[test]
fn the_root_itself_is_accepted() {
    let p = probe(Some("/srv/media"), Some("/srv"));
    assert_eq!(safe_path("/srv/media", "", &p).unwrap(), "/srv/media");
}

#[test]
fn traversal_that_resolves_outside_is_forbidden() {
    let p = probe(Some("/etc/passwd"), Some("/etc"));
    let e = safe_path("/srv/media", "../../etc/passwd", &p).unwrap_err();
    assert_eq!(e.kind(), ErrorKind::Forbidden);
    assert_eq!(e.status_code(), 403);
    assert_eq!(e.message(), "Path escape blocked");
}

#[test]
fn absolute_path_that_resolves_outside_is_forbidden() {
    let p = probe(Some("/etc/passwd"), Some("/etc"));
    let e = safe_path("/srv/media", "/etc/passwd", &p).unwrap_err();
    assert_eq!(e.kind(), ErrorKind::Forbidden);
}

#[test]
fn link_that_leads_outside_is_forbidden() {
    let p = probe(Some("/home/user/secret.mp4"), Some("/home/user"));
    let e = safe_path("/srv/media", "innocent.mp4", &p).unwrap_err();
    assert_eq!(e.kind(), ErrorKind::Forbidden);
}

#[test]
fn sibling_directory_with_the_same_prefix_is_forbidden() {
    let p = probe(Some("/srv/media2/x.mp4"), Some("/srv/media2"));
    let e = safe_path("/srv/media", "../media2/x.mp4", &p).unwrap_err();
    assert_eq!(e.kind(), ErrorKind::Forbidden);
}

#[test]
fn traversal_that_stays_inside_is_accepted() {
    let p = probe(Some("/srv/media/b.mp4"), Some("/srv/media"));
    assert_eq!(safe_path("/srv/media", "a/../b.mp4", &p).unwrap(), "/srv/media/b.mp4");
}

#[test]
fn new_file_below_an_existing_parent_is_accepted() {
    let p = probe(None, Some("/srv/media/a"));
    assert_eq!(safe_path("/srv/media", "a/new.mp4", &p).unwrap(), "/srv/media/a/new.mp4");
    let q = probe(None, Some("/srv/media"));
    assert_eq!(safe_path("/srv/media", "new.mp4", &q).unwrap(), "/srv/media/new.mp4");
}

#[test]
fn new_file_goes_below_the_resolved_parent() {
    // `link` is a link to the directory `a`
    let p = probe(None, Some("/srv/media/a"));
    assert_eq!(safe_path("/srv/media", "link/new.mp4", &p).unwrap(), "/srv/media/a/new.mp4");
}

#[test]
fn new_file_without_parent_is_a_bad_request() {
    let p = probe(None, None);
    let e = safe_path("/srv/media", "missing/new.mp4", &p).unwrap_err();
    assert_eq!(e.kind(), ErrorKind::BadRequest);
    assert_eq!(e.status_code(), 400);
    assert_eq!(e.message(), "Target folder doesn't exist");
}

#[test]
fn new_file_below_a_parent_outside_is_a_bad_request() {
    let p = probe(None, Some("/tmp"));
    let e = safe_path("/srv/media", "../../tmp/new.mp4", &p).unwrap_err();
    assert_eq!(e.kind(), ErrorKind::BadRequest);
    let q = probe(None, Some("/tmp"));
    let e = safe_path("/srv/media", "/tmp/new.mp4", &q).unwrap_err();
    assert_eq!(e.kind(), ErrorKind::BadRequest);
}

#[test]
fn new_entry_without_a_name_is_a_bad_request() {
    let p = probe(None, Some("/srv/media"));
    let e = safe_path("/srv/media", "a/..", &p).unwrap_err();
    assert_eq!(e.kind(), ErrorKind::BadRequest);
}

#[test]
fn root_that_is_not_canonical_accepts_nothing() {
    let p = probe(Some("/srv/media/a"), Some("/srv/media"));
    assert_eq!(safe_path("/srv/media/", "a", &p).unwrap_err().kind(), ErrorKind::Forbidden);
    assert_eq!(safe_path("media", "a", &p).unwrap_err().kind(), ErrorKind::Forbidden);
}
