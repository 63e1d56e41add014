use grow::error::ServeError;
use grow::listing::is_markdown;
use grow::paths::{is_within, join_segments, lookup_of_probes, probe_paths, request_segments, resolve, Lookup};

fn found(path: &str, is_dir: bool) -> Lookup {
    Lookup::Found { canonical: path.to_string(), is_dir }
}

fn missing(ancestor: Option<&str>) -> Lookup {
    Lookup::Missing { ancestor: ancestor.map(|a| a.to_string()) }
}

#[test]
fn test_path_traversal_protection() {
    // "../secret.txt" climbs out of the root before any lookup.
    let r = request_segments("../secret.txt");
    assert!(matches!(r, Err(ServeError::AccessDenied)));
    assert_eq!(ServeError::AccessDenied.status_code(), 403);
}

#[test]
fn test_nonexistent_path() {
    let segs = request_segments("nonexistent.txt").unwrap();
    assert_eq!(segs, vec!["nonexistent.txt".to_string()]);
    assert_eq!(join_segments("/tmp/grow_test_nonexist", &segs, 1), "/tmp/grow_test_nonexist/nonexistent.txt");
    let r = resolve("/tmp/grow_test_nonexist", missing(Some("/tmp/grow_test_nonexist")));
    assert!(matches!(r, Err(ServeError::NotFound)));
    assert_eq!(ServeError::NotFound.status_code(), 404);
}

#[test]
fn test_markdown_file_detection() {
    assert!(is_markdown("test.md"));
    assert!(is_markdown("test.mkd"));
    assert!(!is_markdown("test.MD"));
    assert!(!is_markdown("test.txt"));
    assert!(!is_markdown("md"));
}

#[test]
fn scenario_escape_through_dot_dot_is_denied() {
    assert!(matches!(request_segments("a/../../etc/passwd"), Err(ServeError::AccessDenied)));
}

#[test]
fn scenario_markdown_inside_root_resolves() {
    let segs = request_segments("docs/readme.md").unwrap();
    let joined = join_segments("/srv", &segs, segs.len());
    assert_eq!(joined, "/srv/docs/readme.md");
    let r = resolve("/srv", found("/srv/docs/readme.md", false)).unwrap();
    assert_eq!(r.path, "/srv/docs/readme.md");
    assert!(!r.is_dir);
    assert!(is_markdown(&r.path));
}

#[test]
fn scenario_missing_parent_is_not_found() {
    let segs = request_segments("missing/file.txt").unwrap();
    assert_eq!(join_segments("/srv", &segs, 1), "/srv/missing");
    assert_eq!(join_segments("/srv", &segs, 0), "/srv");
    let r = resolve("/srv", missing(Some("/srv")));
    assert!(matches!(r, Err(ServeError::NotFound)));
}

#[test]
fn found_outside_root_is_denied() {
    assert!(matches!(resolve("/srv", found("/etc/passwd", false)), Err(ServeError::AccessDenied)));
    assert!(matches!(resolve("/srv", found("/srv2/x", false)), Err(ServeError::AccessDenied)));
    assert!(matches!(resolve("/srv", missing(Some("/etc"))), Err(ServeError::AccessDenied)));
    assert!(matches!(resolve("/srv", missing(None)), Err(ServeError::NotFound)));
}

#[test]
fn containment_is_by_segment() {
    assert!(is_within("/base", "/base"));
    assert!(is_within("/base", "/base/a"));
    assert!(!is_within("/base", "/base2"));
    assert!(!is_within("/base", "/bas"));
    assert!(is_within("/", "/etc"));
}

#[test]
fn dot_segments_are_resolved_lexically() {
    let segs = request_segments("./a//b/../c/").unwrap();
    assert_eq!(segs, vec!["a".to_string(), "c".to_string()]);
    assert!(request_segments("").unwrap().is_empty());
    assert!(matches!(request_segments(".."), Err(ServeError::AccessDenied)));
}

#[test]
fn root_itself_resolves_as_directory() {
    let r = resolve("/srv", found("/srv", true)).unwrap();
    assert!(r.is_dir);
    assert_eq!(ServeError::IoFailure.status_code(), 500);
    assert_eq!(ServeError::RenderFailure("x".to_string()).status_code(), 500);
}

#[test]
fn probes_run_from_location_up_to_root() {
    let segs = request_segments("a/b").unwrap();
    assert_eq!(probe_paths("/srv", &segs), vec!["/srv/a/b".to_string(), "/srv/a".to_string(), "/srv".to_string()]);
}

#[test]
fn first_successful_probe_decides() {
    let l = lookup_of_probes(&vec![Some(("/srv/a/b".to_string(), true)), None, Some(("/srv".to_string(), true))]);
    assert!(matches!(l, Lookup::Found { ref canonical, is_dir: true } if canonical == "/srv/a/b"));
    let l = lookup_of_probes(&vec![None, Some(("/etc".to_string(), true)), Some(("/srv".to_string(), true))]);
    assert!(matches!(l, Lookup::Missing { ancestor: Some(ref a) } if a == "/etc"));
    assert!(matches!(resolve("/srv", l), Err(ServeError::AccessDenied)));
    let l = lookup_of_probes(&vec![None, None]);
    assert!(matches!(l, Lookup::Missing { ancestor: None }));
}
