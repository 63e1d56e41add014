use grow::listing::{build_listing, parent_of_link, EntryKind};
use grow::page::render_listing;

fn items(v: &[(&str, bool)]) -> Vec<(String, bool)> {
    v.iter().map(|(n, d)| (n.to_string(), *d)).collect()
}

#[test]
fn test_directory_listing() {
    let l = build_listing("", &items(&[("test.txt", false), ("test.md", false)]));
    assert!(l.parent.is_none());
    let names: Vec<&str> = l.entries.iter().map(|e| e.name.as_str()).collect();
    assert_eq!(names, vec!["test.md", "test.txt"]);
    assert_eq!(l.entries[0].kind, EntryKind::Markdown);
    assert_eq!(l.entries[1].kind, EntryKind::File);
}

#[test]
fn listing_order_is_by_name() {
    let l = build_listing("", &items(&[("b.txt", false), ("a.md", false), ("c", true)]));
    let names: Vec<&str> = l.entries.iter().map(|e| e.name.as_str()).collect();
    assert_eq!(names, vec!["a.md", "b.txt", "c"]);
    assert_eq!(l.entries[2].kind, EntryKind::Directory);
}

#[test]
fn listing_links_and_parent() {
    let l = build_listing("docs/guide", &items(&[("x.md", false)]));
    assert_eq!(l.parent.as_deref(), Some("docs"));
    assert_eq!(l.entries[0].link, "docs/guide/x.md");
    assert_eq!(parent_of_link("docs").as_deref(), Some(""));
    assert_eq!(parent_of_link(""), None);
}

#[test]
fn listing_skips_names_that_are_not_children() {
    let l = build_listing("", &items(&[("..", true), (".", true), ("a/b", false), ("", false), ("ok", false)]));
    let names: Vec<&str> = l.entries.iter().map(|e| e.name.as_str()).collect();
    assert_eq!(names, vec!["ok"]);
}

#[test]
fn listing_order_is_by_code_point() {
    let l = build_listing("", &items(&[("b", false), ("B", false), ("a", false), ("ab", false), ("é", false)]));
    let names: Vec<&str> = l.entries.iter().map(|e| e.name.as_str()).collect();
    assert_eq!(names, vec!["B", "a", "ab", "b", "é"]);
}

#[test]
fn listing_body_is_rendered_with_escaping() {
    let l = build_listing("d", &items(&[("<x>.md", false)]));
    let html = render_listing("d", &l);
    assert_eq!(
        html,
        "<h1><span class=\"path\">📁 /d</span></h1><ul>\
         <li><a href=\"/\" class=\"parent\"><span class=\"icon\">⬆️</span>Parent Directory</a></li>\
         <li><a href=\"/d/&lt;x&gt;.md\" class=\"markdown\"><span class=\"icon file\">📝</span>&lt;x&gt;.md</a></li></ul>"
    );
    let root = render_listing("", &build_listing("", &Vec::new()));
    assert_eq!(root, "<h1><span class=\"path\">📁 /Home</span></h1><ul></ul>");
}
