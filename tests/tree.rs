use grow::page::render_tree_level;
use grow::tree::{opens_onto, tree_level};

fn items(v: &[(&str, bool)]) -> Vec<(String, bool)> {
    v.iter().map(|(n, d)| (n.to_string(), *d)).collect()
}

#[test]
fn tree_level_puts_directories_first_and_hides_dot_names() {
    let level = tree_level("", &items(&[("b.md", false), (".git", true), ("z", true), ("a.txt", false), ("docs", true)]), "docs/x.md", 0);
    let names: Vec<&str> = level.iter().map(|e| e.name.as_str()).collect();
    assert_eq!(names, vec!["docs", "z", "a.txt", "b.md"]);
    assert!(level[0].expand);
    assert!(!level[1].expand);
    assert!(level[3].is_markdown);
}

#[test]
fn tree_level_marks_current_and_links() {
    let level = tree_level("docs", &items(&[("x.md", false)]), "docs/x.md", 1);
    assert_eq!(level[0].link, "docs/x.md");
    assert!(level[0].is_current);
    let html = render_tree_level(&level, &vec![String::new()]);
    assert_eq!(
        html,
        "<ul class=\"nested\"><li><a href=\"/docs/x.md\" class=\"markdown\" style=\"background: #667eea; color: white;\">x.md</a></li></ul>"
    );
}

#[test]
fn tree_depth_is_bounded() {
    assert!(opens_onto("a", "a/b", 2));
    assert!(!opens_onto("a", "a/b", 3));
    assert!(!opens_onto("b", "a/b", 0));
}

#[test]
fn tree_level_nests_subtrees() {
    let level = tree_level("", &items(&[("d", true)]), "d", 0);
    let html = render_tree_level(&level, &vec!["<ul class=\"nested\"></ul>".to_string()]);
    assert_eq!(
        html,
        "<ul class=\"nested\"><li><a href=\"/d\" class=\"dir\" style=\"background: #667eea; color: white;\">d</a><ul class=\"nested\"></ul></li></ul>"
    );
}
