use grow::page::{generate_side_menu, outline_html, render_toc, MENU_HEAD, MENU_MID, MENU_TAIL, NO_OUTLINE_HTML};
use grow::text::{html_escape, percent_encode};
use grow::toc::{extract_toc, Toc};

#[test]
fn outline_keeps_levels_one_to_three() {
    let toc = extract_toc("# Title\n## Sub\n### Deep\n#### TooDeep\n##### Ignored\n");
    match toc {
        Toc::Outline(es) => {
            assert_eq!(es.len(), 3);
            let levels: Vec<usize> = es.iter().map(|e| e.level).collect();
            assert_eq!(levels, vec![1, 2, 3]);
            assert_eq!(es[0].text, "Title");
            assert_eq!(es[0].anchor, "1-Title");
            assert_eq!(es[2].anchor, "3-Deep");
        }
        Toc::NoOutline => panic!("expected an outline"),
    }
}

#[test]
fn no_headings_gives_no_outline() {
    assert!(matches!(extract_toc("plain text\nmore\n"), Toc::NoOutline));
    assert!(matches!(extract_toc(""), Toc::NoOutline));
    assert!(matches!(extract_toc("#   \n####\n"), Toc::NoOutline));
    assert_eq!(outline_html("no headings"), NO_OUTLINE_HTML);
}

#[test]
fn heading_text_is_trimmed_and_lines_may_end_in_cr() {
    match extract_toc("  ##   Hello World  \r\n#NoSpace") {
        Toc::Outline(es) => {
            assert_eq!(es.len(), 2);
            assert_eq!(es[0].level, 2);
            assert_eq!(es[0].text, "Hello World");
            assert_eq!(es[0].anchor, "2-Hello%20World");
            assert_eq!(es[1].text, "NoSpace");
        }
        Toc::NoOutline => panic!("expected an outline"),
    }
}

#[test]
fn anchor_encoding_matches_renderer() {
    assert_eq!(percent_encode("a-b_c"), "a-b_c");
    assert_eq!(percent_encode("a b"), "a%20b");
    assert_eq!(percent_encode("日本"), "%E6%97%A5%E6%9C%AC");
    assert_eq!(percent_encode("é"), "%C3%A9");
    assert_eq!(percent_encode("😀"), "%F0%9F%98%80");
    assert_eq!(percent_encode(""), "");
}

#[test]
fn html_escape_replaces_five_characters() {
    assert_eq!(html_escape("<a href=\"x\">Tom & Jerry's</a>"), "&lt;a href=&quot;x&quot;&gt;Tom &amp; Jerry&#39;s&lt;/a&gt;");
    assert_eq!(html_escape("plain"), "plain");
}

#[test]
fn outline_is_rendered() {
    let toc = extract_toc("# A & B\n");
    assert_eq!(render_toc(&toc), "<ul><li class=\"toc-h1\"><a href=\"#1-A%20%26%20B\">A &amp; B</a></li></ul>");
    assert_eq!(render_toc(&Toc::NoOutline), NO_OUTLINE_HTML);
}

#[test]
fn side_menu_wraps_both_panels() {
    let m = generate_side_menu("<ul>T</ul>", "<ul>F</ul>");
    assert_eq!(m, format!("{}<ul>T</ul>{}<ul>F</ul>{}", MENU_HEAD, MENU_MID, MENU_TAIL));
    assert!(m.contains("id=\"toc-panel\""));
}

#[test]
fn outline_levels_render_in_decimal() {
    let toc = Toc::Outline(vec![grow::toc::TocEntry { level: 12, text: "x".to_string(), anchor: "12-x".to_string() }]);
    assert_eq!(render_toc(&toc), "<ul><li class=\"toc-h12\"><a href=\"#12-x\">x</a></li></ul>");
}
