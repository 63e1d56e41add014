//! HTML fragments: the outline, the side menu, file-tree levels and the
//! body of a directory listing.
use vstd::prelude::*;
use vstd::string::*;

use crate::listing::{Entry, EntryKind, Listing};
use crate::text::{decimal_chars, escaped, html_escape, push_decimal};
use crate::toc::{extract_toc, outline, Toc, TocEntry};
use crate::tree::TreeItem;

verus! {

pub const NO_OUTLINE_HTML: &'static str = "<p>目次がありません</p>";

pub const MENU_HEAD: &'static str = "\n<button id=\"menu-toggle\" aria-label=\"Toggle menu\">☰</button>\n<div id=\"side-menu\">\n    <div class=\"menu-tabs\">\n        <button class=\"menu-tab active\" data-tab=\"toc\">📑 目次</button>\n        <button class=\"menu-tab\" data-tab=\"files\">📁 ファイル</button>\n    </div>\n    <div class=\"menu-content\">\n        <div id=\"toc-panel\" class=\"menu-panel active\">\n            ";

pub const MENU_MID: &'static str = "\n        </div>\n        <div id=\"file-tree\" class=\"menu-panel\">\n            ";

pub const MENU_TAIL: &'static str = "\n        </div>\n    </div>\n</div>\n<script>\n(function() {\n    const menuToggle = document.getElementById('menu-toggle');\n    const sideMenu = document.getElementById('side-menu');\n    const menuTabs = document.querySelectorAll('.menu-tab');\n    const menuPanels = document.querySelectorAll('.menu-panel');\n\n    menuToggle.addEventListener('click', function() {\n        sideMenu.classList.toggle('open');\n        document.body.classList.toggle('menu-open');\n    });\n\n    menuTabs.forEach(tab => {\n        tab.addEventListener('click', function() {\n            const tabName = this.getAttribute('data-tab');\n\n            menuTabs.forEach(t => t.classList.remove('active'));\n            this.classList.add('active');\n\n            menuPanels.forEach(panel => {\n                panel.classList.remove('active');\n            });\n\n            if (tabName === 'toc') {\n                document.getElementById('toc-panel').classList.add('active');\n            } else if (tabName === 'files') {\n                document.getElementById('file-tree').classList.add('active');\n            }\n        });\n    });\n\n    // TOC links smooth scroll\n    document.querySelectorAll('#toc-panel a').forEach(link => {\n        link.addEventListener('click', function(e) {\n            e.preventDefault();\n            const targetId = this.getAttribute('href').substring(1);\n            const targetElement = document.getElementById(targetId);\n            if (targetElement) {\n                targetElement.scrollIntoView({ behavior: 'smooth', block: 'start' });\n            }\n        });\n    });\n\n    // Close menu when clicking outside\n    document.addEventListener('click', function(e) {\n        const isMenuOpen = sideMenu.classList.contains('open');\n        const clickedInsideMenu = sideMenu.contains(e.target);\n        const clickedMenuToggle = menuToggle.contains(e.target);\n\n        if (isMenuOpen && !clickedInsideMenu && !clickedMenuToggle) {\n            sideMenu.classList.remove('open');\n            document.body.classList.remove('menu-open');\n        }\n    });\n})();\n</script>\n";

pub const CURRENT_STYLE: &'static str = " style=\"background: #667eea; color: white;\"";

pub open spec fn toc_item_html(e: TocEntry) -> Seq<char> {
    "<li class=\"toc-h"@ + decimal_chars(e.level as nat) + "\"><a href=\"#"@ + e.anchor@ + "\">"@
        + escaped(e.text@) + "</a></li>"@
}

pub open spec fn toc_items_html(es: Seq<TocEntry>) -> Seq<char>
    decreases es.len(),
{
    if es.len() == 0 {
        Seq::empty()
    } else {
        toc_items_html(es.drop_last()) + toc_item_html(es.last())
    }
}

/// The outline as an HTML list, or the "no outline" placeholder.
pub open spec fn toc_html(toc: Toc) -> Seq<char> {
    match toc {
        Toc::NoOutline => NO_OUTLINE_HTML@,
        Toc::Outline(es) => "<ul>"@ + toc_items_html(es@) + "</ul>"@,
    }
}

/// Renders an outline for the side menu.
pub fn render_toc(toc: &Toc) -> (r: String)
    ensures
        r@ == toc_html(*toc),
{
    match toc {
        Toc::NoOutline => String::from_str(NO_OUTLINE_HTML),
        Toc::Outline(es) => {
            let mut out = String::from_str("<ul>");
            let mut i: usize = 0;
            while i < es.len()
                invariant
                    i <= es@.len(),
                    out@ == "<ul>"@ + toc_items_html(es@.take(i as int)),
                decreases es@.len() - i,
            {
                let e = &es[i];
                out.append("<li class=\"toc-h");
                push_decimal(&mut out, e.level);
                out.append("\"><a href=\"#");
                out.append(e.anchor.as_str());
                out.append("\">");
                let t = html_escape(e.text.as_str());
                out.append(t.as_str());
                out.append("</a></li>");
                assert(es@.take(i + 1).drop_last() =~= es@.take(i as int));
                i = i + 1;
                assert(out@ =~= "<ul>"@ + toc_items_html(es@.take(i as int)));
            }
            assert(es@.take(i as int) =~= es@);
            out.append("</ul>");
            out
        },
    }
}

/// The side menu: the outline panel and the file-tree panel, with the
/// script that switches between them.
pub open spec fn side_menu_html(toc_html: Seq<char>, tree_html: Seq<char>) -> Seq<char> {
    MENU_HEAD@ + toc_html + MENU_MID@ + tree_html + MENU_TAIL@
}

/// Assembles the side menu from the rendered outline and file tree.
pub fn generate_side_menu(toc_html: &str, tree_html: &str) -> (r: String)
    ensures
        r@ == side_menu_html(toc_html@, tree_html@),
{
    let mut out = String::from_str(MENU_HEAD);
    out.append(toc_html);
    out.append(MENU_MID);
    out.append(tree_html);
    out.append(MENU_TAIL);
    out
}

pub open spec fn style_of(current: bool) -> Seq<char> {
    if current { CURRENT_STYLE@ } else { Seq::empty() }
}

pub open spec fn tree_item_html(e: TreeItem, sub: Seq<char>) -> Seq<char> {
    if e.is_dir {
        "<li><a href=\"/"@ + escaped(e.link@) + "\" class=\"dir\""@ + style_of(e.is_current) + ">"@
            + escaped(e.name@) + "</a>"@ + sub + "</li>"@
    } else {
        "<li><a href=\"/"@ + escaped(e.link@) + "\" class=\""@
            + (if e.is_markdown { "markdown"@ } else { "file"@ }) + "\""@ + style_of(e.is_current) + ">"@
            + escaped(e.name@) + "</a></li>"@
    }
}

pub open spec fn tree_items_html(es: Seq<TreeItem>, subs: Seq<Seq<char>>) -> Seq<char>
    decreases es.len(),
{
    if es.len() == 0 || subs.len() == 0 {
        Seq::empty()
    } else {
        tree_items_html(es.drop_last(), subs.drop_last()) + tree_item_html(es.last(), subs.last())
    }
}

/// One level of the file tree; `subtrees[i]` is the rendered level below
/// item `i` (empty where it does not open).
pub open spec fn tree_level_html(es: Seq<TreeItem>, subs: Seq<Seq<char>>) -> Seq<char> {
    "<ul class=\"nested\">"@ + tree_items_html(es, subs) + "</ul>"@
}

pub open spec fn string_views(v: Seq<String>) -> Seq<Seq<char>> {
    v.map_values(|s: String| s@)
}

fn push_tree_item(out: &mut String, e: &TreeItem, sub: &String)
    ensures
    final(out)@ == old(out)@ + tree_item_html(*e, sub@),
{
    let ghost start = out@;
    out.append("<li><a href=\"/");
    let l = html_escape(e.link.as_str());
    out.append(l.as_str());
    if e.is_dir {
        out.append("\" class=\"dir\"");
    } else {
        out.append("\" class=\"");
        if e.is_markdown {
            out.append("markdown");
        } else {
            out.append("file");
        }
        out.append("\"");
    }
    if e.is_current {
        out.append(CURRENT_STYLE);
    }
    out.append(">");
    let n = html_escape(e.name.as_str());
    out.append(n.as_str());
    if e.is_dir {
        out.append("</a>");
        out.append(sub.as_str());
        out.append("</li>");
    } else {
        out.append("</a></li>");
    }
    assert(out@ =~= start + tree_item_html(*e, sub@));
}

/// Renders one level of the file tree around the already rendered levels
/// below its directories.
pub fn render_tree_level(items: &Vec<TreeItem>, subtrees: &Vec<String>) -> (r: String)
    requires
        items@.len() == subtrees@.len(),
    ensures
        r@ == tree_level_html(items@, string_views(subtrees@)),
{
    let mut out = String::from_str("<ul class=\"nested\">");
    let mut i: usize = 0;
    while i < items.len()
        invariant
            i <= items@.len(),
            items@.len() == subtrees@.len(),
            out@ == "<ul class=\"nested\">"@ + tree_items_html(items@.take(i as int), string_views(subtrees@).take(i as int)),
        decreases items@.len() - i,
    {
        push_tree_item(&mut out, &items[i], &subtrees[i]);
        assert(items@.take(i + 1).drop_last() =~= items@.take(i as int));
        assert(string_views(subtrees@).take(i + 1).drop_last() =~= string_views(subtrees@).take(i as int));
        assert(string_views(subtrees@).take(i + 1).last() == subtrees@[i as int]@);
        i = i + 1;
        assert(out@ =~= "<ul class=\"nested\">"@ + tree_items_html(items@.take(i as int), string_views(subtrees@).take(i as int)));
    }
    assert(items@.take(i as int) =~= items@);
    assert(string_views(subtrees@).take(i as int) =~= string_views(subtrees@));
    out.append("</ul>");
    out
}

pub open spec fn entry_html(e: Entry) -> Seq<char> {
    "<li><a href=\"/"@ + escaped(e.link@) + "\" class=\""@
        + (if e.kind == EntryKind::Markdown { "markdown"@ } else { Seq::empty() })
        + "\"><span class=\"icon "@
        + (if e.kind == EntryKind::Directory { "dir\">📁"@ } else if e.kind == EntryKind::Markdown {
            "file\">📝"@
        } else {
            "file\">📄"@
        }) + "</span>"@ + escaped(e.name@) + "</a></li>"@
}

pub open spec fn entries_html(es: Seq<Entry>) -> Seq<char>
    decreases es.len(),
{
    if es.len() == 0 {
        Seq::empty()
    } else {
        entries_html(es.drop_last()) + entry_html(es.last())
    }
}

/// The heading, the parent link and the entries of a directory listing.
pub open spec fn listing_body_html(rel: Seq<char>, l: Listing) -> Seq<char> {
    "<h1><span class=\"path\">📁 /"@ + (if rel.len() == 0 { "Home"@ } else { escaped(rel) }) + "</span></h1><ul>"@
        + (match l.parent {
        Some(p) => "<li><a href=\"/"@ + escaped(p@)
            + "\" class=\"parent\"><span class=\"icon\">⬆️</span>Parent Directory</a></li>"@,
        None => Seq::empty(),
    }) + entries_html(l.entries@) + "</ul>"@
}

fn push_entry(out: &mut String, e: &Entry)
    ensures
        final(out)@ == old(out)@ + entry_html(*e),
{
    let ghost start = out@;
    out.append("<li><a href=\"/");
    let l = html_escape(e.link.as_str());
    out.append(l.as_str());
    out.append("\" class=\"");
    if e.kind == EntryKind::Markdown {
        out.append("markdown");
    }
    out.append("\"><span class=\"icon ");
    if e.kind == EntryKind::Directory {
        out.append("dir\">📁");
    } else if e.kind == EntryKind::Markdown {
        out.append("file\">📝");
    } else {
        out.append("file\">📄");
    }
    out.append("</span>");
    let n = html_escape(e.name.as_str());
    out.append(n.as_str());
    out.append("</a></li>");
    assert(out@ =~= start + entry_html(*e));
}

/// Renders the body of the listing of the directory at request path `rel`.
pub fn render_listing(rel: &str, listing: &Listing) -> (r: String)
    ensures
        r@ == listing_body_html(rel@, *listing),
{
    let mut out = String::from_str("<h1><span class=\"path\">📁 /");
    if rel.unicode_len() == 0 {
        out.append("Home");
    } else {
        let t = html_escape(rel);
        out.append(t.as_str());
    }
    out.append("</span></h1><ul>");
    match &listing.parent {
        Some(p) => {
            out.append("<li><a href=\"/");
            let t = html_escape(p.as_str());
            out.append(t.as_str());
            out.append("\" class=\"parent\"><span class=\"icon\">⬆️</span>Parent Directory</a></li>");
        },
        None => {},
    }
    let ghost head = out@;
    let es = &listing.entries;
    let mut i: usize = 0;
    while i < es.len()
        invariant
            i <= es@.len(),
            out@ == head + entries_html(es@.take(i as int)),
        decreases es@.len() - i,
    {
        push_entry(&mut out, &es[i]);
        assert(es@.take(i + 1).drop_last() =~= es@.take(i as int));
        i = i + 1;
        assert(out@ =~= head + entries_html(es@.take(i as int)));
    }
    assert(es@.take(i as int) =~= es@);
    out.append("</ul>");
    out
}

/// The outline of a Markdown document, rendered for the side menu.
pub fn outline_html(content: &str) -> (r: String)
    ensures
        exists|t: Toc| t.is_outline_of(content@) && r@ == toc_html(t),
        outline(content@).len() == 0 ==> r@ == NO_OUTLINE_HTML@,
{
    let toc = extract_toc(content);
    let r = render_toc(&toc);
    assert(toc.is_outline_of(content@) && r@ == toc_html(toc));
    r
}

} // verus!
