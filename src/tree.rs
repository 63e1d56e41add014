//! One level of the navigation file tree: visible children, directories
//! first, and which of them open onto the page being viewed.
use vstd::prelude::*;
use vstd::string::*;

use crate::listing::{is_markdown, is_markdown_name, is_plain_name, link_of};
use crate::order::{entry_views, sort_entries, sorted_by};
use crate::paths::is_plain_segment;
use crate::text::chars_of;

verus! {

/// The deepest level that the tree shows; the root's children are level 0.
pub const MAX_TREE_DEPTH: usize = 3;

/// Names that the tree hides: those starting with `.`.
pub open spec fn is_hidden(name: Seq<char>) -> bool {
    name.len() > 0 && name[0] == '.'
}

pub open spec fn shown(name: Seq<char>) -> bool {
    is_plain_segment(name) && !is_hidden(name)
}

/// The entries that the tree shows, in order.
pub open spec fn shown_only(s: Seq<(Seq<char>, bool)>) -> Seq<(Seq<char>, bool)>
    decreases s.len(),
{
    if s.len() == 0 {
        s
    } else if shown(s.last().0) {
        shown_only(s.drop_last()).push(s.last())
    } else {
        shown_only(s.drop_last())
    }
}

pub open spec fn seq_starts_with(s: Seq<char>, p: Seq<char>) -> bool {
    s.len() >= p.len() && s.take(p.len() as int) == p
}

/// A directory at `depth` opens when the viewed path starts with its link
/// and its children are within the depth bound.
pub open spec fn opens(link: Seq<char>, current: Seq<char>, depth: nat) -> bool {
    depth < MAX_TREE_DEPTH && seq_starts_with(current, link)
}

/// One entry of a tree level.
#[derive(Debug)]
pub struct TreeItem {
    pub name: String,
    pub link: String,
    pub is_dir: bool,
    pub is_markdown: bool,
    /// The entry is the page being viewed.
    pub is_current: bool,
    /// The entry is a directory whose children are shown below it.
    pub expand: bool,
}

pub open spec fn item_pairs(es: Seq<TreeItem>) -> Seq<(Seq<char>, bool)> {
    es.map_values(|e: TreeItem| (e.name@, e.is_dir))
}

pub open spec fn level_of(r: Seq<TreeItem>, prefix: Seq<char>, items: Seq<(Seq<char>, bool)>, current: Seq<char>, depth: nat) -> bool {
    &&& sorted_by(item_pairs(r), true)
    &&& item_pairs(r).to_multiset() == shown_only(items).to_multiset()
    &&& forall|i: int| 0 <= i < r.len() ==> {
        let e = #[trigger] r[i];
        &&& e.link@ == link_of(prefix, e.name@)
        &&& e.is_markdown == is_markdown_name(e.name@)
        &&& e.is_current == (e.link@ == current)
        &&& e.expand == (e.is_dir && opens(e.link@, current, depth))
    }
}

fn chars_eq(a: &Vec<char>, b: &Vec<char>) -> (r: bool)
    ensures
        r == (a@ == b@),
{
    if a.len() != b.len() {
        return false;
    }
    let mut i: usize = 0;
    while i < a.len()
        invariant
            a@.len() == b@.len(),
            i <= a@.len(),
            a@.take(i as int) == b@.take(i as int),
        decreases a@.len() - i,
    {
        if a[i] != b[i] {
            assert(a@.take(i + 1)[i as int] != b@.take(i + 1)[i as int]);
            return false;
        }
        i = i + 1;
        assert(a@.take(i as int) =~= b@.take(i as int));
    }
    assert(a@ =~= a@.take(i as int));
    assert(b@ =~= b@.take(i as int));
    true
}

/// Whether `s` starts with `p`.
pub fn starts_with_str(s: &str, p: &str) -> (r: bool)
    ensures
        r == seq_starts_with(s@, p@),
{
    let a = chars_of(s);
    let b = chars_of(p);
    if a.len() < b.len() {
        return false;
    }
    let mut i: usize = 0;
    while i < b.len()
        invariant
            a@.len() >= b@.len(),
            i <= b@.len(),
            a@ == s@,
            b@ == p@,
            a@.take(i as int) == b@.take(i as int),
        decreases b@.len() - i,
    {
        if a[i] != b[i] {
            assert(a@.take(b@.len() as int)[i as int] != b@[i as int]);
            return false;
        }
        i = i + 1;
        assert(a@.take(i as int) =~= b@.take(i as int));
    }
    assert(b@ =~= b@.take(i as int));
    true
}

fn is_shown(name: &str) -> (r: bool)
    ensures
        r == shown(name@),
{
    if !is_plain_name(name) {
        return false;
    }
    let cs = chars_of(name);
    !(cs.len() > 0 && cs[0] == '.')
}

/// Whether a directory at `depth` whose link is `link` opens onto `current`.
pub fn opens_onto(link: &str, current: &str, depth: usize) -> (r: bool)
    ensures
        r == opens(link@, current@, depth as nat),
{
    depth < MAX_TREE_DEPTH && starts_with_str(current, link)
}

/// The entries that one level of the tree shows for the directory at
/// `prefix`, `depth` levels below the root, while `current` is viewed.
pub fn tree_level(prefix: &str, items: &Vec<(String, bool)>, current: &str, depth: usize) -> (r: Vec<TreeItem>)
    ensures
        level_of(r@, prefix@, entry_views(items@), current@, depth as nat),
{
    let mut kept: Vec<(String, bool)> = Vec::new();
    let mut i: usize = 0;
    while i < items.len()
        invariant
            i <= items@.len(),
            entry_views(kept@) == shown_only(entry_views(items@).take(i as int)),
        decreases items@.len() - i,
    {
        let ghost prev = entry_views(items@).take(i as int);
        assert(entry_views(items@).take(i + 1).drop_last() =~= prev);
        assert(entry_views(items@).take(i + 1).last() == (items@[i as int].0@, items@[i as int].1));
        if is_shown(items[i].0.as_str()) {
            let name = items[i].0.clone();
            kept.push((name, items[i].1));
            assert(entry_views(kept@) =~= shown_only(prev).push((items@[i as int].0@, items@[i as int].1)));
        }
        i = i + 1;
    }
    assert(entry_views(items@).take(items@.len() as int) =~= entry_views(items@));
    let sorted = sort_entries(kept, true);
    let cur = chars_of(current);
    let mut out: Vec<TreeItem> = Vec::new();
    let mut j: usize = 0;
    while j < sorted.len()
        invariant
            j <= sorted@.len(),
            cur@ == current@,
            item_pairs(out@) == entry_views(sorted@).take(j as int),
            forall|k: int| 0 <= k < out@.len() ==> {
                let e = #[trigger] out@[k];
                &&& e.link@ == link_of(prefix@, e.name@)
                &&& e.is_markdown == is_markdown_name(e.name@)
                &&& e.is_current == (e.link@ == current@)
                &&& e.expand == (e.is_dir && opens(e.link@, current@, depth as nat))
            },
        decreases sorted@.len() - j,
    {
        let name = sorted[j].0.clone();
        let is_dir = sorted[j].1;
        let link = if prefix.unicode_len() == 0 {
            String::from_str(name.as_str())
        } else {
            let mut l = String::from_str(prefix);
            l.push('/');
            l.append(name.as_str());
            l
        };
        let lc = chars_of(link.as_str());
        let is_current = chars_eq(&lc, &cur);
        let expand = is_dir && opens_onto(link.as_str(), current, depth);
        let md = is_markdown(name.as_str());
        let ghost before = out@;
        let e = TreeItem { name, link, is_dir, is_markdown: md, is_current, expand };
        let ghost ev = (e.name@, e.is_dir);
        out.push(e);
        assert(item_pairs(out@) =~= item_pairs(before).push(ev));
        assert(entry_views(sorted@).take(j + 1) =~= entry_views(sorted@).take(j as int).push(ev));
        j = j + 1;
    }
    assert(entry_views(sorted@).take(sorted@.len() as int) =~= entry_views(sorted@));
    out
}

} // verus!
