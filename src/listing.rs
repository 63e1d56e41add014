//! The navigational model of one directory: its entries in order and the
//! link to its parent.
use vstd::prelude::*;
use vstd::string::*;

use crate::order::{entry_views, sort_entries, sorted_by};
use crate::paths::{is_plain_segment, normalized, request_segments_spec, segments_of, lemma_segments_nonempty};
use crate::text::chars_of;

verus! {

/// How a consumer presents an entry.
#[derive(PartialEq, Eq, Structural, Clone, Copy, Debug)]
pub enum EntryKind {
    Directory,
    Markdown,
    File,
}

pub open spec fn ends_with(s: Seq<char>, suffix: Seq<char>) -> bool {
    s.len() >= suffix.len() && s.skip(s.len() - suffix.len()) == suffix
}

/// A Markdown file name ends in `.md` or `.mkd` (case-sensitive).
pub open spec fn is_markdown_name(name: Seq<char>) -> bool {
    ends_with(name, seq!['.', 'm', 'd']) || ends_with(name, seq!['.', 'm', 'k', 'd'])
}

pub open spec fn kind_of(name: Seq<char>, is_dir: bool) -> EntryKind {
    if is_dir {
        EntryKind::Directory
    } else if is_markdown_name(name) {
        EntryKind::Markdown
    } else {
        EntryKind::File
    }
}

/// The request path of a child: `name` below the listing's relative path.
pub open spec fn link_of(rel: Seq<char>, name: Seq<char>) -> Seq<char> {
    if rel.len() == 0 {
        name
    } else {
        rel + seq!['/'] + name
    }
}

/// `rel` up to its last `/`, or empty where it has none.
pub open spec fn before_last_slash(rel: Seq<char>) -> Seq<char>
    decreases rel.len(),
{
    if rel.len() == 0 {
        rel
    } else if rel.last() == '/' {
        rel.drop_last()
    } else {
        before_last_slash(rel.drop_last())
    }
}

/// The parent's link: none at the root, else `rel` without its last segment.
pub open spec fn parent_link(rel: Seq<char>) -> Option<Seq<char>> {
    if rel.len() == 0 {
        None
    } else {
        Some(before_last_slash(rel))
    }
}

/// The entries whose names are plain segments, in order.
pub open spec fn plain_only(s: Seq<(Seq<char>, bool)>) -> Seq<(Seq<char>, bool)>
    decreases s.len(),
{
    if s.len() == 0 {
        s
    } else if is_plain_segment(s.last().0) {
        plain_only(s.drop_last()).push(s.last())
    } else {
        plain_only(s.drop_last())
    }
}

/// One child of a listed directory.
#[derive(Debug)]
pub struct Entry {
    pub name: String,
    pub is_dir: bool,
    pub kind: EntryKind,
    pub link: String,
}

/// The model of a directory listing.
#[derive(Debug)]
pub struct Listing {
    pub parent: Option<String>,
    pub entries: Vec<Entry>,
}

pub open spec fn listing_pairs(es: Seq<Entry>) -> Seq<(Seq<char>, bool)> {
    es.map_values(|e: Entry| (e.name@, e.is_dir))
}

impl Listing {
    /// This listing presents the directory at `rel` with children `items`.
    pub open spec fn presents(&self, rel: Seq<char>, items: Seq<(Seq<char>, bool)>) -> bool {
        &&& match parent_link(rel) {
            None => self.parent is None,
            Some(p) => self.parent matches Some(q) && q@ == p,
        }
        &&& sorted_by(listing_pairs(self.entries@), false)
        &&& listing_pairs(self.entries@).to_multiset() == plain_only(items).to_multiset()
        &&& forall|i: int| 0 <= i < self.entries@.len() ==> {
            let e = #[trigger] self.entries@[i];
            &&& is_plain_segment(e.name@)
            &&& e.kind == kind_of(e.name@, e.is_dir)
            &&& e.link@ == link_of(rel, e.name@)
        }
    }
}

fn ends_with_chars(cs: &Vec<char>, suffix: &Vec<char>) -> (r: bool)
    ensures
        r == ends_with(cs@, suffix@),
{
    if cs.len() < suffix.len() {
        return false;
    }
    let off = cs.len() - suffix.len();
    let mut j: usize = off;
    while j < cs.len()
        invariant
            off + suffix@.len() == cs@.len(),
            off <= j <= cs@.len(),
            cs@.skip(off as int).take(j - off) == suffix@.take(j - off),
        decreases cs@.len() - j,
    {
        if cs[j] != suffix[j - off] {
            assert(cs@.skip(off as int)[j - off] != suffix@[j - off]);
            return false;
        }
        j = j + 1;
        assert(cs@.skip(off as int).take(j - off) =~= suffix@.take(j - off));
    }
    assert(cs@.skip(off as int).take(suffix@.len() as int) =~= cs@.skip(off as int));
    assert(suffix@.take(suffix@.len() as int) =~= suffix@);
    true
}

/// Whether `name` ends in `.md` or `.mkd`.
pub fn is_markdown(name: &str) -> (r: bool)
    ensures
        r == is_markdown_name(name@),
{
    let cs = chars_of(name);
    let md = vec!['.', 'm', 'd'];
    let mkd = vec!['.', 'm', 'k', 'd'];
    assert(md@ =~= seq!['.', 'm', 'd']);
    assert(mkd@ =~= seq!['.', 'm', 'k', 'd']);
    ends_with_chars(&cs, &md) || ends_with_chars(&cs, &mkd)
}

/// Whether `name` names a child: not empty, `.` or `..`, and free of `/`.
pub fn is_plain_name(name: &str) -> (r: bool)
    ensures
        r == is_plain_segment(name@),
{
    let cs = chars_of(name);
    if cs.len() == 0 {
        return false;
    }
    if cs.len() == 1 && cs[0] == '.' {
        assert(name@ =~= seq!['.']);
        return false;
    }
    if cs.len() == 2 && cs[0] == '.' && cs[1] == '.' {
        assert(name@ =~= seq!['.', '.']);
        return false;
    }
    let mut i: usize = 0;
    while i < cs.len()
        invariant
            cs@ == name@,
            i <= cs@.len(),
            forall|j: int| 0 <= j < i ==> cs@[j] != '/',
        decreases cs@.len() - i,
    {
        if cs[i] == '/' {
            return false;
        }
        i = i + 1;
    }
    proof {
        if name@ == seq!['.'] {
            assert(cs@[0] == '.');
        }
        if name@ == seq!['.', '.'] {
            assert(cs@[0] == '.' && cs@[1] == '.');
        }
    }
    true
}

/// The link to the parent of the directory at `rel`.
pub fn parent_of_link(rel: &str) -> (r: Option<String>)
    ensures
        match parent_link(rel@) {
            None => r is None,
            Some(p) => r matches Some(q) && q@ == p,
        },
{
    let cs = chars_of(rel);
    if cs.len() == 0 {
        return None;
    }
    let mut k: usize = cs.len();
    assert(cs@.take(k as int) =~= cs@);
    while k > 0 && cs[k - 1] != '/'
        invariant
            cs@ == rel@,
            k <= cs@.len(),
            before_last_slash(rel@) == before_last_slash(cs@.take(k as int)),
        decreases k,
    {
        assert(cs@.take(k as int).drop_last() =~= cs@.take(k - 1));
        k = k - 1;
    }
    if k == 0 {
        Some(String::new())
    } else {
        assert(cs@.take(k as int).drop_last() =~= cs@.take(k - 1));
        Some(crate::text::string_of_range(&cs, 0, k - 1))
    }
}

fn link_for(rel: &str, name: &String) -> (r: String)
    ensures
        r@ == link_of(rel@, name@),
{
    let cs = chars_of(rel);
    if cs.len() == 0 {
        String::from_str(name.as_str())
    } else {
        let mut out = String::from_str(rel);
        out.push('/');
        out.append(name.as_str());
        out
    }
}

fn kind_for(name: &String, is_dir: bool) -> (r: EntryKind)
    ensures
        r == kind_of(name@, is_dir),
{
    if is_dir {
        EntryKind::Directory
    } else if is_markdown(name.as_str()) {
        EntryKind::Markdown
    } else {
        EntryKind::File
    }
}

/// Builds the listing of the directory at request path `rel` from its
/// children (name, is-directory): entries whose names are not plain
/// segments are skipped, the rest are ordered by name.
pub fn build_listing(rel: &str, items: &Vec<(String, bool)>) -> (r: Listing)
    ensures
        r.presents(rel@, entry_views(items@)),
{
    let mut kept: Vec<(String, bool)> = Vec::new();
    let mut i: usize = 0;
    while i < items.len()
        invariant
            i <= items@.len(),
            entry_views(kept@) == plain_only(entry_views(items@).take(i as int)),
        decreases items@.len() - i,
    {
        let ghost prev = entry_views(items@).take(i as int);
        assert(entry_views(items@).take(i + 1).drop_last() =~= prev);
        assert(entry_views(items@).take(i + 1).last() == (items@[i as int].0@, items@[i as int].1));
        if is_plain_name(items[i].0.as_str()) {
            let name = items[i].0.clone();
            kept.push((name, items[i].1));
            assert(entry_views(kept@) =~= plain_only(prev).push((items@[i as int].0@, items@[i as int].1)));
        }
        i = i + 1;
    }
    assert(entry_views(items@).take(items@.len() as int) =~= entry_views(items@));
    let sorted = sort_entries(kept, false);
    let mut entries: Vec<Entry> = Vec::new();
    let mut j: usize = 0;
    while j < sorted.len()
        invariant
            j <= sorted@.len(),
            listing_pairs(entries@) == entry_views(sorted@).take(j as int),
            forall|k: int| 0 <= k < entries@.len() ==> {
                let e = #[trigger] entries@[k];
                &&& e.kind == kind_of(e.name@, e.is_dir)
                &&& e.link@ == link_of(rel@, e.name@)
            },
        decreases sorted@.len() - j,
    {
        let name = sorted[j].0.clone();
        let is_dir = sorted[j].1;
        let kind = kind_for(&name, is_dir);
        let link = link_for(rel, &name);
        let ghost before = entries@;
        let e = Entry { name, is_dir, kind, link };
        let ghost ev = (e.name@, e.is_dir);
        entries.push(e);
        assert(listing_pairs(entries@) =~= listing_pairs(before).push(ev));
        assert(entry_views(sorted@).take(j + 1) =~= entry_views(sorted@).take(j as int).push(ev));
        j = j + 1;
        assert(listing_pairs(entries@) =~= entry_views(sorted@).take(j as int));
    }
    assert(entry_views(sorted@).take(sorted@.len() as int) =~= entry_views(sorted@));
    proof {
        broadcast use vstd::seq_lib::group_to_multiset_ensures;
        lemma_plain_only_plain(entry_views(items@));
        let lp = listing_pairs(entries@);
        let po = plain_only(entry_views(items@));
        assert(lp == entry_views(sorted@));
        assert(lp.to_multiset() == po.to_multiset());
        assert forall|k: int| 0 <= k < entries@.len() implies is_plain_segment(#[trigger] entries@[k].name@) by {
            assert(lp[k] == (entries@[k].name@, entries@[k].is_dir));
            assert(lp.contains(lp[k]));
            assert(po.to_multiset().count(lp[k]) > 0);
            lemma_count_member(po, lp[k]);
            let w = choose|i: int| 0 <= i < po.len() && po[i] == lp[k];
            assert(is_plain_segment(po[w].0));
        }
    }
    Listing { parent: parent_of_link(rel), entries }
}

proof fn lemma_plain_only_plain(s: Seq<(Seq<char>, bool)>)
    ensures
        forall|i: int| 0 <= i < plain_only(s).len() ==> is_plain_segment(#[trigger] plain_only(s)[i].0),
    decreases s.len(),
{
    if s.len() > 0 {
        lemma_plain_only_plain(s.drop_last());
        let p = plain_only(s.drop_last());
        assert forall|i: int| 0 <= i < plain_only(s).len() implies is_plain_segment(#[trigger] plain_only(s)[i].0) by {
            if i < p.len() {
                assert(plain_only(s)[i] == p[i]);
            }
        }
    }
}

proof fn lemma_count_member(s: Seq<(Seq<char>, bool)>, x: (Seq<char>, bool))
    requires
        s.to_multiset().count(x) > 0,
    ensures
        exists|i: int| 0 <= i < s.len() && s[i] == x,
{
    broadcast use vstd::seq_lib::group_to_multiset_ensures;
    assert(s.to_multiset().contains(x));
    assert(s.contains(x));
}

proof fn lemma_segments_append(a: Seq<char>, b: Seq<char>)
    requires
        !b.contains('/'),
    ensures
        segments_of(a + b) == segments_of(a).update(segments_of(a).len() - 1, segments_of(a).last() + b),
    decreases b.len(),
{
    lemma_segments_nonempty(a);
    let ls = segments_of(a);
    if b.len() == 0 {
        assert(a + b =~= a);
        assert(ls.update(ls.len() - 1, ls.last() + b) =~= ls);
    } else {
        let b0 = b.drop_last();
        assert forall|i: int| 0 <= i < b0.len() implies b0[i] != '/' by {
            assert(b0[i] == b[i]);
        }
        lemma_segments_append(a, b0);
        let ab = a + b;
        assert(ab.drop_last() =~= a + b0);
        assert(ab.last() == b[b.len() - 1]);
        assert(b[b.len() - 1] != '/');
        let l0 = segments_of(a + b0);
        assert(l0.last() == ls.last() + b0);
        assert((ls.last() + b0).push(b.last()) =~= ls.last() + b);
        assert(l0.update(l0.len() - 1, l0.last().push(ab.last())) =~= ls.update(ls.len() - 1, ls.last() + b));
    }
}

/// The link of a listed entry decodes to the listing's own location with
/// one plain segment added: it never leaves the root unless the listed
/// directory's own path does.
pub proof fn lemma_link_stays_below(rel: Seq<char>, name: Seq<char>)
    requires
        is_plain_segment(name),
    ensures
        request_segments_spec(link_of(rel, name)) == match request_segments_spec(rel) {
            Some(st) => Some(st.push(name)),
            None => None::<Seq<Seq<char>>>,
        },
{
    if rel.len() == 0 {
        lemma_segments_append(rel, name);
        assert(rel + name =~= name);
        let e: Seq<char> = Seq::empty();
        assert(segments_of(rel) == seq![e]);
        assert(segments_of(name) =~= seq![name]);
        assert(seq![name].drop_last() =~= Seq::<Seq<char>>::empty());
        assert(seq![e].drop_last() =~= Seq::<Seq<char>>::empty());
        assert(normalized(seq![e]) == Some(Seq::<Seq<char>>::empty()));
        assert(normalized(seq![name]) == Some(Seq::<Seq<char>>::empty().push(name)));
    } else {
        let rs = rel + seq!['/'];
        assert(rs.drop_last() =~= rel);
        assert(segments_of(rs) == segments_of(rel).push(Seq::empty()));
        lemma_segments_append(rs, name);
        assert(rs + name =~= link_of(rel, name));
        let x = segments_of(rel);
        assert(segments_of(rs).last() + name =~= name);
        assert(segments_of(link_of(rel, name)) =~= x.push(name));
        assert(x.push(name).drop_last() =~= x);
    }
}

} // verus!
