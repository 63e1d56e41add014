//! The heading outline (table of contents) of a Markdown document.
use vstd::prelude::*;
use vstd::string::*;

use crate::text::{
    anchor_text, chars_of, decimal_chars, percent_encode, push_decimal, string_of_range,
    trim, trim_bounds,
};

verus! {

/// The lines of `s`: the pieces between `'\n'` characters (a trailing `'\r'`
/// is white space and is trimmed away with the rest).
pub open spec fn lines_of(s: Seq<char>) -> Seq<Seq<char>>
    decreases s.len(),
{
    if s.len() == 0 {
        seq![Seq::empty()]
    } else if s.last() == '\n' {
        lines_of(s.drop_last()).push(Seq::empty())
    } else {
        let ls = lines_of(s.drop_last());
        ls.update(ls.len() - 1, ls.last().push(s.last()))
    }
}

/// The number of `#` characters that `t` starts with.
pub open spec fn leading_hashes(t: Seq<char>) -> nat
    decreases t.len(),
{
    if t.len() > 0 && t[0] == '#' {
        1 + leading_hashes(t.drop_first())
    } else {
        0
    }
}

/// The level and text of a heading line: once trimmed, the line starts with
/// one to three `#`, and the rest, trimmed, is not empty.
pub open spec fn heading_of(line: Seq<char>) -> Option<(nat, Seq<char>)> {
    let t = trim(line);
    let n = leading_hashes(t);
    if 1 <= n <= 3 && trim(t.skip(n as int)).len() > 0 {
        Some((n, trim(t.skip(n as int))))
    } else {
        None
    }
}

/// The headings of the lines, in order.
pub open spec fn headings(lines: Seq<Seq<char>>) -> Seq<(nat, Seq<char>)>
    decreases lines.len(),
{
    if lines.len() == 0 {
        Seq::empty()
    } else {
        let rest = headings(lines.drop_last());
        match heading_of(lines.last()) {
            Some(h) => rest.push(h),
            None => rest,
        }
    }
}

pub proof fn lemma_heading_levels(lines: Seq<Seq<char>>)
    ensures
        forall|i: int| 0 <= i < headings(lines).len() ==> 1 <= (#[trigger] headings(lines)[i]).0 <= 3,
    decreases lines.len(),
{
    if lines.len() > 0 {
        lemma_heading_levels(lines.drop_last());
        let rest = headings(lines.drop_last());
        assert forall|i: int| 0 <= i < headings(lines).len() implies 1 <= (#[trigger] headings(lines)[i]).0 <= 3 by {
            if i < rest.len() {
                assert(headings(lines)[i] == rest[i]);
            }
        }
    }
}

/// The outline of a document.
pub open spec fn outline(content: Seq<char>) -> Seq<(nat, Seq<char>)> {
    headings(lines_of(content))
}

/// The anchor id that the renderer gives a heading.
pub open spec fn anchor_id(level: nat, text: Seq<char>) -> Seq<char> {
    decimal_chars(level) + seq!['-'] + anchor_text(text)
}

/// One heading of the outline.
#[derive(Debug)]
pub struct TocEntry {
    pub level: usize,
    pub text: String,
    pub anchor: String,
}

impl TocEntry {
    pub open spec fn describes(&self, h: (nat, Seq<char>)) -> bool {
        &&& self.level == h.0
        &&& self.text@ == h.1
        &&& self.anchor@ == anchor_id(h.0, h.1)
    }
}

/// An outline, or the explicit marker that a document has no headings.
#[derive(Debug)]
pub enum Toc {
    NoOutline,
    Outline(Vec<TocEntry>),
}

pub open spec fn entries_describe(es: Seq<TocEntry>, hs: Seq<(nat, Seq<char>)>) -> bool {
    &&& es.len() == hs.len()
    &&& forall|i: int| 0 <= i < es.len() ==> (#[trigger] es[i]).describes(hs[i])
}

impl Toc {
    /// This value is the outline of `content`.
    pub open spec fn is_outline_of(&self, content: Seq<char>) -> bool {
        match self {
            Toc::NoOutline => outline(content).len() == 0,
            Toc::Outline(es) => outline(content).len() > 0 && entries_describe(es@, outline(content)),
        }
    }
}

fn make_anchor(level: usize, text: &String) -> (r: String)
    ensures
        r@ == anchor_id(level as nat, text@),
{
    let mut out = String::new();
    push_decimal(&mut out, level);
    out.push('-');
    let enc = percent_encode(text.as_str());
    out.append(enc.as_str());
    assert(out@ =~= anchor_id(level as nat, text@));
    out
}

/// The heading on `cs[lo..hi]`, if that line is one.
fn heading_in(cs: &Vec<char>, lo: usize, hi: usize) -> (r: Option<TocEntry>)
    requires
        lo <= hi <= cs@.len(),
    ensures
        match heading_of(cs@.subrange(lo as int, hi as int)) {
            Some(h) => r matches Some(e) && e.describes(h),
            None => r is None,
        },
{
    let (a, b) = trim_bounds(cs, lo, hi);
    let ghost t = cs@.subrange(a as int, b as int);
    let mut k = a;
    while k < b && cs[k] == '#' && k - a < 4
        invariant
            a <= k <= b <= cs@.len(),
            t == cs@.subrange(a as int, b as int),
            k - a <= 4,
            leading_hashes(t) == (k - a) + leading_hashes(cs@.subrange(k as int, b as int)),
        decreases b - k,
    {
        assert(cs@.subrange(k as int, b as int).drop_first() =~= cs@.subrange(k + 1, b as int));
        k = k + 1;
    }
    let n = k - a;
    if n == 0 || n >= 4 {
        return None;
    }
    assert(leading_hashes(t) == n);
    assert(t.skip(n as int) =~= cs@.subrange(k as int, b as int));
    let (c, d) = trim_bounds(cs, k, b);
    if c == d {
        return None;
    }
    let text = string_of_range(cs, c, d);
    let anchor = make_anchor(n, &text);
    Some(TocEntry { level: n, text, anchor })
}

/// Extracts the headings of levels one to three from a Markdown document,
/// in document order, or `NoOutline` where there are none.
pub fn extract_toc(content: &str) -> (r: Toc)
    ensures
        r.is_outline_of(content@),
        r matches Toc::Outline(es) ==> forall|i: int| 0 <= i < es@.len() ==> 1 <= (#[trigger] es@[i]).level <= 3,
{
    proof { lemma_heading_levels(lines_of(content@)); }
    let cs = chars_of(content);
    let mut entries: Vec<TocEntry> = Vec::new();
    let mut start: usize = 0;
    let mut i: usize = 0;
    while i < cs.len()
        invariant
            cs@ == content@,
            start <= i <= cs@.len(),
            lines_of(cs@.take(i as int)).len() >= 1,
            lines_of(cs@.take(i as int)).last() == cs@.subrange(start as int, i as int),
            entries_describe(entries@, headings(lines_of(cs@.take(i as int)).drop_last())),
        decreases cs@.len() - i,
    {
        let ghost ls = lines_of(cs@.take(i as int));
        assert(cs@.take(i + 1).drop_last() =~= cs@.take(i as int));
        if cs[i] == '\n' {
            let h = heading_in(&cs, start, i);
            assert(ls =~= ls.drop_last().push(ls.last()));
            if let Some(e) = h {
                entries.push(e);
            }
            i = i + 1;
            start = i;
            assert(lines_of(cs@.take(i as int)).drop_last() =~= ls);
            assert(lines_of(cs@.take(i as int)).last() =~= cs@.subrange(start as int, i as int));
        } else {
            i = i + 1;
            assert(lines_of(cs@.take(i as int)).drop_last() =~= ls.drop_last());
            assert(lines_of(cs@.take(i as int)).last() =~= cs@.subrange(start as int, i as int));
        }
    }
    assert(cs@.take(i as int) =~= content@);
    let ghost ls = lines_of(content@);
    assert(ls =~= ls.drop_last().push(ls.last()));
    if let Some(e) = heading_in(&cs, start, i) {
        entries.push(e);
    }
    if entries.len() == 0 {
        Toc::NoOutline
    } else {
        Toc::Outline(entries)
    }
}

} // verus!
