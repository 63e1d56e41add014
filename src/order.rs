//! The order of directory entries: lexicographic by name, optionally with
//! directories before files.
use vstd::prelude::*;

use crate::text::chars_of;

verus! {

/// `a` comes strictly before `b` in code-point order.
pub open spec fn lex_lt(a: Seq<char>, b: Seq<char>) -> bool
    decreases a.len(),
{
    if a.len() == 0 {
        b.len() > 0
    } else if b.len() == 0 {
        false
    } else if a[0] != b[0] {
        a[0] < b[0]
    } else {
        lex_lt(a.drop_first(), b.drop_first())
    }
}

pub proof fn lemma_lex_asymmetric(a: Seq<char>, b: Seq<char>)
    ensures
        lex_lt(a, b) ==> !lex_lt(b, a),
    decreases a.len(),
{
    if a.len() > 0 && b.len() > 0 && a[0] == b[0] {
        lemma_lex_asymmetric(a.drop_first(), b.drop_first());
    }
}

/// An entry (name, is-directory) that must come strictly before another.
pub open spec fn before(a: (Seq<char>, bool), b: (Seq<char>, bool), dirs_first: bool) -> bool {
    if dirs_first && a.1 != b.1 {
        a.1
    } else {
        lex_lt(a.0, b.0)
    }
}

/// No entry is followed by one that must come before it.
pub open spec fn sorted_by(s: Seq<(Seq<char>, bool)>, dirs_first: bool) -> bool {
    forall|i: int| 0 <= i < s.len() - 1 ==> !before(#[trigger] s[i + 1], s[i], dirs_first)
}

pub open spec fn entry_views(v: Seq<(String, bool)>) -> Seq<(Seq<char>, bool)> {
    v.map_values(|e: (String, bool)| (e.0@, e.1))
}

/// Whether `a` comes strictly before `b` in code-point order.
pub fn name_less(a: &str, b: &str) -> (r: bool)
    ensures
        r == lex_lt(a@, b@),
{
    let x = chars_of(a);
    let y = chars_of(b);
    let mut i: usize = 0;
    assert(x@.skip(0) =~= x@);
    assert(y@.skip(0) =~= y@);
    while i < x.len() && i < y.len() && x[i] == y[i]
        invariant
            x@ == a@,
            y@ == b@,
            i <= x@.len(),
            i <= y@.len(),
            lex_lt(a@, b@) == lex_lt(x@.skip(i as int), y@.skip(i as int)),
        decreases x@.len() - i,
    {
        assert(x@.skip(i as int).drop_first() =~= x@.skip(i + 1));
        assert(y@.skip(i as int).drop_first() =~= y@.skip(i + 1));
        i = i + 1;
    }
    if i == x.len() {
        i < y.len()
    } else if i == y.len() {
        false
    } else {
        x[i] < y[i]
    }
}

fn entry_before(a: &(String, bool), b: &(String, bool), dirs_first: bool) -> (r: bool)
    ensures
        r == before((a.0@, a.1), (b.0@, b.1), dirs_first),
{
    if dirs_first && a.1 != b.1 {
        a.1
    } else {
        name_less(a.0.as_str(), b.0.as_str())
    }
}

/// Sorts entries by name, or directories first and then by name.
pub fn sort_entries(items: Vec<(String, bool)>, dirs_first: bool) -> (r: Vec<(String, bool)>)
    ensures
        sorted_by(entry_views(r@), dirs_first),
        entry_views(r@).to_multiset() == entry_views(items@).to_multiset(),
{
    broadcast use vstd::multiset::group_multiset_axioms;
    broadcast use vstd::seq_lib::group_to_multiset_ensures;
    let ghost all = entry_views(items@);
    let mut rest = items;
    let mut out: Vec<(String, bool)> = Vec::new();
    proof {
        assert(entry_views(rest@) =~= all);
        vstd::multiset::lemma_multiset_empty_len(entry_views(out@).to_multiset());
        assert(entry_views(out@).to_multiset().add(all.to_multiset()) =~= all.to_multiset());
    }
    while rest.len() > 0
        invariant
            sorted_by(entry_views(out@), dirs_first),
            entry_views(out@).to_multiset().add(entry_views(rest@).to_multiset()) == all.to_multiset(),
        decreases rest@.len(),
    {
        let ghost before_rest = rest@;
        let x = rest.pop().unwrap();
        let ghost xv = (x.0@, x.1);
        proof {
            assert(entry_views(before_rest) =~= entry_views(rest@).push(xv));
            vstd::seq_lib::to_multiset_build(entry_views(rest@), xv);
        }
        let mut p: usize = 0;
        while p < out.len() && !entry_before(&x, &out[p], dirs_first)
            invariant
                p <= out@.len(),
                xv == (x.0@, x.1),
                forall|j: int| 0 <= j < p ==> !before(xv, #[trigger] entry_views(out@)[j], dirs_first),
            decreases out@.len() - p,
        {
            p = p + 1;
        }
        let ghost old_v = entry_views(out@);
        proof {
            if p < out@.len() {
                assert(before(xv, old_v[p as int], dirs_first));
                lemma_lex_asymmetric(xv.0, old_v[p as int].0);
            }
        }
        out.insert(p, x);
        proof {
            let nv = entry_views(out@);
            assert(nv =~= old_v.insert(p as int, xv));
            vstd::seq_lib::to_multiset_insert(old_v, p as int, xv);
            assert forall|i: int| 0 <= i < nv.len() - 1 implies !before(#[trigger] nv[i + 1], nv[i], dirs_first) by {
                if i + 1 < p {
                    assert(nv[i + 1] == old_v[i + 1] && nv[i] == old_v[i]);
                    assert(!before(old_v[i + 1], old_v[i], dirs_first));
                } else if i + 1 == p {
                    assert(nv[i + 1] == xv && nv[i] == old_v[i]);
                    assert(!before(xv, old_v[i], dirs_first));
                } else if i == p {
                    assert(nv[i] == xv && nv[i + 1] == old_v[p as int]);
                } else {
                    assert(nv[i + 1] == old_v[i] && nv[i] == old_v[i - 1]);
                    let k = i - 1;
                    assert(!before(old_v[k + 1], old_v[k], dirs_first));
                }
            }
        }
    }
    proof {
        vstd::multiset::lemma_multiset_empty_len(entry_views(rest@).to_multiset());
        assert(entry_views(out@).to_multiset() =~= all.to_multiset());
    }
    out
}

} // verus!
