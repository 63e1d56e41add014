//! Mapping untrusted request paths to locations confined to the root.
use vstd::prelude::*;
use vstd::string::*;

use crate::error::ServeError;
use crate::text::{chars_of, string_of_range};

verus! {

/// The pieces of `s` between `'/'` characters.
pub open spec fn segments_of(s: Seq<char>) -> Seq<Seq<char>>
    decreases s.len(),
{
    if s.len() == 0 {
        seq![Seq::empty()]
    } else if s.last() == '/' {
        segments_of(s.drop_last()).push(Seq::empty())
    } else {
        let ls = segments_of(s.drop_last());
        ls.update(ls.len() - 1, ls.last().push(s.last()))
    }
}

pub proof fn lemma_segments_nonempty(s: Seq<char>)
    ensures
        segments_of(s).len() >= 1,
    decreases s.len(),
{
    if s.len() > 0 {
        lemma_segments_nonempty(s.drop_last());
    }
}

/// A segment that names a child: not empty, not `.` or `..`, and free of `/`.
pub open spec fn is_plain_segment(s: Seq<char>) -> bool {
    &&& s.len() > 0
    &&& s != seq!['.']
    &&& s != seq!['.', '.']
    &&& !s.contains('/')
}

/// The segments left after removing empty and `.` segments and letting each
/// `..` cancel the segment before it; `None` where a `..` would climb above
/// the start.
pub open spec fn normalized(segs: Seq<Seq<char>>) -> Option<Seq<Seq<char>>>
    decreases segs.len(),
{
    if segs.len() == 0 {
        Some(Seq::empty())
    } else {
        match normalized(segs.drop_last()) {
            None => None,
            Some(st) => {
                let s = segs.last();
                if s.len() == 0 || s == seq!['.'] {
                    Some(st)
                } else if s == seq!['.', '.'] {
                    if st.len() == 0 {
                        None
                    } else {
                        Some(st.drop_last())
                    }
                } else {
                    Some(st.push(s))
                }
            },
        }
    }
}

/// The lexical form of a request path, as segments below the root.
pub open spec fn request_segments_spec(request: Seq<char>) -> Option<Seq<Seq<char>>> {
    normalized(segments_of(request))
}

pub open spec fn views(v: Seq<String>) -> Seq<Seq<char>> {
    v.map_values(|s: String| s@)
}

pub proof fn lemma_normalized_plain(segs: Seq<Seq<char>>)
    requires
        forall|i: int| 0 <= i < segs.len() ==> !(#[trigger] segs[i]).contains('/'),
    ensures
        normalized(segs) is Some ==> forall|i: int|
            0 <= i < normalized(segs)->0.len() ==> is_plain_segment(#[trigger] normalized(segs)->0[i]),
    decreases segs.len(),
{
    if segs.len() > 0 {
        assert forall|i: int| 0 <= i < segs.drop_last().len() implies !(
        #[trigger] segs.drop_last()[i]).contains('/') by {
            assert(segs.drop_last()[i] == segs[i]);
        }
        lemma_normalized_plain(segs.drop_last());
        assert(!segs[segs.len() - 1].contains('/'));
    }
}

pub proof fn lemma_segments_slash_free(s: Seq<char>)
    ensures
        forall|i: int| 0 <= i < segments_of(s).len() ==> !(#[trigger] segments_of(s)[i]).contains('/'),
    decreases s.len(),
{
    if s.len() > 0 {
        lemma_segments_slash_free(s.drop_last());
        lemma_segments_nonempty(s.drop_last());
        let ls = segments_of(s.drop_last());
        if s.last() != '/' {
            let l2 = ls.last().push(s.last());
            assert forall|j: int| 0 <= j < l2.len() implies l2[j] != '/' by {
                if j < ls.last().len() {
                    assert(l2[j] == ls.last()[j]);
                    assert(ls[ls.len() - 1] == ls.last());
                }
            }
        }
        assert forall|i: int| 0 <= i < segments_of(s).len() implies !(
        #[trigger] segments_of(s)[i]).contains('/') by {
            if s.last() == '/' {
                if i < ls.len() {
                    assert(segments_of(s)[i] == ls[i]);
                } else {
                    assert(segments_of(s)[i] == Seq::<char>::empty());
                }
            } else if i < ls.len() - 1 {
                assert(segments_of(s)[i] == ls[i]);
            }
        }
    }
}

fn is_dot(cs: &Vec<char>, lo: usize, hi: usize) -> (r: bool)
    requires
        lo <= hi <= cs@.len(),
    ensures
        r == (cs@.subrange(lo as int, hi as int) == seq!['.']),
{
    if hi - lo == 1 && cs[lo] == '.' {
        assert(cs@.subrange(lo as int, hi as int) =~= seq!['.']);
        true
    } else {
        if hi - lo == 1 {
            assert(cs@.subrange(lo as int, hi as int)[0] == cs@[lo as int]);
        }
        false
    }
}

fn is_dot_dot(cs: &Vec<char>, lo: usize, hi: usize) -> (r: bool)
    requires
        lo <= hi <= cs@.len(),
    ensures
        r == (cs@.subrange(lo as int, hi as int) == seq!['.', '.']),
{
    if hi - lo == 2 && cs[lo] == '.' && cs[lo + 1] == '.' {
        assert(cs@.subrange(lo as int, hi as int) =~= seq!['.', '.']);
        true
    } else {
        proof {
            let sub = cs@.subrange(lo as int, hi as int);
            if sub == seq!['.', '.'] {
                assert(sub.len() == 2);
                assert(sub[0] == cs@[lo as int]);
                assert(sub[1] == cs@[lo + 1]);
                assert(sub[0] == '.' && sub[1] == '.');
            }
        }
        false
    }
}

/// Applies one segment `cs[lo..hi]` to the stack of segments kept so far;
/// `false` where a `..` finds the stack empty.
fn apply_segment(stack: &mut Vec<String>, cs: &Vec<char>, lo: usize, hi: usize) -> (ok: bool)
    requires
        lo <= hi <= cs@.len(),
    ensures
        ({
            let s = cs@.subrange(lo as int, hi as int);
            let st = views(old(stack)@);
            if s.len() == 0 || s == seq!['.'] {
                ok && views(final(stack)@) == st
            } else if s == seq!['.', '.'] {
                if st.len() == 0 {
                    !ok
                } else {
                    ok && views(final(stack)@) == st.drop_last()
                }
            } else {
                ok && views(final(stack)@) == st.push(s)
            }
        }),
{
    if lo == hi || is_dot(cs, lo, hi) {
        true
    } else if is_dot_dot(cs, lo, hi) {
        if stack.len() == 0 {
            false
        } else {
            stack.pop();
            assert(views(stack@) =~= views(old(stack)@).drop_last());
            true
        }
    } else {
        let seg = string_of_range(cs, lo, hi);
        stack.push(seg);
        assert(views(stack@) =~= views(old(stack)@).push(cs@.subrange(lo as int, hi as int)));
        true
    }
}

/// Splits a request path on `/` and resolves `.` and `..` lexically. A path
/// whose `..` segments would climb above the root is denied.
pub fn request_segments(request: &str) -> (r: Result<Vec<String>, ServeError>)
    ensures
        match request_segments_spec(request@) {
            Some(st) => r matches Ok(v) && views(v@) == st,
            None => r matches Err(e) && e is AccessDenied,
        },
        r matches Ok(v) ==> forall|i: int| 0 <= i < v@.len() ==> is_plain_segment(#[trigger] v@[i]@),
{
    let cs = chars_of(request);
    let mut stack: Vec<String> = Vec::new();
    let mut escaped = false;
    let mut start: usize = 0;
    let mut i: usize = 0;
    while i < cs.len()
        invariant
            cs@ == request@,
            start <= i <= cs@.len(),
            segments_of(cs@.take(i as int)).len() >= 1,
            segments_of(cs@.take(i as int)).last() == cs@.subrange(start as int, i as int),
            escaped ==> normalized(segments_of(cs@.take(i as int)).drop_last()) is None,
            !escaped ==> normalized(segments_of(cs@.take(i as int)).drop_last()) == Some(views(stack@)),
        decreases cs@.len() - i,
    {
        let ghost ls = segments_of(cs@.take(i as int));
        assert(cs@.take(i + 1).drop_last() =~= cs@.take(i as int));
        if cs[i] == '/' {
            assert(ls =~= ls.drop_last().push(ls.last()));
            if !escaped && !apply_segment(&mut stack, &cs, start, i) {
                escaped = true;
            }
            i = i + 1;
            start = i;
            assert(segments_of(cs@.take(i as int)).drop_last() =~= ls);
            assert(segments_of(cs@.take(i as int)).last() =~= cs@.subrange(start as int, i as int));
        } else {
            i = i + 1;
            assert(segments_of(cs@.take(i as int)).drop_last() =~= ls.drop_last());
            assert(segments_of(cs@.take(i as int)).last() =~= cs@.subrange(start as int, i as int));
        }
    }
    assert(cs@.take(i as int) =~= request@);
    let ghost ls = segments_of(request@);
    assert(ls =~= ls.drop_last().push(ls.last()));
    if escaped || !apply_segment(&mut stack, &cs, start, i) {
        return Err(ServeError::AccessDenied);
    }
    proof {
        lemma_segments_slash_free(request@);
        lemma_normalized_plain(segments_of(request@));
    }
    assert forall|k: int| 0 <= k < stack@.len() implies is_plain_segment(#[trigger] stack@[k]@) by {
        let ghost st = views(stack@);
        assert(normalized(segments_of(request@)) == Some(st));
        assert(st[k] == stack@[k]@);
        assert(normalized(segments_of(request@))->0[k] == st[k]);
        assert(is_plain_segment(st[k]));
    }
    Ok(stack)
}

/// `p` is `root` or lies below it, compared segment by segment: `/base2`
/// is not within `/base`.
pub open spec fn within(root: Seq<char>, p: Seq<char>) -> bool {
    ||| p == root
    ||| {
        &&& p.len() > root.len()
        &&& p.take(root.len() as int) == root
        &&& (p[root.len() as int] == '/' || (root.len() > 0 && root.last() == '/'))
    }
}

/// Whether the canonical path `path` is the canonical root or lies below it.
pub fn is_within(root: &str, path: &str) -> (r: bool)
    ensures
        r == within(root@, path@),
{
    let rs = chars_of(root);
    let ps = chars_of(path);
    if ps.len() < rs.len() {
        return false;
    }
    let mut i: usize = 0;
    while i < rs.len()
        invariant
            rs@ == root@,
            ps@ == path@,
            rs@.len() <= ps@.len(),
            i <= rs@.len(),
            ps@.take(i as int) == rs@.take(i as int),
        decreases rs@.len() - i,
    {
        if ps[i] != rs[i] {
            assert(ps@.take(rs@.len() as int)[i as int] != rs@[i as int]);
            assert(ps@.take(rs@.len() as int) != rs@);
            return false;
        }
        i = i + 1;
        assert(ps@.take(i as int) =~= rs@.take(i as int));
    }
    assert(rs@.take(rs@.len() as int) =~= rs@);
    if ps.len() == rs.len() {
        assert(ps@ =~= rs@);
        true
    } else {
        ps[rs.len()] == '/' || (rs.len() > 0 && rs[rs.len() - 1] == '/')
    }
}

/// `root` followed by `/` and each segment in turn.
pub open spec fn joined(root: Seq<char>, segs: Seq<Seq<char>>) -> Seq<char>
    decreases segs.len(),
{
    if segs.len() == 0 {
        root
    } else {
        joined(root, segs.drop_last()) + seq!['/'] + segs.last()
    }
}

/// The path of the first `k` segments below `root`: the request's location
/// for `k == segs.len()`, and its ancestors for smaller `k`.
pub fn join_segments(root: &str, segs: &Vec<String>, k: usize) -> (r: String)
    requires
        k <= segs@.len(),
    ensures
        r@ == joined(root@, views(segs@).take(k as int)),
{
    let mut out = String::from_str(root);
    let mut i: usize = 0;
    while i < k
        invariant
            k <= segs@.len(),
            i <= k,
            out@ == joined(root@, views(segs@).take(i as int)),
        decreases k - i,
    {
        let ghost before = views(segs@).take(i as int);
        out.push('/');
        out.append(segs[i].as_str());
        assert(views(segs@).take(i + 1).drop_last() =~= before);
        assert(views(segs@)[i as int] == segs@[i as int]@);
        i = i + 1;
        assert(out@ =~= joined(root@, views(segs@).take(i as int)));
    }
    out
}

/// What canonicalizing a request's location found.
#[derive(Debug)]
pub enum Lookup {
    /// The location exists; its canonical form and whether it is a directory.
    Found { canonical: String, is_dir: bool },
    /// The location does not exist; the canonical form of its nearest
    /// existing ancestor, if any.
    Missing { ancestor: Option<String> },
}

/// The paths to canonicalize for a request: its location first, then each
/// ancestor up to the root itself.
pub fn probe_paths(root: &str, segs: &Vec<String>) -> (r: Vec<String>)
    ensures
        r@.len() == segs@.len() + 1,
        forall|i: int| 0 <= i < r@.len() ==> (#[trigger] r@[i])@ == joined(root@, views(segs@).take(segs@.len() - i)),
{
    let mut out: Vec<String> = Vec::new();
    let mut k: usize = segs.len();
    loop
        invariant_except_break
            out@.len() == segs@.len() - k,
        invariant
            k <= segs@.len(),
            forall|i: int| 0 <= i < out@.len() ==> (#[trigger] out@[i])@ == joined(root@, views(segs@).take(segs@.len() - i)),
        ensures
            out@.len() == segs@.len() + 1,
        decreases k,
    {
        let p = join_segments(root, segs, k);
        out.push(p);
        if k == 0 {
            break;
        }
        k = k - 1;
    }
    out
}

pub open spec fn probe_path(p: Option<(String, bool)>) -> Seq<char> {
    match p {
        Some((c, _)) => c@,
        None => Seq::empty(),
    }
}

pub open spec fn probe_is_dir(p: Option<(String, bool)>) -> bool {
    match p {
        Some((_, d)) => d,
        None => false,
    }
}

/// The probe results up to `k` all failed.
pub open spec fn none_before(probes: Seq<Option<(String, bool)>>, k: int) -> bool {
    forall|j: int| 0 <= j < k ==> (#[trigger] probes[j]) is None
}

/// Turns the canonicalization results of `probe_paths` (canonical form and
/// whether it is a directory, or `None` where it failed) into a lookup: the
/// location if it exists, else the nearest ancestor that does.
pub fn lookup_of_probes(probes: &Vec<Option<(String, bool)>>) -> (r: Lookup)
    ensures
        none_before(probes@, probes@.len() as int) ==> r == (Lookup::Missing { ancestor: None }),
        forall|k: int|
            0 <= k < probes@.len() && (#[trigger] probes@[k]) is Some && none_before(probes@, k) ==> {
                if k == 0 {
                    r matches Lookup::Found { canonical, is_dir } && canonical@ == probe_path(probes@[0]) && is_dir == probe_is_dir(probes@[0])
                } else {
                    r matches Lookup::Missing { ancestor: Some(a) } && a@ == probe_path(probes@[k])
                }
            },
{
    let mut i: usize = 0;
    while i < probes.len()
        invariant
            i <= probes@.len(),
            none_before(probes@, i as int),
        decreases probes@.len() - i,
    {
        match &probes[i] {
            Some((c, d)) => {
                let canonical = c.clone();
                proof {
                    assert forall|k: int| 0 <= k < probes@.len() && (#[trigger] probes@[k]) is Some && none_before(probes@, k) implies k == i by {
                        if k < i {
                        } else if k > i {
                            assert(probes@[i as int] is None);
                        }
                    }
                }
                if i == 0 {
                    return Lookup::Found { canonical, is_dir: *d };
                } else {
                    return Lookup::Missing { ancestor: Some(canonical) };
                }
            },
            None => {},
        }
        i = i + 1;
    }
    Lookup::Missing { ancestor: None }
}

/// A location confined to the root.
#[derive(Debug)]
pub struct ResolvedPath {
    pub path: String,
    pub is_dir: bool,
}

/// The outcome of resolving against the canonical `root`: the confined
/// location, or the error kind (`true` for denied, `false` for not found).
pub open spec fn resolution(root: Seq<char>, lookup: Lookup) -> Result<(Seq<char>, bool), bool> {
    match lookup {
        Lookup::Found { canonical, is_dir } => if within(root, canonical@) {
            Ok((canonical@, is_dir))
        } else {
            Err(true)
        },
        Lookup::Missing { ancestor } => match ancestor {
            Some(a) => Err(!within(root, a@)),
            None => Err(false),
        },
    }
}

pub open spec fn reports(r: Result<ResolvedPath, ServeError>, o: Result<(Seq<char>, bool), bool>) -> bool {
    match o {
        Ok((p, d)) => r matches Ok(rp) && rp.path@ == p && rp.is_dir == d,
        Err(true) => r matches Err(e) && e is AccessDenied,
        Err(false) => r matches Err(e) && e is NotFound,
    }
}

/// Decides a request from what canonicalization found: a location outside
/// the canonical root is denied, also where only its nearest existing
/// ancestor could be canonicalized; a missing location within the root is
/// not found.
pub fn resolve(root: &str, lookup: Lookup) -> (r: Result<ResolvedPath, ServeError>)
    ensures
        reports(r, resolution(root@, lookup)),
{
    match lookup {
        Lookup::Found { canonical, is_dir } => {
            if is_within(root, canonical.as_str()) {
                Ok(ResolvedPath { path: canonical, is_dir })
            } else {
                Err(ServeError::AccessDenied)
            }
        },
        Lookup::Missing { ancestor } => match ancestor {
            Some(a) => if is_within(root, a.as_str()) {
                Err(ServeError::NotFound)
            } else {
                Err(ServeError::AccessDenied)
            },
            None => Err(ServeError::NotFound),
        },
    }
}

/// A request whose location, or whose nearest existing ancestor, resolves
/// outside the root is denied.
pub proof fn lemma_outside_is_denied(root: Seq<char>, lookup: Lookup)
    ensures
        (lookup matches Lookup::Found { canonical, .. } && !within(root, canonical@))
            ==> resolution(root, lookup) == Err::<(Seq<char>, bool), bool>(true),
        (lookup matches Lookup::Missing { ancestor: Some(a) } && !within(root, a@))
            ==> resolution(root, lookup) == Err::<(Seq<char>, bool), bool>(true),
{
}

/// A missing location whose nearest existing ancestor lies within the root
/// is reported as not found, never as denied.
pub proof fn lemma_missing_inside_not_found(root: Seq<char>, ancestor: String)
    requires
        within(root, ancestor@),
    ensures
        resolution(root, Lookup::Missing { ancestor: Some(ancestor) }) == Err::<(Seq<char>, bool), bool>(false),
{
}

} // verus!
