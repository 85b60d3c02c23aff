//! Matches in document order.
//!
//! A selection holds its matches by increasing path, one match to a path.
//! This module says what that means and how matches that were found apart
//! are brought into that form.

use vstd::prelude::*;
use crate::path::{before, lemma_precedes_total, lemma_precedes_transitive, precedes, same};
use crate::tree::{views, Node, NodeView};

verus! {

/// The paths of `s` strictly increase: `s` is in document order and no path
/// occurs twice.
pub open spec fn increasing(s: Seq<NodeView>) -> bool {
    forall|i: int, j: int|
        #![trigger s[i], s[j]]
        0 <= i < j < s.len() ==> precedes(s[i].path, s[j].path)
}

/// Some match of `s` stands at `p`.
pub open spec fn has_path(s: Seq<NodeView>, p: Seq<i64>) -> bool {
    exists|i: int| 0 <= i < s.len() && (#[trigger] s[i]).path == p
}

/// `s` with `n` at its place in document order; `s` itself where it already
/// holds a match at the path of `n`.
pub open spec fn insert(s: Seq<NodeView>, n: NodeView) -> Seq<NodeView>
    decreases s.len(),
{
    if s.len() == 0 {
        seq![n]
    } else if precedes(s.last().path, n.path) {
        s.push(n)
    } else if s.last().path == n.path {
        s
    } else {
        insert(s.drop_last(), n).push(s.last())
    }
}

/// The matches of `s` in document order, of those that share a path the one
/// that comes first in `s`.
pub open spec fn normalize(s: Seq<NodeView>) -> Seq<NodeView>
    decreases s.len(),
{
    if s.len() == 0 {
        s
    } else {
        insert(normalize(s.drop_last()), s.last())
    }
}

/// Inserting into a selection gives a selection. It holds what was there
/// before, and `n` where its path is new.
pub proof fn lemma_insert(s: Seq<NodeView>, n: NodeView)
    requires
        increasing(s),
    ensures
        increasing(insert(s, n)),
        forall|k: int|
            0 <= k < insert(s, n).len() ==> (#[trigger] insert(s, n)[k]) == n || s.contains(
                insert(s, n)[k],
            ),
        forall|i: int| 0 <= i < s.len() ==> insert(s, n).contains(#[trigger] s[i]),
        has_path(s, n.path) ==> insert(s, n) == s,
        !has_path(s, n.path) ==> insert(s, n).contains(n),
    decreases s.len(),
{
    let r = insert(s, n);
    if s.len() == 0 {
        assert(r[0] == n);
    } else if precedes(s.last().path, n.path) {
        assert forall|i: int, j: int| 0 <= i < j < r.len() implies precedes(
            r[i].path,
            r[j].path,
        ) by {
            if j == s.len() && i < s.len() - 1 {
                lemma_precedes_transitive(s[i].path, s.last().path, n.path);
            }
        }
        assert forall|i: int| 0 <= i < s.len() implies r.contains(#[trigger] s[i]) by {}
        assert(r[s.len() as int] == n);
    } else if s.last().path != n.path {
        let front = s.drop_last();
        let last = s.last();
        lemma_insert(front, n);
        let f = insert(front, n);
        lemma_precedes_total(last.path, n.path);
        assert forall|i: int| 0 <= i < s.len() implies r.contains(#[trigger] s[i]) by {
            if i < front.len() {
                assert(f.contains(front[i]));
            } else {
                assert(r[f.len() as int] == s[i]);
            }
        }
        if has_path(s, n.path) {
            let i = choose|i: int| 0 <= i < s.len() && (#[trigger] s[i]).path == n.path;
            assert(front[i].path == n.path);
        } else {
            let m = choose|m: int| 0 <= m < f.len() && f[m] == n;
            assert(r[m] == n);
        }
    }
}

/// Bringing matches into document order gives a selection.
pub proof fn lemma_normalize_increasing(s: Seq<NodeView>)
    ensures
        increasing(normalize(s)),
    decreases s.len(),
{
    if s.len() > 0 {
        lemma_normalize_increasing(s.drop_last());
        lemma_insert(normalize(s.drop_last()), s.last());
    }
}

/// A selection is already in the form that `normalize` gives.
pub proof fn lemma_normalize_selection(s: Seq<NodeView>)
    requires
        increasing(s),
    ensures
        normalize(s) == s,
    decreases s.len(),
{
    if s.len() > 0 {
        let front = s.drop_last();
        lemma_normalize_selection(front);
    }
}

/// `normalize` keeps the paths: a path stands in the result exactly if it
/// stands in what was given.
pub proof fn lemma_normalize_paths(s: Seq<NodeView>, p: Seq<i64>)
    ensures
        has_path(normalize(s), p) <==> has_path(s, p),
    decreases s.len(),
{
    if s.len() > 0 {
        let front = s.drop_last();
        let nf = normalize(front);
        lemma_normalize_paths(front, p);
        lemma_normalize_increasing(front);
        lemma_insert(nf, s.last());
        if has_path(s, p) {
            let i = choose|i: int| 0 <= i < s.len() && (#[trigger] s[i]).path == p;
            if i < front.len() {
                assert(front[i].path == p);
            }
        }
    }
}

/// Every match that `normalize` gives is one of those it was given.
pub proof fn lemma_normalize_members(s: Seq<NodeView>)
    ensures
        forall|k: int| 0 <= k < normalize(s).len() ==> s.contains(#[trigger] normalize(s)[k]),
    decreases s.len(),
{
    if s.len() > 0 {
        let front = s.drop_last();
        let nf = normalize(front);
        lemma_normalize_members(front);
        lemma_normalize_increasing(front);
        lemma_insert(nf, s.last());
    }
}

/// Of a selection, what is left after some matches are taken out is a
/// selection.
pub proof fn lemma_filter_increasing(s: Seq<NodeView>, keep: spec_fn(NodeView) -> bool)
    requires
        increasing(s),
    ensures
        increasing(s.filter(keep)),
        forall|k: int| 0 <= k < s.filter(keep).len() ==> s.contains(#[trigger] s.filter(keep)[k]),
    decreases s.len(),
{
    reveal(Seq::filter);
    if s.len() > 0 {
        let front = s.drop_last();
        lemma_filter_increasing(front, keep);
    }
}

/// Puts `n` into `out` at its place in document order, unless `out` holds a
/// match at the same path.
pub fn place(out: &mut Vec<Node>, n: Node)
    ensures
        views(final(out)@) == insert(views(old(out)@), n@),
{
    let ghost all = views(out@);
    let mut i: usize = out.len();
    proof {
        assert(all.take(i as int) =~= all);
    }
    while i > 0
        invariant
            i <= out.len(),
            views(out@) == all,
            all == views(old(out)@),
            insert(all, n@) == insert(all.take(i as int), n@) + all.skip(i as int),
        decreases i,
    {
        let ghost head = all.take(i as int);
        if before(&out[i - 1].path, &n.path) {
            out.insert(i, n);
            return ;
        }
        if same(&out[i - 1].path, &n.path) {
            return ;
        }
        proof {
            assert(head.drop_last() =~= all.take(i - 1));
        }
        i -= 1;
    }
    out.insert(0, n);
}

} // verus!
