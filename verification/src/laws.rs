//! What holds of selections and of the operators that move them.

use vstd::prelude::*;
use crate::axis::{on_axis, Axis};
use crate::order::{has_path, increasing, lemma_normalize_paths, normalize};
use crate::path::{is_prefix, next_sibling_of, parent_of, prev_sibling_of};
use crate::result::{chosen, gathered, moved, nth, reached, short_of};
use crate::tree::{hits, Kind, NodeView, TreeView};
use crate::walk::{
    lemma_bounded_walk, lemma_concat_contains, lemma_walk_finds_exactly, lemma_walk_in_order, within,
};

verus! {

/// No two matches of a selection stand at one path.
pub proof fn lemma_paths_unique(s: Seq<NodeView>, i: int, j: int)
    requires
        increasing(s),
        0 <= i < s.len(),
        0 <= j < s.len(),
        i != j,
    ensures
        s[i].path != s[j].path,
{
}

/// Position 0 is the first match and position -1 the last; an empty
/// selection has neither.
pub proof fn lemma_ends(s: Seq<NodeView>)
    ensures
        s.len() > 0 ==> nth(s, 0) == Some(s.first()) && nth(s, -1) == Some(s.last()),
        s.len() == 0 ==> nth(s, 0) is None && nth(s, -1) is None,
{
}

/// What the walks of several held matches yield is what the walk of one of
/// them yields.
pub proof fn lemma_gathered_member(
    held: Seq<NodeView>,
    n: nat,
    kind: Kind,
    depth: Option<nat>,
    m: NodeView,
)
    requires
        n <= held.len(),
    ensures
        gathered(held, n, kind, depth).contains(m) <==> exists|i: int|
            0 <= i < n && hits((#[trigger] held[i]).data, kind, held[i].path, depth).contains(m),
    decreases n,
{
    if n > 0 {
        let front = gathered(held, (n - 1) as nat, kind, depth);
        let last = hits(held[n - 1].data, kind, held[n - 1].path, depth);
        lemma_gathered_member(held, (n - 1) as nat, kind, depth, m);
        lemma_concat_contains(front, last, m);
    }
}

/// Among the children of one tree, `children` gives exactly what `query`
/// gives no deeper than one level down.
pub proof fn lemma_children_of_tree(t: TreeView, kind: Kind)
    requires
        t.well_formed(),
    ensures
        hits(t, kind, Seq::empty(), Some(1nat)) == hits(t, kind, Seq::empty(), None).filter(
            within(1),
        ),
{
    lemma_bounded_walk(t, kind, Seq::empty(), 1);
}

/// Every path that `children` gives, `query` gives too, and it lies at a
/// held match or one level below it: never deeper.
pub proof fn lemma_children_within_query(held: Seq<NodeView>, kind: Kind, p: Seq<i64>)
    requires
        forall|i: int| 0 <= i < held.len() ==> (#[trigger] held[i]).data.well_formed(),
        has_path(normalize(gathered(held, held.len(), kind, Some(1nat))), p),
    ensures
        has_path(normalize(gathered(held, held.len(), kind, None)), p),
        exists|i: int|
            0 <= i < held.len() && is_prefix((#[trigger] held[i]).path, p) && p.len()
                <= held[i].path.len() + 1,
{
    let near = gathered(held, held.len(), kind, Some(1nat));
    let far = gathered(held, held.len(), kind, None);
    lemma_normalize_paths(near, p);
    lemma_normalize_paths(far, p);
    let k = choose|k: int| 0 <= k < near.len() && (#[trigger] near[k]).path == p;
    let m = near[k];
    lemma_gathered_member(held, held.len(), kind, Some(1nat), m);
    let i = choose|i: int|
        0 <= i < held.len() && hits(
            (#[trigger] held[i]).data,
            kind,
            held[i].path,
            Some(1nat),
        ).contains(m);
    lemma_walk_finds_exactly(held[i].data, kind, held[i].path, Some(1nat), m);
    lemma_walk_finds_exactly(held[i].data, kind, held[i].path, None, m);
    lemma_gathered_member(held, held.len(), kind, None, m);
}

/// Where exactly the matches at one path are kept, and a selection holds a
/// match at that path, that match alone is left.
pub proof fn lemma_filter_single(s: Seq<NodeView>, keep: spec_fn(NodeView) -> bool, x: NodeView)
    requires
        increasing(s),
        s.contains(x),
        forall|m: NodeView| #[trigger] keep(m) <==> m.path == x.path,
    ensures
        s.filter(keep) == seq![x],
    decreases s.len(),
{
    reveal(Seq::filter);
    let front = s.drop_last();
    let at = choose|at: int| 0 <= at < s.len() && s[at] == x;
    if at == s.len() - 1 {
        front.lemma_all_neg_filter_empty(keep);
    } else {
        assert(front[at] == x);
        lemma_filter_single(front, keep, x);
    }
}

/// A path at which an element stands holds no negative index.
pub proof fn lemma_element_path(t: TreeView, rel: Seq<i64>)
    requires
        t.element_at(rel) is Some,
    ensures
        forall|k: int| 0 <= k < rel.len() ==> 0 <= #[trigger] rel[k],
    decreases rel.len(),
{
    if rel.len() > 0 {
        lemma_element_path(t.children[rel[0] as int], rel.skip(1));
        assert forall|k: int| 0 <= k < rel.len() implies 0 <= #[trigger] rel[k] by {
            if k > 0 {
                assert(rel.skip(1)[k - 1] == rel[k]);
            }
        }
    }
}

/// Of two elements `a` and `b` in neighbouring slots, `a` at `p` and `b` in
/// the slot after it: from `a` alone, `next` for the kind of `b` gives `b`
/// and nothing else, and from `b` alone, `prev` for the kind of `a` gives `a`
/// and nothing else.
pub proof fn lemma_next_prev_of_neighbours(
    root: TreeView,
    p: Seq<i64>,
    q: Seq<i64>,
    a: TreeView,
    b: TreeView,
)
    requires
        root.well_formed(),
        next_sibling_of(p) == Some(q),
        root.element_at(p) == Some(a),
        root.element_at(q) == Some(b),
    ensures
        moved(seq![NodeView { data: a, path: p }], root, b.kind, Axis::Next) == seq![
            NodeView { data: b, path: q },
        ],
        moved(seq![NodeView { data: b, path: q }], root, a.kind, Axis::Prev) == seq![
            NodeView { data: a, path: p },
        ],
{
    let ma = NodeView { data: a, path: p };
    let mb = NodeView { data: b, path: q };
    let top = Seq::<i64>::empty();
    assert(p.skip(0) =~= p);
    assert(q.skip(0) =~= q);
    assert(p.take(0) =~= top);
    assert(q.take(0) =~= top);
    lemma_element_path(root, p);
    assert(prev_sibling_of(q) == Some(p));
    // from a to b
    let all_b = hits(root, b.kind, top, None);
    lemma_walk_finds_exactly(root, b.kind, top, None, mb);
    lemma_walk_in_order(root, b.kind, top, None);
    let to_b = reached(Axis::Next, seq![ma]);
    assert forall|m: NodeView| #[trigger] to_b(m) <==> m.path == mb.path by {
        if m.path == q {
            assert(seq![ma][0].path == p);
        }
    }
    lemma_filter_single(all_b, to_b, mb);
    // from b to a
    let all_a = hits(root, a.kind, top, None);
    lemma_walk_finds_exactly(root, a.kind, top, None, ma);
    lemma_walk_in_order(root, a.kind, top, None);
    let to_a = reached(Axis::Prev, seq![mb]);
    assert forall|m: NodeView| #[trigger] to_a(m) <==> m.path == ma.path by {
        if m.path == p {
            assert(seq![mb][0].path == q);
        }
    }
    lemma_filter_single(all_a, to_a, ma);
}

/// `v` is the least slot that a match of `held` takes under the parent `up`.
pub open spec fn least_slot(held: Seq<NodeView>, up: Seq<i64>, v: int) -> bool {
    &&& exists|i: int|
        0 <= i < held.len() && parent_of((#[trigger] held[i]).path) == Some(up)
            && held[i].path.last() == v
    &&& forall|i: int|
        0 <= i < held.len() && parent_of((#[trigger] held[i]).path) == Some(up) ==> v
            <= held[i].path.last()
}

/// `v` is the greatest slot that a match of `held` takes under the parent
/// `up`.
pub open spec fn greatest_slot(held: Seq<NodeView>, up: Seq<i64>, v: int) -> bool {
    &&& exists|i: int|
        0 <= i < held.len() && parent_of((#[trigger] held[i]).path) == Some(up)
            && held[i].path.last() == v
    &&& forall|i: int|
        0 <= i < held.len() && parent_of((#[trigger] held[i]).path) == Some(up)
            ==> held[i].path.last() <= v
}

/// No match of `held` stands under the parent `up`.
pub open spec fn none_under(held: Seq<NodeView>, up: Seq<i64>) -> bool {
    forall|i: int| 0 <= i < held.len() ==> parent_of((#[trigger] held[i]).path) != Some(up)
}

/// `next_all` keeps, under each parent, what lies beyond the least slot that
/// a held match takes there.
pub proof fn lemma_next_all_bound(held: Seq<NodeView>, m: NodeView, v: int)
    requires
        m.path.len() > 0,
        least_slot(held, m.path.drop_last(), v),
    ensures
        reached(Axis::Following, held)(m) <==> v < m.path.last(),
{
}

/// `prev_all` keeps, under each parent, what lies before the greatest slot
/// that a held match takes there.
pub proof fn lemma_prev_all_bound(held: Seq<NodeView>, m: NodeView, v: int)
    requires
        m.path.len() > 0,
        greatest_slot(held, m.path.drop_last(), v),
    ensures
        reached(Axis::Preceding, held)(m) <==> m.path.last() < v,
{
}

/// Where the held matches under a parent all take one slot, `siblings`
/// leaves out that slot and nothing else.
pub proof fn lemma_siblings_of_one(held: Seq<NodeView>, m: NodeView, v: int)
    requires
        m.path.len() > 0,
        least_slot(held, m.path.drop_last(), v),
        greatest_slot(held, m.path.drop_last(), v),
    ensures
        reached(Axis::Sibling, held)(m) <==> m.path.last() != v,
{
    if reached(Axis::Sibling, held)(m) {
        let i = choose|i: int|
            0 <= i < held.len() && on_axis(
                Axis::Sibling,
                (#[trigger] held[i]).path,
                m.path,
            );
        if m.path.last() == v {
            assert(held[i].path.drop_last().push(held[i].path.last()) =~= held[i].path);
            assert(m.path.drop_last().push(m.path.last()) =~= m.path);
        }
    }
}

/// Where the held matches under a parent take more than one slot,
/// `siblings` leaves out none.
pub proof fn lemma_siblings_of_several(held: Seq<NodeView>, m: NodeView, v: int, w: int)
    requires
        m.path.len() > 0,
        least_slot(held, m.path.drop_last(), v),
        greatest_slot(held, m.path.drop_last(), w),
        v < w,
    ensures
        reached(Axis::Sibling, held)(m),
{
}

/// From a parent under which no held match stands, the operators that stay
/// among siblings take nothing; and they never take the root.
pub proof fn lemma_siblings_need_held(held: Seq<NodeView>, m: NodeView)
    requires
        m.path.len() == 0 || none_under(held, m.path.drop_last()),
    ensures
        !reached(Axis::Following, held)(m),
        !reached(Axis::Preceding, held)(m),
        !reached(Axis::Sibling, held)(m),
        !reached(Axis::Next, held)(m),
        !reached(Axis::Prev, held)(m),
{
    assert forall|i: int| 0 <= i < held.len() implies !on_axis(
        Axis::Next,
        (#[trigger] held[i]).path,
        m.path,
    ) by {
        let h = held[i].path;
        if next_sibling_of(h) == Some(m.path) {
            assert(m.path.drop_last() =~= h.drop_last());
        }
    }
    assert forall|i: int| 0 <= i < held.len() implies !on_axis(
        Axis::Prev,
        (#[trigger] held[i]).path,
        m.path,
    ) by {
        let h = held[i].path;
        if prev_sibling_of(h) == Some(m.path) {
            assert(m.path.drop_last() =~= h.drop_last());
        }
    }
}

/// What is chosen by its flag is a flagged match.
pub proof fn lemma_chosen_member(s: Seq<NodeView>, flags: Seq<bool>, want: bool, x: NodeView)
    requires
        flags.len() == s.len(),
    ensures
        chosen(s, flags, want).contains(x) <==> exists|j: int|
            0 <= j < s.len() && flags[j] == want && #[trigger] s[j] == x,
    decreases s.len(),
{
    let r = chosen(s, flags, want);
    if s.len() > 0 {
        let front = s.drop_last();
        let fl = flags.drop_last();
        let f = chosen(front, fl, want);
        lemma_chosen_member(front, fl, want, x);
        if exists|j: int| 0 <= j < s.len() && flags[j] == want && #[trigger] s[j] == x {
            let j = choose|j: int| 0 <= j < s.len() && flags[j] == want && #[trigger] s[j] == x;
            if j < front.len() {
                assert(fl[j] == want && front[j] == x);
                let k = choose|k: int| 0 <= k < f.len() && f[k] == x;
                assert(r[k] == x);
            } else {
                assert(r[r.len() - 1] == x);
            }
        }
    }
}

/// `next_until` keeps, under each parent, what lies before the least slot
/// of which the predicate said yes.
pub proof fn lemma_next_until_bound(all: Seq<NodeView>, flags: Seq<bool>, m: NodeView, v: int)
    requires
        flags.len() == all.len(),
        m.path.len() > 0,
        least_slot(chosen(all, flags, true), m.path.drop_last(), v),
    ensures
        short_of(all, flags, Axis::Following)(m) <==> m.path.last() < v,
{
    let up = m.path.drop_last();
    let stops = chosen(all, flags, true);
    if !(m.path.last() < v) {
        let i = choose|i: int|
            0 <= i < stops.len() && parent_of((#[trigger] stops[i]).path) == Some(up)
                && stops[i].path.last() == v;
        lemma_chosen_member(all, flags, true, stops[i]);
        let j = choose|j: int|
            0 <= j < all.len() && flags[j] == true && #[trigger] all[j] == stops[i];
        if all[j].path != m.path {
            assert(all[j].path.drop_last().push(all[j].path.last()) =~= all[j].path);
            assert(m.path.drop_last().push(m.path.last()) =~= m.path);
        }
    }
    if !short_of(all, flags, Axis::Following)(m) {
        let j = choose|j: int|
            0 <= j < all.len() && flags[j] && ((#[trigger] all[j]).path == m.path
                || on_axis(Axis::Following, all[j].path, m.path));
        lemma_chosen_member(all, flags, true, all[j]);
    }
}

/// `prev_until` keeps, under each parent, what lies after the greatest slot
/// of which the predicate said yes.
pub proof fn lemma_prev_until_bound(all: Seq<NodeView>, flags: Seq<bool>, m: NodeView, v: int)
    requires
        flags.len() == all.len(),
        m.path.len() > 0,
        greatest_slot(chosen(all, flags, true), m.path.drop_last(), v),
    ensures
        short_of(all, flags, Axis::Preceding)(m) <==> v < m.path.last(),
{
    let up = m.path.drop_last();
    let stops = chosen(all, flags, true);
    if !(v < m.path.last()) {
        let i = choose|i: int|
            0 <= i < stops.len() && parent_of((#[trigger] stops[i]).path) == Some(up)
                && stops[i].path.last() == v;
        lemma_chosen_member(all, flags, true, stops[i]);
        let j = choose|j: int|
            0 <= j < all.len() && flags[j] == true && #[trigger] all[j] == stops[i];
        if all[j].path != m.path {
            assert(all[j].path.drop_last().push(all[j].path.last()) =~= all[j].path);
            assert(m.path.drop_last().push(m.path.last()) =~= m.path);
        }
    }
    if !short_of(all, flags, Axis::Preceding)(m) {
        let j = choose|j: int|
            0 <= j < all.len() && flags[j] && ((#[trigger] all[j]).path == m.path
                || on_axis(Axis::Preceding, all[j].path, m.path));
        lemma_chosen_member(all, flags, true, all[j]);
    }
}

/// Where the predicate said yes of nothing under a parent, the operators
/// that stop at a yes keep all that stands under that parent.
pub proof fn lemma_until_unbounded(all: Seq<NodeView>, flags: Seq<bool>, m: NodeView, axis: Axis)
    requires
        flags.len() == all.len(),
        m.path.len() > 0,
        axis is Following || axis is Preceding,
        none_under(chosen(all, flags, true), m.path.drop_last()),
    ensures
        short_of(all, flags, axis)(m),
{
    if !short_of(all, flags, axis)(m) {
        let j = choose|j: int|
            0 <= j < all.len() && flags[j] && ((#[trigger] all[j]).path == m.path
                || on_axis(axis, all[j].path, m.path));
        lemma_chosen_member(all, flags, true, all[j]);
    }
}

} // verus!
