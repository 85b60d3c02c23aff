//! What holds of the matches that a walk yields.

use vstd::prelude::*;
use crate::order::increasing;
use crate::path::{is_prefix, lemma_ancestor_precedes, lemma_slots_in_order, precedes};
use crate::tree::{below, hits, hits_under, Kind, NodeView, TreeView};

verus! {

/// `m` is an element of `kind` in the tree `t` that stands at `at`, with the
/// path at which it then stands, no more than `depth` levels below `t`.
pub open spec fn stands_in(
    m: NodeView,
    t: TreeView,
    kind: Kind,
    at: Seq<i64>,
    depth: Option<nat>,
) -> bool {
    &&& is_prefix(at, m.path)
    &&& m.data.kind == kind
    &&& t.element_at(m.path.skip(at.len() as int)) == Some(m.data)
    &&& (depth matches Some(d) ==> m.path.len() <= at.len() + d)
}

/// `m` is such an element in one of the first `n` of `ts`, the children of
/// the element at `at`.
pub open spec fn stands_under(
    m: NodeView,
    ts: Seq<TreeView>,
    n: nat,
    kind: Kind,
    at: Seq<i64>,
    depth: Option<nat>,
) -> bool {
    exists|i: int| 0 <= i < n && #[trigger] stands_in(m, ts[i], kind, at.push(i as i64), depth)
}

/// The matches whose path is no longer than `len`.
pub open spec fn within(len: nat) -> spec_fn(NodeView) -> bool {
    |m: NodeView| m.path.len() <= len
}

/// A match stands in two sequences laid end to end exactly if it stands in one
/// of them.
pub proof fn lemma_concat_contains(a: Seq<NodeView>, b: Seq<NodeView>, m: NodeView)
    ensures
        (a + b).contains(m) <==> a.contains(m) || b.contains(m),
{
    if a.contains(m) {
        let i = choose|i: int| 0 <= i < a.len() && a[i] == m;
        assert((a + b)[i] == m);
    }
    if b.contains(m) {
        let i = choose|i: int| 0 <= i < b.len() && b[i] == m;
        assert((a + b)[a.len() + i] == m);
    }
}

/// An element below a child is an element below the parent, one level deeper.
proof fn lemma_stands_up(
    m: NodeView,
    t: TreeView,
    i: int,
    kind: Kind,
    at: Seq<i64>,
    depth: Option<nat>,
)
    requires
        t.children.len() <= i64::MAX,
        0 <= i < t.children.len(),
        depth != Some(0nat),
        stands_in(m, t.children[i], kind, at.push(i as i64), below(depth)),
    ensures
        stands_in(m, t, kind, at, depth),
        m.path.len() > at.len(),
        m.path[at.len() as int] == i,
{
    let n = at.len() as int;
    let sub = at.push(i as i64);
    assert(m.path.take(n + 1)[n] == sub[n]);
    assert(m.path.take(n) =~= at);
    let rel = m.path.skip(n);
    assert(rel.skip(1) =~= m.path.skip(n + 1));
}

/// An element that stands deeper than `t` stands below one of its children.
proof fn lemma_stands_down(
    m: NodeView,
    t: TreeView,
    kind: Kind,
    at: Seq<i64>,
    depth: Option<nat>,
)
    requires
        t.children.len() <= i64::MAX,
        stands_in(m, t, kind, at, depth),
        m.path.len() > at.len(),
    ensures
        depth != Some(0nat),
        stands_under(m, t.children, t.children.len(), kind, at, below(depth)),
{
    let n = at.len() as int;
    let rel = m.path.skip(n);
    let i = rel[0] as int;
    let sub = at.push(i as i64);
    assert(m.path.take(n + 1) =~= sub);
    assert(rel.skip(1) =~= m.path.skip(n + 1));
    assert(stands_in(m, t.children[i], kind, sub, below(depth)));
}

/// A walk yields exactly the elements of the kind within its depth, each with
/// the path at which it stands.
pub proof fn lemma_walk_finds_exactly(
    t: TreeView,
    kind: Kind,
    at: Seq<i64>,
    depth: Option<nat>,
    m: NodeView,
)
    requires
        t.well_formed(),
    ensures
        hits(t, kind, at, depth).contains(m) <==> stands_in(m, t, kind, at, depth),
    decreases t, 0nat,
{
    let me = NodeView { data: t, path: at };
    let here = if t.kind == kind {
        seq![me]
    } else {
        Seq::<NodeView>::empty()
    };
    assert(at.take(at.len() as int) =~= at);
    assert(here.contains(m) <==> (m == me && t.kind == kind)) by {
        if t.kind == kind {
            assert(here[0] == me);
        }
    }
    if stands_in(m, t, kind, at, depth) && m.path.len() == at.len() {
        assert(m.path.take(at.len() as int) =~= m.path);
    }
    if depth != Some(0nat) {
        let under = hits_under(t.children, t.children.len(), kind, at, below(depth));
        lemma_concat_contains(here, under, m);
        lemma_walk_under_finds_exactly(t.children, t.children.len(), kind, at, below(depth), m);
        if stands_under(m, t.children, t.children.len(), kind, at, below(depth)) {
            let i = choose|i: int|
                0 <= i < t.children.len() && #[trigger] stands_in(
                    m,
                    t.children[i],
                    kind,
                    at.push(i as i64),
                    below(depth),
                );
            lemma_stands_up(m, t, i, kind, at, depth);
        }
        if stands_in(m, t, kind, at, depth) && m.path.len() > at.len() {
            lemma_stands_down(m, t, kind, at, depth);
        }
    }
}

/// The walks of the first `n` children yield exactly the elements of the kind
/// that stand in one of them.
pub proof fn lemma_walk_under_finds_exactly(
    ts: Seq<TreeView>,
    n: nat,
    kind: Kind,
    at: Seq<i64>,
    depth: Option<nat>,
    m: NodeView,
)
    requires
        n <= ts.len(),
        forall|i: int| 0 <= i < ts.len() ==> (#[trigger] ts[i]).well_formed(),
    ensures
        hits_under(ts, n, kind, at, depth).contains(m) <==> stands_under(
            m,
            ts,
            n,
            kind,
            at,
            depth,
        ),
    decreases ts, n,
{
    if n > 0 {
        let front = hits_under(ts, (n - 1) as nat, kind, at, depth);
        let last = hits(ts[n - 1], kind, at.push((n - 1) as i64), depth);
        lemma_walk_under_finds_exactly(ts, (n - 1) as nat, kind, at, depth, m);
        lemma_walk_finds_exactly(ts[n - 1], kind, at.push((n - 1) as i64), depth, m);
        lemma_concat_contains(front, last, m);
    }
}

/// A walk yields its matches in document order, each path once.
pub proof fn lemma_walk_in_order(t: TreeView, kind: Kind, at: Seq<i64>, depth: Option<nat>)
    requires
        t.well_formed(),
    ensures
        increasing(hits(t, kind, at, depth)),
    decreases t, 0nat,
{
    let me = NodeView { data: t, path: at };
    let here = if t.kind == kind {
        seq![me]
    } else {
        Seq::<NodeView>::empty()
    };
    if depth != Some(0nat) {
        let under = hits_under(t.children, t.children.len(), kind, at, below(depth));
        lemma_walk_under_in_order(t.children, t.children.len(), kind, at, below(depth));
        assert forall|i: int, j: int|
            #![trigger here[i], under[j]]
            0 <= i < here.len() && 0 <= j < under.len() implies precedes(
            here[i].path,
            under[j].path,
        ) by {
            let m = under[j];
            lemma_walk_under_finds_exactly(
                t.children,
                t.children.len(),
                kind,
                at,
                below(depth),
                m,
            );
            let c = choose|c: int|
                0 <= c < t.children.len() && #[trigger] stands_in(
                    m,
                    t.children[c],
                    kind,
                    at.push(c as i64),
                    below(depth),
                );
            lemma_stands_up(m, t, c, kind, at, depth);
            lemma_ancestor_precedes(at, m.path);
        }
    }
}

/// The walks of the first `n` children, one after the other, yield their
/// matches in document order.
pub proof fn lemma_walk_under_in_order(
    ts: Seq<TreeView>,
    n: nat,
    kind: Kind,
    at: Seq<i64>,
    depth: Option<nat>,
)
    requires
        n <= ts.len() <= i64::MAX,
        forall|i: int| 0 <= i < ts.len() ==> (#[trigger] ts[i]).well_formed(),
    ensures
        increasing(hits_under(ts, n, kind, at, depth)),
    decreases ts, n,
{
    if n > 0 {
        let front = hits_under(ts, (n - 1) as nat, kind, at, depth);
        let last = hits(ts[n - 1], kind, at.push((n - 1) as i64), depth);
        lemma_walk_under_in_order(ts, (n - 1) as nat, kind, at, depth);
        lemma_walk_in_order(ts[n - 1], kind, at.push((n - 1) as i64), depth);
        assert forall|i: int, j: int|
            #![trigger front[i], last[j]]
            0 <= i < front.len() && 0 <= j < last.len() implies precedes(
            front[i].path,
            last[j].path,
        ) by {
            lemma_walk_under_finds_exactly(ts, (n - 1) as nat, kind, at, depth, front[i]);
            lemma_walk_finds_exactly(ts[n - 1], kind, at.push((n - 1) as i64), depth, last[j]);
            let c = choose|c: int|
                0 <= c < n - 1 && #[trigger] stands_in(
                    front[i],
                    ts[c],
                    kind,
                    at.push(c as i64),
                    depth,
                );
            lemma_slots_in_order(at, c as i64, (n - 1) as i64, front[i].path, last[j].path);
        }
    }
}

/// A walk that is bounded in depth yields the matches of the unbounded walk
/// that stand within the bound, and no others.
pub proof fn lemma_bounded_walk(t: TreeView, kind: Kind, at: Seq<i64>, d: nat)
    requires
        t.well_formed(),
    ensures
        hits(t, kind, at, Some(d)) == hits(t, kind, at, None).filter(within(at.len() + d)),
    decreases t, 0nat,
{
    let keep = within(at.len() + d);
    let me = NodeView { data: t, path: at };
    let here = if t.kind == kind {
        seq![me]
    } else {
        Seq::<NodeView>::empty()
    };
    let deep = hits_under(t.children, t.children.len(), kind, at, None);
    assert(here.filter(keep) == here) by {
        reveal_with_fuel(Seq::filter, 2);
    }
    if d == 0 {
        assert forall|j: int| 0 <= j < deep.len() implies !keep(#[trigger] deep[j]) by {
            let m = deep[j];
            lemma_walk_under_finds_exactly(t.children, t.children.len(), kind, at, None, m);
        }
        deep.lemma_all_neg_filter_empty(keep);
    } else {
        lemma_bounded_walk_under(t.children, t.children.len(), kind, at, (d - 1) as nat);
    }
}

/// The same of the walks of the first `n` children.
pub proof fn lemma_bounded_walk_under(ts: Seq<TreeView>, n: nat, kind: Kind, at: Seq<i64>, d: nat)
    requires
        n <= ts.len(),
        forall|i: int| 0 <= i < ts.len() ==> (#[trigger] ts[i]).well_formed(),
    ensures
        hits_under(ts, n, kind, at, Some(d)) == hits_under(ts, n, kind, at, None).filter(
            within(at.len() + 1 + d),
        ),
    decreases ts, n,
{
    if n > 0 {
        let sub = at.push((n - 1) as i64);
        lemma_bounded_walk_under(ts, (n - 1) as nat, kind, at, d);
        lemma_bounded_walk(ts[n - 1], kind, sub, d);
    }
}

} // verus!
