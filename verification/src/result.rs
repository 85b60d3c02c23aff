//! Selections: the matches of a query, held in document order together with
//! the tree they were found in.

use vstd::prelude::*;
use vstd::std_specs::iter::IteratorSpec;
use crate::axis::{on_axis, reaches, Axis};
use crate::order::{
    increasing, lemma_filter_increasing, lemma_normalize_increasing, normalize, place,
};
use crate::path::{copy_path, same};
use crate::tree::{depth_of, hits, views, Kind, Node, NodeView, Tree, TreeView};
use crate::walk::lemma_walk_in_order;

verus! {

/// The matches that the walks of the first `n` of `held` yield, one walk
/// after the other, each from the path of its match.
pub open spec fn gathered(held: Seq<NodeView>, n: nat, kind: Kind, depth: Option<nat>) -> Seq<
    NodeView,
>
    decreases n,
{
    if n == 0 || n > held.len() {
        Seq::empty()
    } else {
        gathered(held, (n - 1) as nat, kind, depth) + hits(
            held[n - 1].data,
            kind,
            held[n - 1].path,
            depth,
        )
    }
}

/// The match at `index`, counted from the front where `index` is not
/// negative and from the back where it is; none outside the sequence.
pub open spec fn nth(s: Seq<NodeView>, index: int) -> Option<NodeView> {
    if 0 <= index < s.len() {
        Some(s[index])
    } else if -s.len() <= index < 0 {
        Some(s[s.len() + index])
    } else {
        None
    }
}

/// The model of an optional match.
pub open spec fn node_view(n: Option<Node>) -> Option<NodeView> {
    match n {
        Some(n) => Some(n@),
        None => None,
    }
}

/// The matches to which `axis` leads from one of `held`.
pub open spec fn reached(axis: Axis, held: Seq<NodeView>) -> spec_fn(NodeView) -> bool {
    |m: NodeView|
        exists|i: int| 0 <= i < held.len() && on_axis(axis, (#[trigger] held[i]).path, m.path)
}

/// The elements of `kind` in the tree `root` to which `axis` leads from one
/// of `held`, in document order.
pub open spec fn moved(held: Seq<NodeView>, root: TreeView, kind: Kind, axis: Axis) -> Seq<
    NodeView,
> {
    hits(root, kind, Seq::empty(), None).filter(reached(axis, held))
}

/// `flags` holds, for each of `items` in turn, an answer that `pred` gives
/// of it.
pub open spec fn verdicts<P: Fn(&Node) -> bool>(
    pred: P,
    items: Seq<Node>,
    flags: Seq<bool>,
) -> bool {
    &&& flags.len() == items.len()
    &&& forall|i: int|
        0 <= i < items.len() ==> call_ensures(pred, (&#[trigger] items[i],), flags[i])
}

/// The matches of `s` whose flag is `want`, in their order.
pub open spec fn chosen(s: Seq<NodeView>, flags: Seq<bool>, want: bool) -> Seq<NodeView>
    decreases s.len(),
{
    if s.len() == 0 || flags.len() != s.len() {
        Seq::empty()
    } else {
        let rest = chosen(s.drop_last(), flags.drop_last(), want);
        if flags.last() == want {
            rest.push(s.last())
        } else {
            rest
        }
    }
}

/// `b` is what `f` may make of a copy of the match `m`.
pub open spec fn made_of<B, F: Fn(Node) -> B>(f: F, m: NodeView, b: B) -> bool {
    exists|n: Node| n@ == m && #[trigger] call_ensures(f, (n,), b)
}

/// The matches that are not flagged themselves and to which `axis` leads
/// from no flagged match of `all`.
pub open spec fn short_of(all: Seq<NodeView>, flags: Seq<bool>, axis: Axis) -> spec_fn(
    NodeView,
) -> bool {
    |m: NodeView|
        !exists|j: int|
            0 <= j < all.len() && flags[j] && ((#[trigger] all[j]).path == m.path || on_axis(
                axis,
                all[j].path,
                m.path,
            ))
}

/// The matches of `all` up to the first flagged one under each parent, as
/// seen along `axis`.
pub open spec fn until(all: Seq<NodeView>, flags: Seq<bool>, axis: Axis) -> Seq<NodeView> {
    all.filter(short_of(all, flags, axis))
}

/// What is chosen from a selection is a selection.
pub proof fn lemma_chosen_increasing(s: Seq<NodeView>, flags: Seq<bool>, want: bool)
    requires
        increasing(s),
    ensures
        increasing(chosen(s, flags, want)),
        forall|k: int|
            0 <= k < chosen(s, flags, want).len() ==> s.contains(
                #[trigger] chosen(s, flags, want)[k],
            ),
    decreases s.len(),
{
    if s.len() > 0 && flags.len() == s.len() {
        let front = s.drop_last();
        lemma_chosen_increasing(front, flags.drop_last(), want);
    }
}

/// The matches of a query, in document order and one to a path, with the
/// tree in which its structural operators look for more.
#[derive(Debug)]
pub struct QueryResult {
    nodes: Vec<Node>,
    root: Tree,
}

impl View for QueryResult {
    type V = Seq<NodeView>;

    open spec fn view(&self) -> Seq<NodeView> {
        views(self.items())
    }
}

impl QueryResult {
    /// The matches as they are held.
    pub closed spec fn items(&self) -> Seq<Node> {
        self.nodes@
    }

    /// The model of the tree that the selection was made in.
    pub closed spec fn root_view(&self) -> TreeView {
        self.root@
    }

    /// What holds of every selection: its matches stand in document order,
    /// one to a path.
    #[verifier::type_invariant]
    pub open spec fn in_order(self) -> bool {
        increasing(self@)
    }

    /// A selection of `result` in `root`: the matches in document order, of
    /// those that share a path the first.
    pub fn new(result: Vec<Node>, root: Tree) -> (r: QueryResult)
        ensures
            r@ == normalize(views(result@)),
            r.root_view() == root@,
            increasing(r@),
    {
        let ghost given = views(result@);
        let mut nodes: Vec<Node> = Vec::new();
        for n in it: result
            invariant
                it.seq() == result@,
                views(nodes@) == normalize(views(it.seq().take(it.index() as int))),
        {
            proof {
                let upto = views(it.seq().take(it.index() + 1));
                assert(upto.drop_last() =~= views(it.seq().take(it.index() as int)));
            }
            place(&mut nodes, n);
        }
        proof {
            assert(result@.take(result@.len() as int) =~= result@);
            lemma_normalize_increasing(given);
        }
        QueryResult { nodes, root }
    }

    /// How many matches the selection holds.
    pub fn len(&self) -> (n: usize)
        ensures
            n == self@.len(),
    {
        self.nodes.len()
    }

    /// Whether the selection holds any match.
    pub fn has(&self) -> (b: bool)
        ensures
            b == (self@.len() > 0),
    {
        self.nodes.len() > 0
    }

    /// The held matches, one after the other in document order.
    pub fn iter(&self) -> (it: core::slice::Iter<'_, Node>)
        ensures
            it.remaining() == self.items().as_ref(),
    {
        self.nodes.iter()
    }

    /// The tree that the selection was made in.
    pub fn root(&self) -> (t: &Tree)
        ensures
            t@ == self.root_view(),
    {
        &self.root
    }

    /// The match at `index` in document order; a negative `index` counts
    /// from the end, -1 being the last match.
    pub fn eq(&self, index: isize) -> (r: Option<Node>)
        ensures
            node_view(r) == nth(self@, index as int),
    {
        let len: usize = self.nodes.len();
        if index >= 0 {
            let id: usize = index as usize;
            if id < len {
                Some(self.nodes[id].clone())
            } else {
                None
            }
        } else {
            let back: usize = (-(index + 1)) as usize;
            if back < len {
                Some(self.nodes[len - 1 - back].clone())
            } else {
                None
            }
        }
    }

    /// The first match in document order.
    pub fn first(&self) -> (r: Option<Node>)
        ensures
            node_view(r) == nth(self@, 0),
    {
        self.eq(0)
    }

    /// The last match in document order.
    pub fn last(&self) -> (r: Option<Node>)
        ensures
            node_view(r) == nth(self@, -1),
    {
        self.eq(-1)
    }

    /// The elements of `kind` in what the held matches stand for, the walk
    /// of each going no deeper than `deep`.
    fn descend(&self, kind: Kind, deep: Option<usize>) -> (r: QueryResult)
        ensures
            r@ == normalize(gathered(self@, self@.len(), kind, depth_of(deep))),
            r.root_view() == self.root_view(),
            increasing(r@),
    {
        let mut all: Vec<Node> = Vec::new();
        let mut i: usize = 0;
        while i < self.nodes.len()
            invariant
                i <= self.nodes.len(),
                views(all@) == gathered(self@, i as nat, kind, depth_of(deep)),
            decreases self.nodes.len() - i,
        {
            let held = &self.nodes[i];
            let mut at = copy_path(&held.path);
            held.data.walk(kind, &mut at, deep, &mut all);
            i += 1;
        }
        QueryResult::new(all, self.root.clone())
    }

    /// Every element of `kind` in what the held matches stand for,
    /// themselves included.
    pub fn query(&self, kind: Kind) -> (r: QueryResult)
        ensures
            r@ == normalize(gathered(self@, self@.len(), kind, None)),
            r.root_view() == self.root_view(),
            increasing(r@),
    {
        self.descend(kind, None)
    }

    /// The same as `query`.
    pub fn find(&self, kind: Kind) -> (r: QueryResult)
        ensures
            r@ == normalize(gathered(self@, self@.len(), kind, None)),
            r.root_view() == self.root_view(),
            increasing(r@),
    {
        self.descend(kind, None)
    }

    /// The elements of `kind` among the held matches and their immediate
    /// children.
    pub fn children(&self, kind: Kind) -> (r: QueryResult)
        ensures
            r@ == normalize(gathered(self@, self@.len(), kind, Some(1nat))),
            r.root_view() == self.root_view(),
            increasing(r@),
    {
        self.descend(kind, Some(1))
    }

    /// Whether `axis` leads from one of the held matches to `p`.
    fn leads_to(&self, axis: Axis, p: &Vec<i64>) -> (b: bool)
        ensures
            b == exists|i: int|
                0 <= i < self@.len() && on_axis(axis, (#[trigger] self@[i]).path, p@),
    {
        let mut i: usize = 0;
        while i < self.nodes.len()
            invariant
                i <= self.nodes.len(),
                forall|j: int| 0 <= j < i ==> !on_axis(axis, (#[trigger] self@[j]).path, p@),
            decreases self.nodes.len() - i,
        {
            if reaches(axis, &self.nodes[i].path, p) {
                assert(on_axis(axis, self@[i as int].path, p@));
                return true;
            }
            i += 1;
        }
        false
    }

    /// The elements of `kind` in the tree to which `axis` leads from one of
    /// the held matches.
    fn select(&self, kind: Kind, axis: Axis) -> (r: QueryResult)
        ensures
            r@ == moved(self@, self.root_view(), kind, axis),
            r.root_view() == self.root_view(),
            increasing(r@),
    {
        let mut at: Vec<i64> = Vec::new();
        let mut all: Vec<Node> = Vec::new();
        self.root.walk(kind, &mut at, None, &mut all);
        let ghost found = views(all@);
        let ghost keep = reached(axis, self@);
        let mut kept: Vec<Node> = Vec::new();
        for c in it: all
            invariant
                it.seq() == all@,
                found == views(all@),
                keep == reached(axis, self@),
                views(kept@) == found.take(it.index() as int).filter(keep),
        {
            let ghost k = it.index() as int;
            let is_kept = self.leads_to(axis, &c.path);
            proof {
                reveal(Seq::filter);
                assert(found.take(k + 1).drop_last() =~= found.take(k));
            }
            if is_kept {
                kept.push(c);
            }
        }
        proof {
            assert(found.take(found.len() as int) =~= found);
            use_type_invariant(&self.root);
            lemma_walk_in_order(self.root@, kind, Seq::empty(), None);
            lemma_filter_increasing(found, keep);
        }
        QueryResult { nodes: kept, root: self.root.clone() }
    }

    /// The elements of `kind` that are the parent of a held match.
    pub fn parent(&self, kind: Kind) -> (r: QueryResult)
        ensures
            r@ == moved(self@, self.root_view(), kind, Axis::Parent),
            r.root_view() == self.root_view(),
            increasing(r@),
    {
        self.select(kind, Axis::Parent)
    }

    /// The elements of `kind` that stand above a held match, up to the root.
    pub fn parents(&self, kind: Kind) -> (r: QueryResult)
        ensures
            r@ == moved(self@, self.root_view(), kind, Axis::Ancestor),
            r.root_view() == self.root_view(),
            increasing(r@),
    {
        self.select(kind, Axis::Ancestor)
    }

    /// The elements of `kind` in the slot right after a held match. A slot
    /// that holds another kind gives nothing, also where a match of `kind`
    /// comes later.
    pub fn next(&self, kind: Kind) -> (r: QueryResult)
        ensures
            r@ == moved(self@, self.root_view(), kind, Axis::Next),
            r.root_view() == self.root_view(),
            increasing(r@),
    {
        self.select(kind, Axis::Next)
    }

    /// The elements of `kind` in the slot right before a held match.
    pub fn prev(&self, kind: Kind) -> (r: QueryResult)
        ensures
            r@ == moved(self@, self.root_view(), kind, Axis::Prev),
            r.root_view() == self.root_view(),
            increasing(r@),
    {
        self.select(kind, Axis::Prev)
    }

    /// The elements of `kind` in a later slot than a held match under the
    /// same parent: those beyond the first held match under that parent.
    pub fn next_all(&self, kind: Kind) -> (r: QueryResult)
        ensures
            r@ == moved(self@, self.root_view(), kind, Axis::Following),
            r.root_view() == self.root_view(),
            increasing(r@),
    {
        self.select(kind, Axis::Following)
    }

    /// The elements of `kind` in an earlier slot than a held match under the
    /// same parent: those before the last held match under that parent.
    pub fn prev_all(&self, kind: Kind) -> (r: QueryResult)
        ensures
            r@ == moved(self@, self.root_view(), kind, Axis::Preceding),
            r.root_view() == self.root_view(),
            increasing(r@),
    {
        self.select(kind, Axis::Preceding)
    }

    /// The elements of `kind` that share the parent of a held match and are
    /// not that match. Where two held matches share a parent, that is every
    /// element of `kind` under it.
    pub fn siblings(&self, kind: Kind) -> (r: QueryResult)
        ensures
            r@ == moved(self@, self.root_view(), kind, Axis::Sibling),
            r.root_view() == self.root_view(),
            increasing(r@),
    {
        self.select(kind, Axis::Sibling)
    }

    /// What `predicate` says of each held match.
    fn ask<P: Fn(&Node) -> bool>(&self, predicate: &P) -> (flags: Vec<bool>)
        requires
            forall|i: int|
                0 <= i < self.items().len() ==> call_requires(
                    *predicate,
                    (&#[trigger] self.items()[i],),
                ),
        ensures
            verdicts(*predicate, self.items(), flags@),
    {
        let mut flags: Vec<bool> = Vec::new();
        let mut i: usize = 0;
        while i < self.nodes.len()
            invariant
                i <= self.nodes.len(),
                flags.len() == i,
                forall|j: int|
                    0 <= j < self.items().len() ==> call_requires(
                        *predicate,
                        (&#[trigger] self.items()[j],),
                    ),
                forall|j: int|
                    0 <= j < i ==> call_ensures(
                        *predicate,
                        (&#[trigger] self.items()[j],),
                        flags@[j],
                    ),
            decreases self.nodes.len() - i,
        {
            assert(self.items()[i as int] == self.nodes@[i as int]);
            let said = predicate(&self.nodes[i]);
            flags.push(said);
            i += 1;
        }
        flags
    }

    /// The held matches whose flag is `want`.
    fn pick(&self, flags: &Vec<bool>, want: bool) -> (r: QueryResult)
        requires
            flags@.len() == self@.len(),
        ensures
            r@ == chosen(self@, flags@, want),
            r.root_view() == self.root_view(),
            increasing(r@),
    {
        let mut kept: Vec<Node> = Vec::new();
        let mut i: usize = 0;
        while i < self.nodes.len()
            invariant
                i <= self.nodes.len(),
                flags@.len() == self.nodes.len(),
                views(kept@) == chosen(self@.take(i as int), flags@.take(i as int), want),
            decreases self.nodes.len() - i,
        {
            proof {
                assert(self@.take(i + 1).drop_last() =~= self@.take(i as int));
                assert(flags@.take(i + 1).drop_last() =~= flags@.take(i as int));
            }
            if flags[i] == want {
                let n = self.nodes[i].clone();
                kept.push(n);
            }
            i += 1;
        }
        proof {
            assert(self@.take(self@.len() as int) =~= self@);
            assert(flags@.take(flags@.len() as int) =~= flags@);
            use_type_invariant(self);
            lemma_chosen_increasing(self@, flags@, want);
        }
        QueryResult { nodes: kept, root: self.root.clone() }
    }

    /// Whether a flagged held match stands at `p` or `axis` leads from one
    /// to `p`.
    fn barred(&self, flags: &Vec<bool>, axis: Axis, p: &Vec<i64>) -> (b: bool)
        requires
            flags@.len() == self@.len(),
        ensures
            b == exists|j: int|
                0 <= j < self@.len() && flags@[j] && ((#[trigger] self@[j]).path == p@ || on_axis(
                    axis,
                    self@[j].path,
                    p@,
                )),
    {
        let mut j: usize = 0;
        while j < self.nodes.len()
            invariant
                j <= self.nodes.len(),
                flags@.len() == self.nodes.len(),
                forall|k: int|
                    0 <= k < j ==> !(flags@[k] && ((#[trigger] self@[k]).path == p@ || on_axis(
                        axis,
                        self@[k].path,
                        p@,
                    ))),
            decreases self.nodes.len() - j,
        {
            if flags[j] && (same(&self.nodes[j].path, p) || reaches(axis, &self.nodes[j].path, p)) {
                assert(flags@[j as int] && (self@[j as int].path == p@ || on_axis(
                    axis,
                    self@[j as int].path,
                    p@,
                )));
                return true;
            }
            j += 1;
        }
        false
    }

    /// The held matches that are not flagged and to which `axis` leads from
    /// no flagged one.
    fn cut(&self, flags: &Vec<bool>, axis: Axis) -> (r: QueryResult)
        requires
            flags@.len() == self@.len(),
        ensures
            r@ == until(self@, flags@, axis),
            r.root_view() == self.root_view(),
            increasing(r@),
    {
        let ghost keep = short_of(self@, flags@, axis);
        let mut kept: Vec<Node> = Vec::new();
        let mut i: usize = 0;
        while i < self.nodes.len()
            invariant
                i <= self.nodes.len(),
                flags@.len() == self.nodes.len(),
                keep == short_of(self@, flags@, axis),
                views(kept@) == self@.take(i as int).filter(keep),
            decreases self.nodes.len() - i,
        {
            let m = &self.nodes[i];
            let stopped = self.barred(flags, axis, &m.path);
            proof {
                reveal(Seq::filter);
                assert(self@.take(i + 1).drop_last() =~= self@.take(i as int));
            }
            if !stopped {
                let n = m.clone();
                kept.push(n);
            }
            i += 1;
        }
        proof {
            assert(self@.take(self@.len() as int) =~= self@);
            use_type_invariant(self);
            lemma_filter_increasing(self@, keep);
        }
        QueryResult { nodes: kept, root: self.root.clone() }
    }

    /// The held matches of which `predicate` says yes.
    pub fn filter<P: Fn(&Node) -> bool>(&self, predicate: P) -> (r: QueryResult)
        requires
            forall|i: int|
                0 <= i < self.items().len() ==> call_requires(
                    predicate,
                    (&#[trigger] self.items()[i],),
                ),
        ensures
            exists|flags: Seq<bool>|
                #[trigger] verdicts(predicate, self.items(), flags) && r@ == chosen(
                    self@,
                    flags,
                    true,
                ),
            r.root_view() == self.root_view(),
            increasing(r@),
    {
        let flags = self.ask(&predicate);
        self.pick(&flags, true)
    }

    /// The held matches of which `predicate` says no.
    pub fn not<P: Fn(&Node) -> bool>(&self, predicate: P) -> (r: QueryResult)
        requires
            forall|i: int|
                0 <= i < self.items().len() ==> call_requires(
                    predicate,
                    (&#[trigger] self.items()[i],),
                ),
        ensures
            exists|flags: Seq<bool>|
                #[trigger] verdicts(predicate, self.items(), flags) && r@ == chosen(
                    self@,
                    flags,
                    false,
                ),
            r.root_view() == self.root_view(),
            increasing(r@),
    {
        let flags = self.ask(&predicate);
        self.pick(&flags, false)
    }

    /// Whether `f` says yes of any held match. The matches are asked in
    /// document order, up to the first yes.
    pub fn is<F: Fn(&Node) -> bool>(&self, f: F) -> (b: bool)
        requires
            forall|i: int|
                0 <= i < self.items().len() ==> call_requires(f, (&#[trigger] self.items()[i],)),
        ensures
            b ==> exists|i: int|
                0 <= i < self.items().len() && call_ensures(
                    f,
                    (&#[trigger] self.items()[i],),
                    true,
                ),
            !b ==> forall|i: int|
                0 <= i < self.items().len() ==> call_ensures(
                    f,
                    (&#[trigger] self.items()[i],),
                    false,
                ),
    {
        let mut i: usize = 0;
        while i < self.nodes.len()
            invariant
                i <= self.nodes.len(),
                forall|j: int|
                    0 <= j < self.items().len() ==> call_requires(
                        f,
                        (&#[trigger] self.items()[j],),
                    ),
                forall|j: int|
                    0 <= j < i ==> call_ensures(f, (&#[trigger] self.items()[j],), false),
            decreases self.nodes.len() - i,
        {
            assert(self.items()[i as int] == self.nodes@[i as int]);
            if f(&self.nodes[i]) {
                return true;
            }
            i += 1;
        }
        false
    }

    /// What `f` makes of a copy of each held match, in document order.
    pub fn map<B, F: Fn(Node) -> B>(&self, f: F) -> (out: Vec<B>)
        requires
            forall|n: Node| self@.contains(n@) ==> call_requires(f, (n,)),
        ensures
            out@.len() == self@.len(),
            forall|i: int| 0 <= i < self@.len() ==> made_of(f, self@[i], #[trigger] out@[i]),
    {
        let mut out: Vec<B> = Vec::new();
        let mut i: usize = 0;
        while i < self.nodes.len()
            invariant
                i <= self.nodes.len(),
                out@.len() == i,
                forall|n: Node| self@.contains(n@) ==> call_requires(f, (n,)),
                forall|j: int| 0 <= j < i ==> made_of(f, self@[j], #[trigger] out@[j]),
            decreases self.nodes.len() - i,
        {
            let n = self.nodes[i].clone();
            assert(self@[i as int] == n@);
            let b = f(n);
            out.push(b);
            i += 1;
        }
        out
    }

    /// The later siblings of the held matches that `next_all` gives, up to
    /// the first under each parent of which `predicate` says yes.
    pub fn next_until<P: Fn(&Node) -> bool>(&self, kind: Kind, predicate: P) -> (r: QueryResult)
        requires
            forall|n: Node|
                moved(self@, self.root_view(), kind, Axis::Following).contains(n@)
                    ==> #[trigger] call_requires(predicate, (&n,)),
        ensures
            exists|found: Seq<Node>, flags: Seq<bool>|
                views(found) == moved(self@, self.root_view(), kind, Axis::Following)
                    && #[trigger] verdicts(predicate, found, flags) && r@ == until(
                    views(found),
                    flags,
                    Axis::Following,
                ),
            r.root_view() == self.root_view(),
            increasing(r@),
    {
        self.select_until(kind, Axis::Following, predicate)
    }

    /// The earlier siblings of the held matches that `prev_all` gives, back
    /// to the last under each parent of which `predicate` says yes.
    pub fn prev_until<P: Fn(&Node) -> bool>(&self, kind: Kind, predicate: P) -> (r: QueryResult)
        requires
            forall|n: Node|
                moved(self@, self.root_view(), kind, Axis::Preceding).contains(n@)
                    ==> #[trigger] call_requires(predicate, (&n,)),
        ensures
            exists|found: Seq<Node>, flags: Seq<bool>|
                views(found) == moved(self@, self.root_view(), kind, Axis::Preceding)
                    && #[trigger] verdicts(predicate, found, flags) && r@ == until(
                    views(found),
                    flags,
                    Axis::Preceding,
                ),
            r.root_view() == self.root_view(),
            increasing(r@),
    {
        self.select_until(kind, Axis::Preceding, predicate)
    }

    /// What `axis` leads to, up to the first match under each parent of
    /// which `predicate` says yes.
    fn select_until<P: Fn(&Node) -> bool>(&self, kind: Kind, axis: Axis, predicate: P) -> (r:
        QueryResult)
        requires
            forall|n: Node|
                moved(self@, self.root_view(), kind, axis).contains(n@)
                    ==> #[trigger] call_requires(predicate, (&n,)),
        ensures
            exists|found: Seq<Node>, flags: Seq<bool>|
                views(found) == moved(self@, self.root_view(), kind, axis) && #[trigger] verdicts(
                    predicate,
                    found,
                    flags,
                ) && r@ == until(views(found), flags, axis),
            r.root_view() == self.root_view(),
            increasing(r@),
    {
        let all = self.select(kind, axis);
        assert forall|i: int| 0 <= i < all.items().len() implies call_requires(
            predicate,
            (&#[trigger] all.items()[i],),
        ) by {
            assert(all@[i] == all.items()[i]@);
        }
        let flags = all.ask(&predicate);
        let r = all.cut(&flags, axis);
        r
    }
}

impl Clone for QueryResult {
    fn clone(&self) -> (r: QueryResult)
        ensures
            r@ == self@,
            r.root_view() == self.root_view(),
    {
        let mut nodes: Vec<Node> = Vec::new();
        let mut i: usize = 0;
        while i < self.nodes.len()
            invariant
                i <= self.nodes.len(),
                views(nodes@) == self@.take(i as int),
            decreases self.nodes.len() - i,
        {
            let n = self.nodes[i].clone();
            proof {
                assert(self@.take(i as int).push(self@[i as int]) =~= self@.take(i + 1));
            }
            nodes.push(n);
            i += 1;
        }
        proof {
            use_type_invariant(self);
        }
        QueryResult { nodes, root: self.root.clone() }
    }
}

impl IntoIterator for QueryResult {
    type Item = Node;

    type IntoIter = std::vec::IntoIter<Node>;

    fn into_iter(self) -> (it: std::vec::IntoIter<Node>)
        ensures
            it.remaining() == self.items(),
    {
        self.nodes.into_iter()
    }
}

impl vstd::std_specs::core::IndexSpecImpl<usize> for QueryResult {
    open spec fn index_req(&self, index: &usize) -> bool {
        *index < self@.len()
    }
}

impl core::ops::Index<usize> for QueryResult {
    type Output = Node;

    fn index(&self, id: usize) -> (n: &Node)
        ensures
            *n == self.items()[id as int],
    {
        &self.nodes[id]
    }
}

} // verus!
