//! Where a query starts: at a tree.

use vstd::prelude::*;
use crate::order::{increasing, lemma_normalize_selection};
use crate::result::QueryResult;
use crate::tree::{depth_of, hits, views, Kind, Node, Tree, TreeView};
use crate::walk::lemma_walk_in_order;

verus! {

/// What can be searched for the elements of a kind.
pub trait Queryable: Sized {
    /// The tree that a search of this value goes through.
    spec fn shape(&self) -> TreeView;

    /// The elements of `kind` that a walk of this value meets, in document
    /// order, with the paths they have when the value itself stands at
    /// `base`. The walk looks at the value and at what is below it, with
    /// `deep` no more than that many levels down.
    fn visit(&self, kind: Kind, base: Vec<i64>, deep: Option<usize>) -> (found: Vec<Node>)
        ensures
            views(found@) == hits(self.shape(), kind, base@, depth_of(deep)),
    ;

    /// Every element of `kind` in this tree, its root included.
    fn query(&self, kind: Kind) -> (r: QueryResult)
        ensures
            r@ == hits(self.shape(), kind, Seq::empty(), None),
            r.root_view() == self.shape(),
            increasing(r@),
    ;

    /// The same as `query`.
    fn find(&self, kind: Kind) -> (r: QueryResult)
        ensures
            r@ == hits(self.shape(), kind, Seq::empty(), None),
            r.root_view() == self.shape(),
            increasing(r@),
    ;

    /// The elements of `kind` among the root of this tree and its immediate
    /// children.
    fn children(&self, kind: Kind) -> (r: QueryResult)
        ensures
            r@ == hits(self.shape(), kind, Seq::empty(), Some(1nat)),
            r.root_view() == self.shape(),
            increasing(r@),
    ;
}

impl Queryable for Tree {
    open spec fn shape(&self) -> TreeView {
        self@
    }

    fn visit(&self, kind: Kind, base: Vec<i64>, deep: Option<usize>) -> (found: Vec<Node>) {
        let mut at = base;
        let mut found: Vec<Node> = Vec::new();
        self.walk(kind, &mut at, deep, &mut found);
        found
    }

    fn query(&self, kind: Kind) -> (r: QueryResult) {
        query(self.clone(), kind)
    }

    fn find(&self, kind: Kind) -> (r: QueryResult) {
        query(self.clone(), kind)
    }

    fn children(&self, kind: Kind) -> (r: QueryResult) {
        children(self.clone(), kind)
    }
}

/// The selection of what a walk of `i` to `deep` yields.
fn start(i: Tree, kind: Kind, deep: Option<usize>) -> (r: QueryResult)
    ensures
        r@ == hits(i@, kind, Seq::empty(), depth_of(deep)),
        r.root_view() == i@,
        increasing(r@),
{
    let found = i.visit(kind, Vec::new(), deep);
    proof {
        use_type_invariant(&i);
        lemma_walk_in_order(i@, kind, Seq::empty(), depth_of(deep));
        lemma_normalize_selection(views(found@));
    }
    QueryResult::new(found, i)
}

/// Every element of `kind` in the tree `i`, its root included.
pub fn query(i: Tree, kind: Kind) -> (r: QueryResult)
    ensures
        r@ == hits(i@, kind, Seq::empty(), None),
        r.root_view() == i@,
        increasing(r@),
{
    start(i, kind, None)
}

/// The same as `query`.
pub fn find(i: Tree, kind: Kind) -> (r: QueryResult)
    ensures
        r@ == hits(i@, kind, Seq::empty(), None),
        r.root_view() == i@,
        increasing(r@),
{
    start(i, kind, None)
}

/// The elements of `kind` among the root of `i` and its immediate children.
pub fn children(i: Tree, kind: Kind) -> (r: QueryResult)
    ensures
        r@ == hits(i@, kind, Seq::empty(), Some(1nat)),
        r.root_view() == i@,
        increasing(r@),
{
    start(i, kind, Some(1))
}

} // verus!
