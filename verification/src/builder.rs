//! Building a tree from the steps of a walk.
//!
//! Whoever walks a structure of another shape says when an element is entered
//! and when it is left; the builder puts the tree together from that.

use vstd::prelude::*;
use crate::tree::{Kind, Tree, TreeView};

verus! {

/// The model of a builder: the elements that were entered and not yet left,
/// the outermost first, each with the children it has so far, and the last
/// tree that was completed.
pub struct BuilderView {
    pub pending: Seq<TreeView>,
    pub finished: Option<TreeView>,
}

/// A step of a walk.
pub enum Event {
    /// An element of this kind and name begins.
    Enter { kind: Kind, label: Seq<char> },
    /// The element that was entered last, and not yet left, ends.
    Leave,
}

/// The builder after an element was entered.
pub open spec fn entered(v: BuilderView, kind: Kind, label: Seq<char>) -> BuilderView {
    BuilderView {
        pending: v.pending.push(TreeView { kind, label, children: Seq::empty() }),
        finished: v.finished,
    }
}

/// An element can be left: one is pending, and the element around it has
/// room for one more child.
pub open spec fn can_leave(v: BuilderView) -> bool {
    v.pending.len() == 1 || (v.pending.len() >= 2 && v.pending[v.pending.len() - 2].children.len()
        < i64::MAX)
}

/// The builder after the innermost pending element was left: the element
/// has become the last child of the one around it, or the finished tree
/// where it was the outermost. Where no element can be left, nothing changes.
pub open spec fn left(v: BuilderView) -> BuilderView {
    let n = v.pending.len() as int;
    if !can_leave(v) {
        v
    } else if n == 1 {
        BuilderView { pending: Seq::empty(), finished: Some(v.pending[0]) }
    } else {
        let outer = v.pending[n - 2];
        let grown = TreeView { children: outer.children.push(v.pending[n - 1]), ..outer };
        BuilderView { pending: v.pending.take(n - 2).push(grown), finished: v.finished }
    }
}

/// The builder after one step.
pub open spec fn step(v: BuilderView, e: Event) -> BuilderView {
    match e {
        Event::Enter { kind, label } => entered(v, kind, label),
        Event::Leave => left(v),
    }
}

/// The builder after the steps `es`, taken in turn.
pub open spec fn run(v: BuilderView, es: Seq<Event>) -> BuilderView
    decreases es.len(),
{
    if es.len() == 0 {
        v
    } else {
        step(run(v, es.drop_last()), es.last())
    }
}

/// The steps of a walk of `t`: it is entered, its children are walked in
/// order, it is left.
pub open spec fn events(t: TreeView) -> Seq<Event>
    decreases t, 0nat,
{
    seq![Event::Enter { kind: t.kind, label: t.label }] + events_under(
        t.children,
        t.children.len(),
    ) + seq![Event::Leave]
}

/// The steps of the walks of the first `n` of `ts`, one walk after the other.
pub open spec fn events_under(ts: Seq<TreeView>, n: nat) -> Seq<Event>
    decreases ts, n,
{
    if n == 0 || n > ts.len() {
        Seq::empty()
    } else {
        events_under(ts, (n - 1) as nat) + events(ts[n - 1])
    }
}

/// Steps taken one run after another are one run.
pub proof fn lemma_run_concat(v: BuilderView, a: Seq<Event>, b: Seq<Event>)
    ensures
        run(v, a + b) == run(run(v, a), b),
    decreases b.len(),
{
    if b.len() == 0 {
        assert(a + b =~= a);
    } else {
        lemma_run_concat(v, a, b.drop_last());
        assert((a + b).drop_last() =~= a + b.drop_last());
    }
}

/// The builder in which the innermost pending element has `ts` as its next
/// children.
pub open spec fn extended(v: BuilderView, ts: Seq<TreeView>) -> BuilderView {
    let top = v.pending.last();
    BuilderView {
        pending: v.pending.drop_last().push(TreeView { children: top.children + ts, ..top }),
        finished: v.finished,
    }
}

/// The walk of a tree builds that tree: after its steps the tree is the
/// next child of the element that was pending, or the finished tree where
/// none was.
pub proof fn lemma_walk_builds(t: TreeView, v: BuilderView)
    requires
        t.well_formed(),
        v.pending.len() > 0 ==> v.pending.last().children.len() < i64::MAX,
    ensures
        v.pending.len() == 0 ==> run(v, events(t)) == (BuilderView {
            pending: Seq::empty(),
            finished: Some(t),
        }),
        v.pending.len() > 0 ==> run(v, events(t)) == extended(v, seq![t]),
    decreases t, 0nat,
{
    let enter = seq![Event::Enter { kind: t.kind, label: t.label }];
    let inner = events_under(t.children, t.children.len());
    let leave = seq![Event::Leave];
    let v1 = entered(v, t.kind, t.label);
    assert(run(v, enter) == v1) by {
        reveal_with_fuel(run, 2);
    }
    lemma_walk_under_builds(t.children, t.children.len(), v1);
    let v2 = run(v1, inner);
    lemma_run_concat(v, enter, inner);
    lemma_run_concat(v, enter + inner, leave);
    assert(run(v2, leave) == left(v2)) by {
        reveal_with_fuel(run, 2);
    }
    assert(t.children.take(t.children.len() as int) =~= t.children);
    if v.pending.len() > 0 {
        let n = v2.pending.len() as int;
        assert(v2.pending.take(n - 2) =~= v.pending.drop_last());
        assert(v.pending.last().children + seq![t] =~= v.pending.last().children.push(t));
    }
}

/// The walks of the first `n` children make them the next children of the
/// element that is pending.
pub proof fn lemma_walk_under_builds(ts: Seq<TreeView>, n: nat, v: BuilderView)
    requires
        n <= ts.len(),
        forall|i: int| 0 <= i < ts.len() ==> (#[trigger] ts[i]).well_formed(),
        v.pending.len() > 0,
        v.pending.last().children.len() + n <= i64::MAX,
    ensures
        run(v, events_under(ts, n)) == extended(v, ts.take(n as int)),
    decreases ts, n,
{
    let top = v.pending.last();
    if n == 0 {
        assert(v.pending.drop_last().push(top) =~= v.pending);
    } else {
        let before = events_under(ts, (n - 1) as nat);
        lemma_walk_under_builds(ts, (n - 1) as nat, v);
        let v1 = run(v, before);
        lemma_walk_builds(ts[n - 1], v1);
        lemma_run_concat(v, before, events(ts[n - 1]));
        assert((top.children + ts.take(n - 1)) + seq![ts[n - 1]] =~= top.children + ts.take(
            n as int,
        ));
        assert(extended(v1, seq![ts[n - 1]]).pending =~= extended(v, ts.take(n as int)).pending);
    }
}

/// Puts a tree together from the steps of a walk.
#[derive(Debug)]
pub struct TreeBuilder {
    open: Vec<Tree>,
    done: Option<Tree>,
}

impl View for TreeBuilder {
    type V = BuilderView;

    closed spec fn view(&self) -> BuilderView {
        BuilderView {
            pending: self.open@.map_values(|t: Tree| t@),
            finished: match self.done {
                Some(t) => Some(t@),
                None => None,
            },
        }
    }
}

impl TreeBuilder {
    /// A builder in which nothing is pending and nothing finished.
    pub fn new() -> (b: TreeBuilder)
        ensures
            b@ == (BuilderView { pending: Seq::empty(), finished: None }),
    {
        let b = TreeBuilder { open: Vec::new(), done: None };
        assert(b@.pending =~= Seq::empty());
        b
    }

    /// An element of `kind` called `label` begins.
    pub fn enter(&mut self, kind: Kind, label: &str)
        ensures
            final(self)@ == entered(old(self)@, kind, label@),
    {
        let t = Tree::new(kind, label);
        self.open.push(t);
        assert(self@.pending =~= entered(old(self)@, kind, label@).pending);
    }

    /// The element that was entered last and not yet left ends. Says whether
    /// there was one that could be left.
    pub fn leave(&mut self) -> (ok: bool)
        ensures
            ok == can_leave(old(self)@),
            final(self)@ == left(old(self)@),
    {
        let n: usize = self.open.len();
        if n == 0 {
            return false;
        }
        if n == 1 {
            let t = self.open.pop().unwrap();
            self.done = Some(t);
            assert(self@.pending =~= Seq::empty());
            return true;
        }
        let taken: u64 = self.open[n - 2].child_count() as u64;
        if taken >= i64::MAX as u64 {
            return false;
        }
        let child = self.open.pop().unwrap();
        let outer = self.open.pop().unwrap();
        let grown = outer.with_child(child);
        self.open.push(grown);
        proof {
            assert(self@.pending =~= left(old(self)@).pending);
        }
        true
    }

    /// The last tree that was completed, if any.
    pub fn finish(self) -> (t: Option<Tree>)
        ensures
            match t {
                Some(t) => self@.finished == Some(t@),
                None => self@.finished is None,
            },
    {
        self.done
    }
}

} // verus!
