//! Kind-tagged trees and the walk that finds the elements of one kind.

use vstd::prelude::*;
use crate::path::copy_path;

verus! {

/// The tag that tells the kinds of elements apart. The grammar that builds
/// the trees chooses the numbers.
pub type Kind = u32;

/// The model of a tree: what an element is, what it is called, and the
/// elements below it in the order in which a walk meets them.
pub struct TreeView {
    pub kind: Kind,
    pub label: Seq<char>,
    pub children: Seq<TreeView>,
}

/// The model of a match: an element and the path at which it stands.
pub struct NodeView {
    pub data: TreeView,
    pub path: Seq<i64>,
}

/// How many levels below its starting point a walk may go.
pub open spec fn depth_of(deep: Option<usize>) -> Option<nat> {
    match deep {
        Some(d) => Some(d as nat),
        None => None,
    }
}

/// The bound that is left one level further down.
pub open spec fn below(depth: Option<nat>) -> Option<nat> {
    match depth {
        Some(d) => Some((d - 1) as nat),
        None => None,
    }
}

impl TreeView {
    /// Every element has few enough children for each to have an `i64` index.
    pub open spec fn well_formed(self) -> bool
        decreases self,
    {
        &&& self.children.len() <= i64::MAX
        &&& forall|i: int|
            0 <= i < self.children.len() ==> (#[trigger] self.children[i]).well_formed()
    }

    /// The element that stands at `rel` below this one, if there is one.
    pub open spec fn element_at(self, rel: Seq<i64>) -> Option<TreeView>
        decreases rel.len(),
    {
        if rel.len() == 0 {
            Some(self)
        } else if 0 <= rel[0] < self.children.len() {
            self.children[rel[0] as int].element_at(rel.skip(1))
        } else {
            None
        }
    }
}

/// The matches of `kind` that a walk of `t` yields, in the order of the walk.
/// `t` stands at `at`; its children stand at `at` extended by their index. The
/// walk looks at `t` itself and goes at most `depth` levels down from it.
pub open spec fn hits(t: TreeView, kind: Kind, at: Seq<i64>, depth: Option<nat>) -> Seq<NodeView>
    decreases t, 0nat,
{
    let here = if t.kind == kind {
        seq![NodeView { data: t, path: at }]
    } else {
        Seq::<NodeView>::empty()
    };
    if depth == Some(0nat) {
        here
    } else {
        here + hits_under(t.children, t.children.len(), kind, at, below(depth))
    }
}

/// The matches that the walks of the first `n` of `ts` yield, one after the
/// other, where `ts` are the children of the element at `at`.
pub open spec fn hits_under(
    ts: Seq<TreeView>,
    n: nat,
    kind: Kind,
    at: Seq<i64>,
    depth: Option<nat>,
) -> Seq<NodeView>
    decreases ts, n,
{
    if n == 0 || n > ts.len() {
        Seq::<NodeView>::empty()
    } else {
        hits_under(ts, (n - 1) as nat, kind, at, depth) + hits(
            ts[n - 1],
            kind,
            at.push((n - 1) as i64),
            depth,
        )
    }
}

/// An element of a tree with all that stands below it.
#[derive(Debug)]
pub struct Tree {
    kind: Kind,
    label: String,
    children: Vec<Tree>,
}

impl View for Tree {
    type V = TreeView;

    closed spec fn view(&self) -> TreeView {
        model_of(*self)
    }
}

/// The model of `t`.
spec fn model_of(t: Tree) -> TreeView
    decreases t, 0nat,
{
    TreeView {
        kind: t.kind,
        label: t.label@,
        children: child_views(t.children, t.children.len() as nat),
    }
}

/// The models of the first `n` of `ts`.
spec fn child_views(ts: Vec<Tree>, n: nat) -> Seq<TreeView>
    decreases ts, n,
{
    if n == 0 || n > ts.len() {
        Seq::empty()
    } else {
        child_views(ts, (n - 1) as nat).push(model_of(ts[n - 1]))
    }
}

/// The models of the first `n` of `ts`, one by one.
proof fn lemma_child_views(ts: Vec<Tree>, n: nat)
    requires
        n <= ts.len(),
    ensures
        child_views(ts, n).len() == n,
        forall|i: int| 0 <= i < n ==> child_views(ts, n)[i] == ts[i]@,
    decreases n,
{
    if n > 0 {
        lemma_child_views(ts, (n - 1) as nat);
    }
}

/// A match: a copy of an element and the path at which it stands.
#[derive(Debug)]
pub struct Node {
    pub data: Tree,
    pub path: Vec<i64>,
}

impl View for Node {
    type V = NodeView;

    open spec fn view(&self) -> NodeView {
        NodeView { data: self.data@, path: self.path@ }
    }
}

/// The models of a sequence of matches.
pub open spec fn views(s: Seq<Node>) -> Seq<NodeView> {
    s.map_values(|n: Node| n@)
}

impl Tree {
    /// What holds of every tree: its model is well formed.
    #[verifier::type_invariant]
    pub open spec fn well_formed(self) -> bool {
        self@.well_formed()
    }

    /// The model of a tree, field by field.
    proof fn lemma_unfold(t: Tree)
        ensures
            t@.kind == t.kind,
            t@.label == t.label@,
            t@.children.len() == t.children.len(),
            forall|i: int| 0 <= i < t.children.len() ==> t@.children[i] == t.children[i]@,
    {
        lemma_child_views(t.children, t.children.len() as nat);
    }

    /// An element without children.
    pub fn new(kind: Kind, label: &str) -> (t: Tree)
        ensures
            t@ == (TreeView { kind, label: label@, children: Seq::empty() }),
    {
        let t = Tree { kind, label: label.to_string(), children: Vec::new() };
        t
    }

    /// This element with `child` added behind its children.
    pub fn with_child(self, child: Tree) -> (t: Tree)
        requires
            self@.children.len() < i64::MAX,
        ensures
            t@ == (TreeView { children: self@.children.push(child@), ..self@ }),
    {
        proof {
            use_type_invariant(&self);
            use_type_invariant(&child);
            Self::lemma_unfold(self);
        }
        let ghost before = self@;
        let Tree { kind, label, children } = self;
        let mut children = children;
        children.push(child);
        proof {
            let t = Tree { kind, label, children };
            Self::lemma_unfold(t);
            assert(t@.children =~= before.children.push(child@));
        }
        Tree { kind, label, children }
    }

    /// The kind of the element.
    pub fn kind(&self) -> (k: Kind)
        ensures
            k == self@.kind,
    {
        self.kind
    }

    /// The name of the element.
    pub fn label(&self) -> (s: &str)
        ensures
            s@ == self@.label,
    {
        self.label.as_str()
    }

    /// How many children the element has.
    pub fn child_count(&self) -> (n: usize)
        ensures
            n == self@.children.len(),
    {
        proof {
            Self::lemma_unfold(*self);
        }
        self.children.len()
    }

    /// The child at index `i`.
    pub fn child(&self, i: usize) -> (c: &Tree)
        requires
            i < self@.children.len(),
        ensures
            c@ == self@.children[i as int],
    {
        proof {
            Self::lemma_unfold(*self);
        }
        &self.children[i]
    }

    /// Appends to `out` the matches of `kind` that a walk of this element
    /// yields, the element standing at `at`.
    pub(crate) fn walk(
        &self,
        kind: Kind,
        at: &mut Vec<i64>,
        deep: Option<usize>,
        out: &mut Vec<Node>,
    )
        ensures
            final(at)@ == old(at)@,
            views(final(out)@) == views(old(out)@) + hits(
                self@,
                kind,
                old(at)@,
                depth_of(deep),
            ),
        decreases self,
    {
        proof {
            use_type_invariant(self);
            Self::lemma_unfold(*self);
        }
        let ghost at0 = at@;
        if self.kind == kind {
            let found = Node { data: self.clone(), path: copy_path(at) };
            out.push(found);
        }
        let ghost out1 = views(out@);
        let descend = match deep {
            Some(d) => d > 0,
            None => true,
        };
        if descend {
            let deeper: Option<usize> = match deep {
                Some(d) => Some(d - 1),
                None => None,
            };
            let mut i: usize = 0;
            while i < self.children.len()
                invariant
                    i <= self.children.len(),
                    self.children.len() == self@.children.len(),
                    self@.children.len() <= i64::MAX,
                    at@ == at0,
                    depth_of(deeper) == below(depth_of(deep)),
                    views(out@) == out1 + hits_under(
                        self@.children,
                        i as nat,
                        kind,
                        at0,
                        depth_of(deeper),
                    ),
                decreases self.children.len() - i,
            {
                at.push(i as i64);
                self.children[i].walk(kind, at, deeper, out);
                at.pop();
                proof {
                    Self::lemma_unfold(*self);
                }
                i += 1;
            }
        }
    }
}

impl Clone for Tree {
    fn clone(&self) -> (r: Tree)
        ensures
            r@ == self@,
        decreases self,
    {
        proof {
            use_type_invariant(self);
        }
        let mut children: Vec<Tree> = Vec::new();
        let mut i: usize = 0;
        while i < self.children.len()
            invariant
                i <= self.children.len(),
                children.len() == i,
                forall|j: int| 0 <= j < i ==> children[j]@ == self.children[j]@,
            decreases self.children.len() - i,
        {
            let c = self.children[i].clone();
            children.push(c);
            i += 1;
        }
        let label = self.label.clone();
        proof {
            let r = Tree { kind: self.kind, label, children };
            Self::lemma_unfold(*self);
            Self::lemma_unfold(r);
            assert(r@.children =~= self@.children);
        }
        Tree { kind: self.kind, label, children }
    }
}

impl Clone for Node {
    fn clone(&self) -> (r: Node)
        ensures
            r@ == self@,
    {
        Node { data: self.data.clone(), path: copy_path(&self.path) }
    }
}

} // verus!
