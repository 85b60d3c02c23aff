//! The ways from one position in a tree to another.

use vstd::prelude::*;
use crate::path::{agree, is_prefix, next_sibling_of, parent_of, prev_sibling_of, same_parent};

verus! {

/// A direction in which a selection is moved through its tree.
#[derive(Clone, Copy, Debug)]
pub enum Axis {
    /// To the element one level up.
    Parent,
    /// To every element on the way up to the root.
    Ancestor,
    /// To the slot that follows under the same parent.
    Next,
    /// To the slot just before under the same parent.
    Prev,
    /// To every later slot under the same parent.
    Following,
    /// To every earlier slot under the same parent.
    Preceding,
    /// To every other slot under the same parent.
    Sibling,
}

/// Going from `held` along `axis` leads to `p`.
pub open spec fn on_axis(axis: Axis, held: Seq<i64>, p: Seq<i64>) -> bool {
    match axis {
        Axis::Parent => parent_of(held) == Some(p),
        Axis::Ancestor => is_prefix(p, held) && p != held,
        Axis::Next => next_sibling_of(held) == Some(p),
        Axis::Prev => prev_sibling_of(held) == Some(p),
        Axis::Following => same_parent(held, p) && held.last() < p.last(),
        Axis::Preceding => same_parent(held, p) && p.last() < held.last(),
        Axis::Sibling => same_parent(held, p) && held != p,
    }
}

/// Whether going from `held` along `axis` leads to `p`.
pub fn reaches(axis: Axis, held: &Vec<i64>, p: &Vec<i64>) -> (r: bool)
    ensures
        r == on_axis(axis, held@, p@),
{
    let n: usize = held.len();
    match axis {
        Axis::Parent => {
            if n == 0 || p.len() != n - 1 {
                return false;
            }
            let r = agree(held, p, n - 1);
            proof {
                assert(p@.take(n - 1) =~= p@);
            }
            r
        },
        Axis::Ancestor => {
            if p.len() >= n {
                proof {
                    if p.len() == n {
                        assert(held@.take(n as int) =~= held@);
                    }
                }
                return false;
            }
            let r = agree(held, p, p.len());
            proof {
                assert(p@.take(p.len() as int) =~= p@);
            }
            r
        },
        Axis::Next => {
            proof {
                lemma_neighbour_slots(held@);
            }
            match slots(held, p) {
                Some((from, to)) => from < i64::MAX && to == from + 1,
                None => false,
            }
        },
        Axis::Prev => {
            proof {
                lemma_neighbour_slots(held@);
            }
            match slots(held, p) {
                Some((from, to)) => from > 0 && to == from - 1,
                None => false,
            }
        },
        Axis::Following => {
            match slots(held, p) {
                Some((from, to)) => from < to,
                None => false,
            }
        },
        Axis::Preceding => {
            match slots(held, p) {
                Some((from, to)) => to < from,
                None => false,
            }
        },
        Axis::Sibling => {
            match slots(held, p) {
                Some((from, to)) => from != to,
                None => false,
            }
        },
    }
}

/// The slots next to `h` stand under the parent of `h`, one index from it.
proof fn lemma_neighbour_slots(h: Seq<i64>)
    ensures
        next_sibling_of(h) matches Some(q) ==> same_parent(h, q) && q.last() == h.last() + 1,
        prev_sibling_of(h) matches Some(q) ==> same_parent(h, q) && q.last() == h.last() - 1,
{
    if let Some(q) = next_sibling_of(h) {
        assert(q.drop_last() =~= h.drop_last());
    }
    if let Some(q) = prev_sibling_of(h) {
        assert(q.drop_last() =~= h.drop_last());
    }
}

/// The slots that `a` and `b` take, where both stand under one parent.
pub fn slots(a: &Vec<i64>, b: &Vec<i64>) -> (r: Option<(i64, i64)>)
    ensures
        match r {
            Some((from, to)) => same_parent(a@, b@) && from == a@.last() && to == b@.last()
                && a@ == a@.drop_last().push(from) && b@ == a@.drop_last().push(to),
            None => !same_parent(a@, b@),
        },
{
    let n: usize = a.len();
    if n == 0 || b.len() != n {
        proof {
            if a@.len() > 0 && b@.len() > 0 {
                assert(a@.drop_last().len() != b@.drop_last().len());
            }
        }
        return None;
    }
    let together = agree(a, b, n - 1);
    if together {
        Some((a[n - 1], b[n - 1]))
    } else {
        None
    }
}

} // verus!
