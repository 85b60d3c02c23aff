//! Positions in a tree.
//!
//! A path lists, from the root down, the sibling index taken at each level.
//! The empty path is the root. Paths are ordered lexicographically, which is
//! the order in which a depth-first walk meets the positions.

use vstd::prelude::*;

verus! {

/// `a` and `b` agree on their first `k` segments; there `a` ends while `b`
/// goes on, or `a` holds the smaller segment.
pub open spec fn parts_at(a: Seq<i64>, b: Seq<i64>, k: int) -> bool {
    &&& 0 <= k <= a.len()
    &&& k < b.len()
    &&& forall|j: int| 0 <= j < k ==> a[j] == b[j]
    &&& (k < a.len() ==> a[k] < b[k])
}

/// Document order: `a` comes strictly before `b` in lexicographic order.
pub open spec fn precedes(a: Seq<i64>, b: Seq<i64>) -> bool {
    exists|k: int| parts_at(a, b, k)
}

/// `p` is `q` or an ancestor of `q`.
pub open spec fn is_prefix(p: Seq<i64>, q: Seq<i64>) -> bool {
    p.len() <= q.len() && q.take(p.len() as int) == p
}

/// The path one level up; the root has none.
pub open spec fn parent_of(p: Seq<i64>) -> Option<Seq<i64>> {
    if p.len() == 0 {
        None
    } else {
        Some(p.drop_last())
    }
}

/// The path of the slot that follows `p` under the same parent. The root has
/// none, and neither has a slot whose index is the largest an `i64` holds.
pub open spec fn next_sibling_of(p: Seq<i64>) -> Option<Seq<i64>> {
    if p.len() == 0 || p.last() == i64::MAX {
        None
    } else {
        Some(p.drop_last().push((p.last() + 1) as i64))
    }
}

/// The path of the slot just before `p` under the same parent. The root has
/// none, and neither has a first slot.
pub open spec fn prev_sibling_of(p: Seq<i64>) -> Option<Seq<i64>> {
    if p.len() == 0 || p.last() <= 0 {
        None
    } else {
        Some(p.drop_last().push((p.last() - 1) as i64))
    }
}

/// Both paths are slots under one parent.
pub open spec fn same_parent(p: Seq<i64>, q: Seq<i64>) -> bool {
    p.len() > 0 && q.len() > 0 && p.drop_last() == q.drop_last()
}

/// The model of an optional path.
pub open spec fn path_view(p: Option<Vec<i64>>) -> Option<Seq<i64>> {
    match p {
        Some(v) => Some(v@),
        None => None,
    }
}

/// A copy of `path`.
pub fn copy_path(path: &Vec<i64>) -> (r: Vec<i64>)
    ensures
        r@ == path@,
{
    let r = path.clone();
    r
}

/// The parent of `path`.
pub fn parent(path: &Vec<i64>) -> (r: Option<Vec<i64>>)
    ensures
        path_view(r) == parent_of(path@),
{
    if path.len() == 0 {
        None
    } else {
        let mut up = copy_path(path);
        up.pop();
        Some(up)
    }
}

/// The sibling slot after `path`.
pub fn next_sibling(path: &Vec<i64>) -> (r: Option<Vec<i64>>)
    ensures
        path_view(r) == next_sibling_of(path@),
{
    if path.len() == 0 {
        return None;
    }
    let last: i64 = path[path.len() - 1];
    if last == i64::MAX {
        None
    } else {
        let mut next = copy_path(path);
        next.pop();
        next.push(last + 1);
        Some(next)
    }
}

/// The sibling slot before `path`.
pub fn prev_sibling(path: &Vec<i64>) -> (r: Option<Vec<i64>>)
    ensures
        path_view(r) == prev_sibling_of(path@),
{
    if path.len() == 0 {
        return None;
    }
    let last: i64 = path[path.len() - 1];
    if last <= 0 {
        None
    } else {
        let mut prev = copy_path(path);
        prev.pop();
        prev.push(last - 1);
        Some(prev)
    }
}

/// Whether `a` and `b` hold the same first `n` segments.
pub fn agree(a: &Vec<i64>, b: &Vec<i64>, n: usize) -> (r: bool)
    requires
        n <= a.len(),
        n <= b.len(),
    ensures
        r == (a@.take(n as int) == b@.take(n as int)),
{
    let mut i: usize = 0;
    while i < n
        invariant
            i <= n,
            n <= a.len(),
            n <= b.len(),
            forall|j: int| 0 <= j < i ==> a@[j] == b@[j],
        decreases n - i,
    {
        if a[i] != b[i] {
            assert(a@.take(n as int)[i as int] != b@.take(n as int)[i as int]);
            return false;
        }
        i += 1;
    }
    assert(a@.take(n as int) =~= b@.take(n as int));
    true
}

/// Whether `a` and `b` are the same path.
pub fn same(a: &Vec<i64>, b: &Vec<i64>) -> (r: bool)
    ensures
        r == (a@ == b@),
{
    if a.len() != b.len() {
        return false;
    }
    let r = agree(a, b, a.len());
    assert(a@.take(a.len() as int) =~= a@);
    assert(b@.take(b.len() as int) =~= b@);
    r
}

/// Whether `a` comes before `b` in document order.
pub fn before(a: &Vec<i64>, b: &Vec<i64>) -> (r: bool)
    ensures
        r == precedes(a@, b@),
{
    let mut i: usize = 0;
    while i < a.len() && i < b.len() && a[i] == b[i]
        invariant
            i <= a.len(),
            i <= b.len(),
            forall|j: int| 0 <= j < i ==> a@[j] == b@[j],
        decreases a.len() - i,
    {
        i += 1;
    }
    let r = i < b.len() && (i == a.len() || a[i] < b[i]);
    proof {
        if r {
            assert(parts_at(a@, b@, i as int));
        }
    }
    r
}

/// No path comes before itself.
pub proof fn lemma_precedes_irreflexive(a: Seq<i64>)
    ensures
        !precedes(a, a),
{
}

/// Document order is transitive.
pub proof fn lemma_precedes_transitive(a: Seq<i64>, b: Seq<i64>, c: Seq<i64>)
    requires
        precedes(a, b),
        precedes(b, c),
    ensures
        precedes(a, c),
{
    let k1 = choose|k: int| parts_at(a, b, k);
    let k2 = choose|k: int| parts_at(b, c, k);
    let k = if k1 <= k2 { k1 } else { k2 };
    assert(parts_at(a, c, k));
}

/// Of two paths in document order the second does not come before the first.
pub proof fn lemma_precedes_asymmetric(a: Seq<i64>, b: Seq<i64>)
    requires
        precedes(a, b),
    ensures
        !precedes(b, a),
        a != b,
{
}

/// Any two paths are equal or ordered: document order is total.
pub proof fn lemma_precedes_total(a: Seq<i64>, b: Seq<i64>)
    ensures
        a == b || precedes(a, b) || precedes(b, a),
{
    lemma_total_from(a, b, 0);
}

/// The same of two paths that agree on their first `k` segments.
proof fn lemma_total_from(a: Seq<i64>, b: Seq<i64>, k: int)
    requires
        0 <= k <= a.len(),
        k <= b.len(),
        forall|j: int| 0 <= j < k ==> a[j] == b[j],
    ensures
        a == b || precedes(a, b) || precedes(b, a),
    decreases a.len() - k,
{
    if k == a.len() {
        if k == b.len() {
            assert(a =~= b);
        } else {
            assert(parts_at(a, b, k));
        }
    } else if k == b.len() {
        assert(parts_at(b, a, k));
    } else if a[k] < b[k] {
        assert(parts_at(a, b, k));
    } else if b[k] < a[k] {
        assert(parts_at(b, a, k));
    } else {
        lemma_total_from(a, b, k + 1);
    }
}

/// An ancestor comes before each of its descendants.
pub proof fn lemma_ancestor_precedes(p: Seq<i64>, q: Seq<i64>)
    requires
        is_prefix(p, q),
        p != q,
    ensures
        precedes(p, q),
{
    if p.len() == q.len() {
        assert(q.take(p.len() as int) =~= q);
    }
    assert(parts_at(p, q, p.len() as int));
}

/// What lies under an earlier slot comes before what lies under a later slot
/// of the same parent.
pub proof fn lemma_slots_in_order(at: Seq<i64>, i: i64, j: i64, p: Seq<i64>, q: Seq<i64>)
    requires
        is_prefix(at.push(i), p),
        is_prefix(at.push(j), q),
        i < j,
    ensures
        precedes(p, q),
{
    let n = at.len() as int;
    assert forall|m: int| 0 <= m <= n implies p[m] == at.push(i)[m] && q[m] == at.push(j)[m] by {}
    assert(parts_at(p, q, n));
}

} // verus!
