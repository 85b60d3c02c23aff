use core::cmp::Ordering;
use syn_query::path::before;
use syn_query::{Kind, Node, QueryResult, Queryable, Tree};

const ROOT: Kind = 1;
const A: Kind = 2;
const B: Kind = 3;
const NONE: Kind = 9;

/// r
/// |- a0
/// |- b1
/// |- a2
/// |- b3
/// |   |- a30
/// |   |   `- a300
/// |   `- b31
/// `- a4
fn sample() -> Tree {
    Tree::new(ROOT, "r")
        .with_child(Tree::new(A, "a0"))
        .with_child(Tree::new(B, "b1"))
        .with_child(Tree::new(A, "a2"))
        .with_child(
            Tree::new(B, "b3")
                .with_child(Tree::new(A, "a30").with_child(Tree::new(A, "a300")))
                .with_child(Tree::new(B, "b31")),
        )
        .with_child(Tree::new(A, "a4"))
}

fn labels(qr: &QueryResult) -> Vec<String> {
    qr.iter().map(|n| n.data.label().to_string()).collect()
}

fn paths(qr: &QueryResult) -> Vec<Vec<i64>> {
    qr.iter().map(|n| n.path.clone()).collect()
}

fn strictly_increasing(qr: &QueryResult) -> bool {
    let mut i = 1;
    while i < qr.len() {
        if !before(&qr[i - 1].path, &qr[i].path) {
            return false;
        }
        i += 1;
    }
    true
}

fn only(label: &str) -> impl Fn(&Node) -> bool + '_ {
    move |n: &Node| n.data.label() == label
}

#[test]
fn new_brings_matches_into_document_order() {
    let given = vec![
        Node { data: Tree::new(A, "late"), path: vec![2, 1] },
        Node { data: Tree::new(A, "early"), path: vec![0] },
        Node { data: Tree::new(A, "middle"), path: vec![2] },
    ];
    let qr = QueryResult::new(given, sample());
    assert_eq!(labels(&qr), vec!["early", "middle", "late"]);
    assert_eq!(paths(&qr), vec![vec![0], vec![2], vec![2, 1]]);
}

#[test]
fn new_keeps_the_first_of_two_matches_at_one_path() {
    let given = vec![
        Node { data: Tree::new(A, "first"), path: vec![1] },
        Node { data: Tree::new(B, "other"), path: vec![0] },
        Node { data: Tree::new(A, "second"), path: vec![1] },
    ];
    let qr = QueryResult::new(given, sample());
    assert_eq!(labels(&qr), vec!["other", "first"]);
}

#[test]
fn new_leaves_a_selection_as_it_is() {
    let found = sample().visit(A, vec![], None);
    let qr = QueryResult::new(found, sample());
    assert_eq!(labels(&qr), vec!["a0", "a2", "a30", "a300", "a4"]);
}

#[test]
fn every_result_has_strictly_increasing_paths() {
    let all = sample().query(A);
    let held = sample().query(B);
    assert!(strictly_increasing(&all));
    assert!(strictly_increasing(&held.query(A)));
    assert!(strictly_increasing(&held.query(B)));
    assert!(strictly_increasing(&held.children(A)));
    assert!(strictly_increasing(&all.parent(B)));
    assert!(strictly_increasing(&all.parents(B)));
    assert!(strictly_increasing(&held.next(A)));
    assert!(strictly_increasing(&held.prev(A)));
    assert!(strictly_increasing(&held.next_all(A)));
    assert!(strictly_increasing(&held.prev_all(A)));
    assert!(strictly_increasing(&held.siblings(A)));
    assert!(strictly_increasing(&held.next_until(A, only("a4"))));
    assert!(strictly_increasing(&held.prev_until(A, only("a0"))));
    assert!(strictly_increasing(&all.filter(|n| n.path.len() == 1)));
    assert!(strictly_increasing(&all.not(|n| n.path.len() == 1)));
}

#[test]
fn query_unites_the_walks_of_the_held_matches() {
    // b3 lies below the root and holds a30 and a300; a30 holds a300 again.
    let held = sample().query(B).query(A);
    assert_eq!(labels(&held), vec!["a30", "a300"]);
    let again = held.query(A);
    assert_eq!(labels(&again), vec!["a30", "a300"]);
    assert_eq!(paths(&again), vec![vec![3, 0], vec![3, 0, 0]]);
}

#[test]
fn query_includes_the_held_match_itself() {
    let held = sample().query(B);
    assert_eq!(labels(&held.query(B)), vec!["b1", "b3", "b31"]);
    assert_eq!(labels(&held.find(B)), vec!["b1", "b3", "b31"]);
}

#[test]
fn children_never_include_grandchildren() {
    let held = sample().query(B);
    assert_eq!(labels(&held.children(A)), vec!["a30"]);
    assert_eq!(labels(&held.query(A)), vec!["a30", "a300"]);
    let near = paths(&held.children(A));
    let all = paths(&held.query(A));
    for p in near.iter() {
        assert!(all.contains(p));
        assert!(held.iter().any(|h| p.len() <= h.path.len() + 1 && p.starts_with(&h.path)));
    }
}

#[test]
fn eq_counts_from_both_ends() {
    let qr = sample().query(A);
    assert_eq!(qr.eq(0).unwrap().data.label(), "a0");
    assert_eq!(qr.eq(2).unwrap().data.label(), "a30");
    assert_eq!(qr.eq(4).unwrap().data.label(), "a4");
    assert_eq!(qr.eq(-1).unwrap().data.label(), "a4");
    assert_eq!(qr.eq(-2).unwrap().data.label(), "a300");
    assert_eq!(qr.eq(-5).unwrap().data.label(), "a0");
    assert_eq!(qr.eq(-5).unwrap().path, vec![0]);
}

#[test]
fn eq_outside_the_selection_is_absent() {
    let qr = sample().query(A);
    assert!(qr.eq(5).is_none());
    assert!(qr.eq(-6).is_none());
    assert!(qr.eq(isize::MAX).is_none());
    assert!(qr.eq(isize::MIN).is_none());
}

#[test]
fn first_and_last_are_the_ends() {
    let qr = sample().query(B);
    assert_eq!(qr.first().unwrap().path, qr.eq(0).unwrap().path);
    assert_eq!(qr.first().unwrap().data.label(), "b1");
    assert_eq!(qr.last().unwrap().path, qr.eq(-1).unwrap().path);
    assert_eq!(qr.last().unwrap().data.label(), "b31");
}

#[test]
fn empty_selection_has_no_ends() {
    let qr = sample().query(NONE);
    assert_eq!(qr.len(), 0);
    assert!(!qr.has());
    assert!(qr.first().is_none());
    assert!(qr.last().is_none());
    assert!(qr.eq(0).is_none());
    assert!(qr.eq(-1).is_none());
}

#[test]
fn operators_on_an_empty_selection_give_an_empty_selection() {
    let qr = sample().query(NONE);
    assert_eq!(qr.query(A).len(), 0);
    assert_eq!(qr.children(A).len(), 0);
    assert_eq!(qr.parent(ROOT).len(), 0);
    assert_eq!(qr.parents(ROOT).len(), 0);
    assert_eq!(qr.next(A).len(), 0);
    assert_eq!(qr.prev(A).len(), 0);
    assert_eq!(qr.next_all(A).len(), 0);
    assert_eq!(qr.prev_all(A).len(), 0);
    assert_eq!(qr.siblings(A).len(), 0);
    assert_eq!(qr.next_until(A, |_| true).len(), 0);
    assert_eq!(qr.prev_until(A, |_| true).len(), 0);
    assert_eq!(qr.filter(|_| true).len(), 0);
    assert_eq!(qr.not(|_| false).len(), 0);
    assert!(!qr.is(|_| true));
    assert_eq!(qr.map(|n| n.path).len(), 0);
}

#[test]
fn filter_and_not_part_a_selection() {
    let qr = sample().query(A);
    let top = qr.filter(|n| n.path.len() == 1);
    let deep = qr.not(|n| n.path.len() == 1);
    assert_eq!(labels(&top), vec!["a0", "a2", "a4"]);
    assert_eq!(labels(&deep), vec!["a30", "a300"]);
    assert_eq!(top.len() + deep.len(), qr.len());
}

#[test]
fn is_asks_for_any_match() {
    let qr = sample().query(A);
    assert!(qr.is(only("a300")));
    assert!(!qr.is(only("b1")));
}

#[test]
fn map_keeps_the_order() {
    let qr = sample().query(B);
    let got = qr.map(|n| (n.data.label().to_string(), n.path));
    assert_eq!(
        got,
        vec![
            ("b1".to_string(), vec![1]),
            ("b3".to_string(), vec![3]),
            ("b31".to_string(), vec![3, 1])
        ]
    );
}

#[test]
fn iter_and_index_give_the_held_matches() {
    let qr = sample().query(B);
    let mut seen = 0;
    for (i, n) in qr.iter().enumerate() {
        assert_eq!(n.path, qr[i].path);
        assert_eq!(n.data.label(), qr[i].data.label());
        seen += 1;
    }
    assert_eq!(seen, qr.len());
}

#[test]
fn selection_hands_its_matches_over() {
    let qr = sample().query(B);
    let mut got = Vec::new();
    for n in qr {
        got.push((n.data.label().to_string(), n.path));
    }
    assert_eq!(
        got,
        vec![
            ("b1".to_string(), vec![1]),
            ("b3".to_string(), vec![3]),
            ("b31".to_string(), vec![3, 1])
        ]
    );
}

#[test]
fn copy_of_a_selection_holds_the_same() {
    let qr = sample().query(A);
    let copy = qr.clone();
    assert_eq!(labels(&copy), labels(&qr));
    assert_eq!(paths(&copy), paths(&qr));
    assert_eq!(copy.root().label(), "r");
}

#[test]
fn parent_is_the_element_one_level_up() {
    let held = sample().query(A).filter(only("a300"));
    assert_eq!(labels(&held.parent(A)), vec!["a30"]);
    assert_eq!(held.parent(B).len(), 0);
    let held = sample().query(B).filter(only("b31"));
    assert_eq!(labels(&held.parent(B)), vec!["b3"]);
}

#[test]
fn root_has_no_parent_element() {
    let held = sample().query(ROOT);
    assert_eq!(held.len(), 1);
    assert_eq!(held.parent(ROOT).len(), 0);
    assert_eq!(held.parents(ROOT).len(), 0);
    assert_eq!(held.next(A).len(), 0);
    assert_eq!(held.prev(A).len(), 0);
    assert_eq!(held.siblings(A).len(), 0);
}

#[test]
fn parents_are_all_elements_on_the_way_up() {
    let held = sample().query(A).filter(only("a300"));
    assert_eq!(labels(&held.parents(A)), vec!["a30"]);
    assert_eq!(labels(&held.parents(B)), vec!["b3"]);
    assert_eq!(labels(&held.parents(ROOT)), vec!["r"]);
    let held = sample().query(A);
    assert_eq!(labels(&held.parents(B)), vec!["b3"]);
    assert_eq!(labels(&held.parents(A)), vec!["a30"]);
}

#[test]
fn next_and_prev_of_neighbours_give_each_other() {
    let a2 = sample().query(A).filter(only("a2"));
    let b3 = sample().query(B).filter(only("b3"));
    assert_eq!(paths(&a2.next(B)), paths(&b3));
    assert_eq!(labels(&a2.next(B)), vec!["b3"]);
    assert_eq!(paths(&b3.prev(A)), paths(&a2));
    assert_eq!(labels(&b3.prev(A)), vec!["a2"]);
}

#[test]
fn next_looks_at_the_adjacent_slot_only() {
    let a0 = sample().query(A).filter(only("a0"));
    // the slot after a0 holds b1: a2 comes later and is not found
    assert_eq!(a0.next(A).len(), 0);
    assert_eq!(labels(&a0.next(B)), vec!["b1"]);
    let a4 = sample().query(A).filter(only("a4"));
    assert_eq!(a4.next(A).len(), 0);
    assert_eq!(a4.next(B).len(), 0);
}

#[test]
fn prev_looks_at_the_adjacent_slot_only() {
    let a4 = sample().query(A).filter(only("a4"));
    assert_eq!(a4.prev(A).len(), 0);
    assert_eq!(labels(&a4.prev(B)), vec!["b3"]);
    let a0 = sample().query(A).filter(only("a0"));
    assert_eq!(a0.prev(A).len(), 0);
    assert_eq!(a0.prev(B).len(), 0);
}

#[test]
fn next_all_goes_from_the_first_held_slot_of_each_parent() {
    let held = sample().query(B).filter(|n| n.path.len() == 1);
    assert_eq!(labels(&held), vec!["b1", "b3"]);
    assert_eq!(labels(&held.next_all(A)), vec!["a2", "a4"]);
    assert_eq!(labels(&held.next_all(B)), vec!["b3"]);
}

#[test]
fn prev_all_goes_from_the_last_held_slot_of_each_parent() {
    let held = sample().query(B).filter(|n| n.path.len() == 1);
    assert_eq!(labels(&held.prev_all(A)), vec!["a0", "a2"]);
    assert_eq!(labels(&held.prev_all(B)), vec!["b1"]);
}

#[test]
fn next_all_and_prev_all_stay_under_the_parent() {
    let held = sample().query(A).filter(only("a30"));
    assert_eq!(labels(&held.next_all(B)), vec!["b31"]);
    assert_eq!(held.next_all(A).len(), 0);
    assert_eq!(held.prev_all(A).len(), 0);
    let held = sample().query(B).filter(only("b31"));
    assert_eq!(labels(&held.prev_all(A)), vec!["a30"]);
}

#[test]
fn next_until_stops_at_the_first_yes() {
    let held = sample().query(A).filter(only("a0"));
    assert_eq!(labels(&held.next_all(A)), vec!["a2", "a4"]);
    assert_eq!(labels(&held.next_until(A, only("a4"))), vec!["a2"]);
    assert_eq!(held.next_until(A, only("a2")).len(), 0);
    assert_eq!(held.next_until(A, |_| true).len(), 0);
    assert_eq!(labels(&held.next_until(A, |_| false)), vec!["a2", "a4"]);
}

#[test]
fn prev_until_stops_at_the_last_yes() {
    let held = sample().query(A).filter(only("a4"));
    assert_eq!(labels(&held.prev_all(A)), vec!["a0", "a2"]);
    assert_eq!(labels(&held.prev_until(A, only("a0"))), vec!["a2"]);
    assert_eq!(held.prev_until(A, only("a2")).len(), 0);
    assert_eq!(held.prev_until(A, |_| true).len(), 0);
    assert_eq!(labels(&held.prev_until(A, |_| false)), vec!["a0", "a2"]);
}

#[test]
fn until_leaves_other_parents_alone() {
    let held = sample().query(A).filter(|n| n.data.label() == "a0" || n.data.label() == "a30");
    assert_eq!(labels(&held.next_all(B)), vec!["b1", "b3", "b31"]);
    assert_eq!(labels(&held.next_until(B, only("b3"))), vec!["b1", "b31"]);
    assert_eq!(labels(&held.next_until(B, only("b31"))), vec!["b1", "b3"]);
}

#[test]
fn siblings_of_one_held_match_leave_out_its_slot() {
    let held = sample().query(B).filter(only("b1"));
    assert_eq!(labels(&held.siblings(B)), vec!["b3"]);
    assert_eq!(labels(&held.siblings(A)), vec!["a0", "a2", "a4"]);
}

#[test]
fn siblings_of_several_held_matches_leave_out_nothing() {
    let held = sample().query(B).filter(|n| n.path.len() == 1);
    assert_eq!(labels(&held.siblings(B)), vec!["b1", "b3"]);
    assert_eq!(labels(&held.siblings(A)), vec!["a0", "a2", "a4"]);
}

#[test]
fn siblings_stay_under_the_parent() {
    let held = sample().query(B).filter(only("b31"));
    assert_eq!(labels(&held.siblings(A)), vec!["a30"]);
    assert_eq!(held.siblings(B).len(), 0);
}

#[test]
fn matches_are_equal_by_path_alone() {
    let one = Node { data: Tree::new(A, "one"), path: vec![1, 2] };
    let other = Node { data: Tree::new(B, "other"), path: vec![1, 2] };
    let third = Node { data: Tree::new(A, "one"), path: vec![1, 3] };
    assert!(one == other);
    assert!(one != third);
}

#[test]
fn matches_are_ordered_as_their_paths() {
    let one = Node { data: Tree::new(A, "z"), path: vec![1, 2] };
    let other = Node { data: Tree::new(B, "a"), path: vec![1, 2] };
    let third = Node { data: Tree::new(A, "a"), path: vec![1, 3] };
    let up = Node { data: Tree::new(A, "a"), path: vec![1] };
    assert_eq!(one.partial_cmp(&other), Some(Ordering::Equal));
    assert_eq!(one.partial_cmp(&third), Some(Ordering::Less));
    assert_eq!(third.partial_cmp(&one), Some(Ordering::Greater));
    assert!(up < one);
    assert!(third > up);
    assert!(one <= other);
}
