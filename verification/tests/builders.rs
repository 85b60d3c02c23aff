use syn_query::{Kind, Queryable, TreeBuilder};

const LIST: Kind = 1;
const ITEM: Kind = 2;

#[test]
fn builder_puts_a_tree_together() {
    let mut b = TreeBuilder::new();
    b.enter(LIST, "list");
    b.enter(ITEM, "one");
    assert!(b.leave());
    b.enter(ITEM, "two");
    b.enter(ITEM, "inner");
    assert!(b.leave());
    assert!(b.leave());
    assert!(b.leave());
    let t = b.finish().unwrap();
    assert_eq!(t.kind(), LIST);
    assert_eq!(t.label(), "list");
    assert_eq!(t.child_count(), 2);
    assert_eq!(t.child(0).label(), "one");
    assert_eq!(t.child(0).child_count(), 0);
    assert_eq!(t.child(1).label(), "two");
    assert_eq!(t.child(1).child(0).label(), "inner");
    let items = t.query(ITEM);
    assert_eq!(items.len(), 3);
    assert_eq!(items[2].path, vec![1, 0]);
}

#[test]
fn builder_with_nothing_entered_has_nothing_to_leave() {
    let mut b = TreeBuilder::new();
    assert!(!b.leave());
    assert!(b.finish().is_none());
}

#[test]
fn builder_finishes_nothing_while_an_element_is_open() {
    let mut b = TreeBuilder::new();
    b.enter(LIST, "list");
    b.enter(ITEM, "one");
    assert!(b.leave());
    assert!(b.finish().is_none());
}

#[test]
fn builder_finishes_the_last_tree_that_was_completed() {
    let mut b = TreeBuilder::new();
    b.enter(LIST, "first");
    assert!(b.leave());
    b.enter(LIST, "second");
    b.enter(ITEM, "one");
    assert!(b.leave());
    assert!(b.leave());
    assert!(!b.leave());
    let t = b.finish().unwrap();
    assert_eq!(t.label(), "second");
    assert_eq!(t.child_count(), 1);
}
