use hocr_edit::tree::{Position, Tree, TreeError};

fn sample() -> (Tree<&'static str>, u32, u32, u32, u32) {
    let mut t = Tree::new();
    let page = t.add_root("page");
    let a = t.push_child(&page, "a").unwrap();
    let b = t.push_child(&page, "b").unwrap();
    let c = t.push_child(&page, "c").unwrap();
    (t, page, a, b, c)
}

#[test]
fn roots_and_children_keep_order() {
    let (mut t, page, a, b, c) = sample();
    let second = t.add_root("second");
    assert_eq!(t.roots(), vec![page, second]);
    assert_eq!(t.children(&page), vec![a, b, c]);
    assert_eq!(t.parent(&b), Some(page));
    assert_eq!(t.parent(&page), None);
    assert_eq!(t.get_node(&b), Some(&"b"));
    assert!(t.has_children(&page));
    assert!(!t.has_children(&a));
}

#[test]
fn push_child_on_absent_id_is_not_found() {
    let (mut t, _, _, _, _) = sample();
    assert_eq!(t.push_child(&99, "x"), Err(TreeError::NotFound(99)));
    assert_eq!(t.add_sibling(&99, "x", &Position::After), Err(TreeError::NotFound(99)));
}

#[test]
fn absent_ids_give_empty_views() {
    let (t, _, _, _, _) = sample();
    assert_eq!(t.get_node(&42), None);
    assert!(t.children(&42).is_empty());
    assert_eq!(t.parent(&42), None);
    assert_eq!(t.next_sibling(&42), None);
    assert_eq!(t.prev_sibling(&42), None);
    assert!(t.next_siblings(&42).is_empty());
    assert!(t.prev_siblings(&42).is_empty());
}

#[test]
fn sibling_queries() {
    let (t, _, a, b, c) = sample();
    assert_eq!(t.next_sibling(&a), Some(b));
    assert_eq!(t.prev_sibling(&a), None);
    assert_eq!(t.prev_sibling(&c), Some(b));
    assert_eq!(t.next_sibling(&c), None);
    assert_eq!(t.next_siblings(&a), vec![b, c]);
    assert_eq!(t.prev_siblings(&c), vec![a, b]);
}

#[test]
fn sibling_before_is_adjacent() {
    let (mut t, page, a, b, c) = sample();
    let n = t.add_sibling(&b, "new", &Position::Before).unwrap();
    assert_eq!(t.next_sibling(&n), Some(b));
    assert_eq!(t.children(&page), vec![a, n, b, c]);
}

#[test]
fn sibling_after_is_adjacent() {
    let (mut t, page, a, b, c) = sample();
    let n = t.add_sibling(&b, "new", &Position::After).unwrap();
    assert_eq!(t.prev_sibling(&n), Some(b));
    assert_eq!(t.children(&page), vec![a, b, n, c]);
}

#[test]
fn sibling_of_root_becomes_last_root() {
    let (mut t, page, _, _, _) = sample();
    let other = t.add_root("other");
    let n = t.add_sibling(&page, "new", &Position::Before).unwrap();
    assert_eq!(t.roots(), vec![page, other, n]);
}

#[test]
fn merge_after_without_next_sibling_changes_nothing() {
    let (mut t, page, a, b, c) = sample();
    let x = t.push_child(&c, "x").unwrap();
    t.merge_sibling(&c, &Position::After);
    assert_eq!(t.children(&page), vec![a, b, c]);
    assert_eq!(t.children(&c), vec![x]);
    assert_eq!(t.get_node(&c), Some(&"c"));
    t.merge_sibling(&a, &Position::Before);
    assert_eq!(t.children(&page), vec![a, b, c]);
}

#[test]
fn merge_after_appends_the_next_siblings_children() {
    let (mut t, page, a, b, c) = sample();
    let a1 = t.push_child(&a, "a1").unwrap();
    let b1 = t.push_child(&b, "b1").unwrap();
    let b2 = t.push_child(&b, "b2").unwrap();
    t.merge_sibling(&a, &Position::After);
    assert_eq!(t.children(&page), vec![a, c]);
    assert_eq!(t.children(&a), vec![a1, b1, b2]);
    assert_eq!(t.parent(&b1), Some(a));
    assert_eq!(t.get_node(&b), None);
}

#[test]
fn merge_before_prepends_the_previous_siblings_children() {
    let (mut t, page, a, b, c) = sample();
    let a1 = t.push_child(&a, "a1").unwrap();
    let b1 = t.push_child(&b, "b1").unwrap();
    t.merge_sibling(&b, &Position::Before);
    assert_eq!(t.children(&page), vec![b, c]);
    assert_eq!(t.children(&b), vec![a1, b1]);
    assert_eq!(t.parent(&a1), Some(b));
    assert_eq!(t.get_node(&a), None);
}

#[test]
fn delete_removes_the_whole_subtree() {
    let (mut t, page, a, b, c) = sample();
    let b1 = t.push_child(&b, "b1").unwrap();
    let b11 = t.push_child(&b1, "b11").unwrap();
    let b2 = t.push_child(&b, "b2").unwrap();
    t.delete_node(&b);
    assert_eq!(t.children(&page), vec![a, c]);
    for gone in [b, b1, b11, b2] {
        assert_eq!(t.get_node(&gone), None);
    }
    assert_eq!(t.get_node(&a), Some(&"a"));
    assert_eq!(t.get_node(&c), Some(&"c"));
}

#[test]
fn delete_root_keeps_other_roots_in_order() {
    let mut t = Tree::new();
    let r1 = t.add_root(1);
    let r2 = t.add_root(2);
    let r3 = t.add_root(3);
    t.push_child(&r2, 20).unwrap();
    t.delete_node(&r2);
    assert_eq!(t.roots(), vec![r1, r3]);
    t.delete_node(&r2);
    assert_eq!(t.roots(), vec![r1, r3]);
}

#[test]
fn identities_increase_and_are_never_reused() {
    let mut t = Tree::new();
    let r = t.add_root(0);
    let a = t.push_child(&r, 1).unwrap();
    t.delete_node(&a);
    let b = t.push_child(&r, 2).unwrap();
    let s = t.add_sibling(&r, 3, &Position::After).unwrap();
    assert!(r < a && a < b && b < s);
    assert_ne!(a, b);
}

#[test]
fn values_can_be_edited_in_place() {
    let (mut t, _, a, _, _) = sample();
    if let Some(v) = t.get_mut_node(&a) {
        *v = "edited";
    }
    assert_eq!(t.get_node(&a), Some(&"edited"));
    assert!(t.get_mut_node(&77).is_none());
}
