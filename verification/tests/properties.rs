use avl_arena::arena::AVLTreeArena;
use avl_arena::tree::AVLTree;

#[test]
fn size_grows_by_one_per_insert() {
    let mut tree = AVLTree::new(10);
    let values = [4u64, 19, 4, 7, 0, 12, 4, 19];
    for (k, v) in values.iter().enumerate() {
        assert_eq!(tree.size(), k + 1);
        tree.insert(*v);
        assert_eq!(tree.size(), k + 2);
    }
}

#[test]
fn exactly_one_node_has_no_parent() {
    let mut arena = AVLTreeArena::new(8);
    for v in [3u64, 11, 1, 5, 9, 14, 2, 6] {
        arena.insert(v);
    }
    let root = arena.root();
    let mut parentless = 0;
    for slot in 0..arena.size() {
        if arena.get(slot).parent.is_none() {
            parentless += 1;
            assert_eq!(slot, root);
        }
    }
    assert_eq!(parentless, 1);
}

#[test]
fn traversal_is_sorted_for_any_insertion_order() {
    let mut arena = AVLTreeArena::new(13);
    let values = [6u64, 42, 0, 27, 13, 6, 99, 1, 54, 27];
    for v in values {
        arena.insert(v);
    }
    let out = arena.take(arena.size()).expect("full traversal");
    let mut expected = vec![13, 6, 42, 0, 27, 13, 6, 99, 1, 54, 27];
    expected.sort();
    assert_eq!(out, expected);
}

#[test]
fn nth_matches_sorted_position() {
    let mut arena = AVLTreeArena::new(50);
    for v in [20u64, 80, 10, 30, 70, 90] {
        arena.insert(v);
    }
    let expected = [10u64, 20, 30, 50, 70, 80, 90];
    for (k, v) in expected.iter().enumerate() {
        assert_eq!(arena.nth(k), Some(*v));
    }
}

#[test]
fn insert_returns_fresh_slot() {
    let mut arena = AVLTreeArena::new(5);
    assert_eq!(arena.insert(3), 1);
    assert_eq!(arena.insert(8), 2);
    assert_eq!(arena.insert(1), 3);
    assert_eq!(arena.get(3).value, 1);
}

#[test]
fn rotate_left_keeps_order() {
    let mut arena = AVLTreeArena::new(2);
    arena.insert(1);
    arena.insert(3);
    let before = arena.take(3);
    let root = arena.root();
    assert!(arena.rotate_left(root));
    assert_eq!(arena.take(3), before);
    // The old right child is the root now.
    assert_eq!(arena.get(arena.root()).value, 3);
}

#[test]
fn rotate_right_keeps_order() {
    let mut arena = AVLTreeArena::new(2);
    arena.insert(1);
    arena.insert(3);
    let before = arena.take(3);
    let root = arena.root();
    assert!(arena.rotate_right(root));
    assert_eq!(arena.take(3), before);
    assert_eq!(arena.get(arena.root()).value, 1);
}

#[test]
fn rotation_without_partner_child_reports_failure() {
    let mut arena = AVLTreeArena::new(2);
    let leaf = arena.insert(1);
    // The leaf has no children at all: neither rotation can fire.
    assert!(!arena.rotate_left(leaf));
    assert!(!arena.rotate_right(leaf));
    // The root has only a left child: a left rotation has no pivot partner.
    assert!(!arena.rotate_left(arena.root()));
    assert_eq!(arena.take(2), Some(vec![1, 2]));
}

#[test]
fn rotations_undo_each_other_at_the_root() {
    let mut arena = AVLTreeArena::new(4);
    for v in [2u64, 6, 1, 3, 5, 7] {
        arena.insert(v);
    }
    let before: Vec<_> = (0..arena.size()).map(|s| arena.get(s)).collect();
    assert!(arena.rotate_left(arena.root()));
    assert!(arena.rotate_right(arena.root()));
    let after: Vec<_> = (0..arena.size()).map(|s| arena.get(s)).collect();
    assert_eq!(before, after);
}
