use avl_arena::arena::AVLTreeArena;
use avl_arena::tree::AVLTree;

#[test]
fn single_value() {
    let tree = AVLTree::new(0);
    assert_eq!(tree.size(), 1);
    assert_eq!(tree.nth(0), Some(0));
    assert_eq!(tree.nth(1), None);
}

#[test]
fn single_value_root_height() {
    let arena = AVLTreeArena::new(0);
    let root = arena.root();
    let node = arena.get(root);
    assert_eq!(node.height, 1);
    assert_eq!(node.parent, None);
    assert_eq!(node.left, None);
    assert_eq!(node.right, None);
}

#[test]
fn increasing_chain_triggers_left_rotation() {
    let mut arena = AVLTreeArena::new(0);
    arena.insert(1);
    arena.insert(2);
    let root = arena.root();
    let root_node = arena.get(root);
    assert_eq!(root_node.value, 1);
    assert_eq!(root_node.height, 2);
    let left = arena.get(root_node.left.expect("left child"));
    let right = arena.get(root_node.right.expect("right child"));
    assert_eq!(left.value, 0);
    assert_eq!(right.value, 2);
    assert_eq!(left.height, 1);
    assert_eq!(right.height, 1);
    assert_eq!(left.parent, Some(root));
    assert_eq!(right.parent, Some(root));
}

#[test]
fn decreasing_chain_triggers_right_rotation() {
    let mut arena = AVLTreeArena::new(2);
    arena.insert(1);
    arena.insert(0);
    let root = arena.root();
    let root_node = arena.get(root);
    assert_eq!(root_node.value, 1);
    assert_eq!(root_node.height, 2);
    let left = arena.get(root_node.left.expect("left child"));
    let right = arena.get(root_node.right.expect("right child"));
    assert_eq!(left.value, 0);
    assert_eq!(right.value, 2);
}

#[test]
fn double_rotation_left_right() {
    // 0 goes left of 2, then 1 goes right of 0: the left-right case.
    let mut arena = AVLTreeArena::new(2);
    arena.insert(0);
    arena.insert(1);
    let root = arena.root();
    let root_node = arena.get(root);
    assert_eq!(root_node.value, 1);
    assert_eq!(root_node.height, 2);
    assert_eq!(arena.get(root_node.left.unwrap()).value, 0);
    assert_eq!(arena.get(root_node.right.unwrap()).value, 2);
}

#[test]
fn double_rotation_right_left() {
    // 2 goes right of 0, then 1 goes left of 2: the right-left case.
    let mut arena = AVLTreeArena::new(0);
    arena.insert(2);
    arena.insert(1);
    let root = arena.root();
    let root_node = arena.get(root);
    assert_eq!(root_node.value, 1);
    assert_eq!(arena.get(root_node.left.unwrap()).value, 0);
    assert_eq!(arena.get(root_node.right.unwrap()).value, 2);
}

#[test]
fn mixed_insertions_stay_ordered_and_balanced() {
    let mut arena = AVLTreeArena::new(3);
    arena.insert(2);
    arena.insert(4);
    arena.insert(1);
    assert_eq!(arena.take(4), Some(vec![1, 2, 3, 4]));
    check_avl(&arena);
}

#[test]
fn thousand_increasing_values() {
    let mut arena = AVLTreeArena::new(0);
    for v in 1..1000u64 {
        arena.insert(v);
    }
    assert_eq!(arena.size(), 1000);
    // AVL height bound: 1.45 * log2(1001) is below 14.5.
    let root_height = arena.get(arena.root()).height;
    assert!((root_height as f64) <= 1.45 * (1001.0f64).log2());
    for k in 0..1000usize {
        assert_eq!(arena.nth(k), Some(k as u64));
    }
    assert_eq!(arena.nth(1000), None);
    check_avl(&arena);
}

#[test]
fn nth_at_size_is_absent() {
    let mut tree = AVLTree::new(7);
    tree.insert(3);
    tree.insert(9);
    assert_eq!(tree.nth(tree.size()), None);
}

#[test]
fn duplicates_are_kept() {
    let mut tree = AVLTree::new(5);
    tree.insert(5);
    tree.insert(5);
    assert_eq!(tree.size(), 3);
    assert_eq!(tree.take(3), Some(vec![5, 5, 5]));
}

#[test]
fn take_beyond_size_is_absent() {
    let mut tree = AVLTree::new(1);
    tree.insert(2);
    assert_eq!(tree.take(3), None);
    assert_eq!(tree.take(2), Some(vec![1, 2]));
    assert_eq!(tree.take(1), Some(vec![1]));
    assert_eq!(tree.take(0), Some(vec![]));
}

/// Recomputes the height of the subtree at `slot` and checks, node by node,
/// the stored height, the AVL balance, and the child-to-parent back links.
fn checked_height(arena: &AVLTreeArena, slot: usize) -> u64 {
    let node = arena.get(slot);
    let lh = match node.left {
        Some(l) => {
            assert_eq!(arena.get(l).parent, Some(slot));
            assert!(arena.get(l).value < node.value);
            checked_height(arena, l)
        }
        None => 0,
    };
    let rh = match node.right {
        Some(r) => {
            assert_eq!(arena.get(r).parent, Some(slot));
            assert!(arena.get(r).value >= node.value);
            checked_height(arena, r)
        }
        None => 0,
    };
    assert!(lh.abs_diff(rh) <= 1, "unbalanced at slot {}", slot);
    let h = 1 + lh.max(rh);
    assert_eq!(node.height, h, "stale height at slot {}", slot);
    h
}

fn check_avl(arena: &AVLTreeArena) {
    checked_height(arena, arena.root());
}
