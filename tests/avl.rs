use avl_collections::avl::Balance::{Balanced, LeftLean, RightLean};
use avl_collections::avl::{min_value_node, Balance, Node, Tree};

fn leaf(key: i32) -> Node<i32> {
    Node { key, height: 1, left: None, right: None }
}

fn node(key: i32, height: usize, left: Option<Node<i32>>, right: Option<Node<i32>>) -> Node<i32> {
    Node { key, height, left: left.map(Box::new), right: right.map(Box::new) }
}

/// Walks a subtree in order, checking cached heights and balance at every node;
/// returns the height.
fn check_subtree(t: &Option<Box<Node<i32>>>, out: &mut Vec<i32>) -> usize {
    match t {
        None => 0,
        Some(n) => {
            let hl = check_subtree(&n.left, out);
            out.push(n.key);
            let hr = check_subtree(&n.right, out);
            assert_eq!(n.height, 1 + hl.max(hr));
            assert!((hl as i64 - hr as i64).abs() <= 1);
            n.height
        }
    }
}

/// The in-order keys of a tree, after checking its invariants.
fn checked_in_order(tree: &Tree<i32>) -> Vec<i32> {
    let mut out = Vec::new();
    check_subtree(&tree.root, &mut out);
    for w in out.windows(2) {
        assert!(w[0] < w[1]);
    }
    out
}

fn built(keys: &[i32]) -> Tree<i32> {
    let mut tree = Tree::new();
    for &k in keys {
        tree.insert(k);
    }
    tree
}

#[test]
fn i32_to_balance_test() {
    assert_eq!(Balance::from(0), Balanced);
    assert_eq!(Balance::from(1), LeftLean(1));
    assert_eq!(Balance::from(-1), RightLean(1));
}

#[test]
fn balance_to_i32_test() {
    assert_eq!(i32::from(Balanced), 0);
    assert_eq!(i32::from(LeftLean(1)), 1);
    assert_eq!(i32::from(RightLean(1)), -1);
}

#[test]
fn test_insert() {
    let mut tree = Tree::new();
    tree.insert(10);
    tree.insert(20);
    tree.insert(30);
    tree.insert(40);
    tree.insert(50);
    tree.insert(25);

    let root = Some(Box::new(node(
        30,
        3,
        Some(node(20, 2, Some(leaf(10)), Some(leaf(25)))),
        Some(node(40, 2, None, Some(leaf(50)))),
    )));
    let expected = Tree { root };

    assert_eq!(tree, expected);
}

#[test]
fn test_delete() {
    let mut tree = Tree::new();
    tree.insert(10);
    tree.insert(20);
    tree.insert(30);
    tree.insert(40);
    tree.insert(50);
    tree.insert(25);
    tree.delete(30);

    let root = Some(Box::new(node(
        40,
        3,
        Some(node(20, 2, Some(leaf(10)), Some(leaf(25)))),
        Some(leaf(50)),
    )));
    let expected = Tree { root };

    assert_eq!(tree, expected);
}

#[test]
fn min_test() {
    let root = node(
        30,
        3,
        Some(node(20, 2, Some(leaf(10)), Some(leaf(25)))),
        Some(node(40, 2, None, Some(leaf(50)))),
    );
    assert_eq!(min_value_node(&root), &10);
}

#[test]
fn balancing_test() {
    let mut tree = Tree::new();
    for i in 0..100 {
        tree.insert(i);
    }
    for i in 0..100 {
        if i % 10 == 0 {
            tree.delete(i);
        }
    }
    let balance: i32 = tree.balance().into();
    assert!(-1 <= balance && balance <= 1);
}

#[test]
fn balance_extremes_convert() {
    assert_eq!(Balance::from(i32::MIN), RightLean(2147483648));
    assert_eq!(Balance::from(i32::MAX), LeftLean(2147483647));
    assert_eq!(i32::from(LeftLean(7)), 7);
    assert_eq!(i32::from(RightLean(2)), -2);
}

#[test]
fn balance_predicates() {
    assert!(Balanced.is_balanced());
    assert!(!Balanced.is_left_lean());
    assert!(LeftLean(2).is_left_lean());
    assert!(!LeftLean(2).is_right_lean());
    assert!(RightLean(1).is_right_lean());
    assert!(!RightLean(1).is_balanced());
}

#[test]
fn empty_tree_operations() {
    let mut tree: Tree<i32> = Tree::new();
    assert_eq!(tree.root, None);
    assert_eq!(tree.balance(), Balanced);
    tree.delete(5);
    assert_eq!(tree, Tree::new());
    tree.insert(5);
    assert_eq!(tree, Tree { root: Some(Box::new(leaf(5))) });
    tree.delete(5);
    assert_eq!(tree, Tree::new());
}

#[test]
fn insert_left_left_rotates_right() {
    let tree = built(&[30, 20, 10]);
    let expected = Tree { root: Some(Box::new(node(20, 2, Some(leaf(10)), Some(leaf(30))))) };
    assert_eq!(tree, expected);
}

#[test]
fn insert_left_right_rotates_twice() {
    let tree = built(&[30, 10, 20]);
    let expected = Tree { root: Some(Box::new(node(20, 2, Some(leaf(10)), Some(leaf(30))))) };
    assert_eq!(tree, expected);
}

#[test]
fn insert_right_left_rotates_twice() {
    let tree = built(&[10, 30, 20]);
    let expected = Tree { root: Some(Box::new(node(20, 2, Some(leaf(10)), Some(leaf(30))))) };
    assert_eq!(tree, expected);
}

#[test]
fn delete_leaf_and_single_child() {
    let mut tree = built(&[20, 10, 30, 40]);
    tree.delete(30);
    let expected = Tree { root: Some(Box::new(node(20, 2, Some(leaf(10)), Some(leaf(40))))) };
    assert_eq!(tree, expected);
    tree.delete(10);
    let expected = Tree { root: Some(Box::new(node(20, 2, None, Some(leaf(40))))) };
    assert_eq!(tree, expected);
    tree.delete(40);
    assert_eq!(tree, Tree { root: Some(Box::new(leaf(20))) });
}

#[test]
fn delete_rebalances_with_double_rotation() {
    // Removing 40 leaves the left side two higher and leaning right.
    let mut tree = built(&[30, 10, 40, 20]);
    tree.delete(40);
    let expected = Tree { root: Some(Box::new(node(20, 2, Some(leaf(10)), Some(leaf(30))))) };
    assert_eq!(tree, expected);
}

#[test]
fn duplicate_insert_keeps_structure() {
    let mut tree = built(&[10, 20, 30, 40, 50, 25]);
    let before = built(&[10, 20, 30, 40, 50, 25]);
    tree.insert(25);
    tree.insert(30);
    assert_eq!(tree, before);
}

#[test]
fn absent_delete_keeps_structure() {
    let mut tree = built(&[10, 20, 30, 40, 50, 25]);
    let before = built(&[10, 20, 30, 40, 50, 25]);
    tree.delete(35);
    tree.delete(0);
    assert_eq!(tree, before);
}

#[test]
fn insert_then_delete_restores_keys() {
    let mut tree = built(&[10, 20, 30, 40, 50, 25]);
    let before = checked_in_order(&tree);
    tree.insert(27);
    assert_eq!(checked_in_order(&tree), vec![10, 20, 25, 27, 30, 40, 50]);
    tree.delete(27);
    assert_eq!(checked_in_order(&tree), before);
}

#[test]
fn invariants_hold_after_every_operation() {
    let mut tree = Tree::new();
    let mut expected: Vec<i32> = Vec::new();
    for i in 0..200 {
        let k = (i * 37) % 101;
        tree.insert(k);
        if !expected.contains(&k) {
            expected.push(k);
        }
        expected.sort();
        assert_eq!(checked_in_order(&tree), expected);
    }
    for i in 0..150 {
        let k = (i * 53) % 101;
        tree.delete(k);
        expected.retain(|&x| x != k);
        assert_eq!(checked_in_order(&tree), expected);
    }
}

#[test]
fn many_deletions_keep_root_balanced() {
    let mut tree = Tree::new();
    for i in 0..100 {
        tree.insert(i);
    }
    for i in 0..100 {
        if i % 10 == 0 {
            tree.delete(i);
        }
    }
    let remaining: Vec<i32> = (0..100).filter(|i| i % 10 != 0).collect();
    assert_eq!(checked_in_order(&tree), remaining);
    let b = i32::from(tree.balance());
    assert!((-1..=1).contains(&b));
}
