use avl_collections::avl_tree::{bias, get, height, mod_height, AVLNode, AVLTree};

#[test]
fn test_height() {
    assert_eq!(1, height(Some(&Box::new(AVLNode::new(1, 1)))));
    assert_eq!(0, height::<usize>(None));
}

#[test]
fn test_bias() {
    assert_eq!(0, bias(Some(&Box::new(AVLNode::new(1, 1)))));
}

#[test]
fn test_mod_height() {
    let lst = Some(Box::new(AVLNode::new(1, 1)));
    let rst = Some(Box::new(AVLNode::new(1, 1)));
    let mut root = Box::new(AVLNode { height: 1, value: 2, lst, rst });

    assert_eq!(0, bias(Some(&root)));
    assert_eq!(1, height(Some(&root)));
    mod_height(&mut root);
    assert_eq!(2, height(Some(&root)));
}

#[test]
fn bias_is_signed() {
    let rst = Some(Box::new(AVLNode { height: 2, value: 9, lst: None, rst: Some(Box::new(AVLNode::new(1, 10))) }));
    let root = Box::new(AVLNode { height: 3, value: 5, lst: None, rst });
    assert_eq!(-2, bias(Some(&root)));
    assert_eq!(0, bias::<i32>(None));
}

#[test]
fn get_finds_stored_values() {
    let lst = Some(Box::new(AVLNode::new(1, 3)));
    let rst = Some(Box::new(AVLNode::new(1, 8)));
    let root = Some(Box::new(AVLNode { height: 2, value: 5, lst, rst }));
    assert_eq!(get(root.as_ref(), &3), Some(&3));
    assert_eq!(get(root.as_ref(), &4), None);
    let tree = AVLTree { root };
    assert_eq!(tree.get(&8), Some(&8));
    assert_eq!(tree.get(&5), Some(&5));
    assert_eq!(tree.get(&9), None);
    let empty: AVLTree<i32> = AVLTree { root: None };
    assert_eq!(empty.get(&1), None);
}
