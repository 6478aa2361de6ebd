use avl_collections::tree::Tree;

#[test]
fn new_root_returns_empty_tree() {
    let tree: Tree<i32> = Tree::new_root();
    assert!(tree.eq(&Tree::<i32> { right: None, left: None, data: None }));
}

#[test]
fn new_returns_tree() {
    let tree: Tree<i32> = Tree::new(10);
    assert!(tree.eq(&Tree::<i32> { right: None, left: None, data: Some(10) }));

    let tree = Tree::new("hoge".to_string());
    assert!(tree.eq(&Tree::<String> { right: None, left: None, data: Some("hoge".to_string()) }));
}

#[test]
fn eq_test() {
    assert_eq!(
        Tree::<i32> { right: None, left: None, data: Some(10) },
        Tree::<i32> { right: None, left: None, data: Some(10) }
    );

    assert_ne!(
        Tree::<i32> {
            right: Some(Box::new(Tree::<i32> { right: None, left: None, data: Some(15) })),
            left: None,
            data: Some(10)
        },
        Tree::<i32> { right: None, left: None, data: Some(10) }
    );

    assert_ne!(
        Tree::<i32> {
            right: Some(Box::new(Tree::<i32> { right: None, left: None, data: Some(15) })),
            left: None,
            data: Some(10)
        },
        Tree::<i32> {
            right: Some(Box::new(Tree::<i32> { right: None, left: None, data: Some(12) })),
            left: None,
            data: Some(10)
        }
    );

    assert_eq!(
        Tree::<i32> {
            right: Some(Box::new(Tree::<i32> { right: None, left: None, data: Some(15) })),
            left: None,
            data: Some(10)
        },
        Tree::<i32> {
            right: Some(Box::new(Tree::<i32> { right: None, left: None, data: Some(15) })),
            left: None,
            data: Some(10)
        }
    );
}

#[test]
fn add_places_larger_values_left() {
    let mut tree = Tree::new(10);
    tree.add(15);
    tree.add(5);
    tree.add(12);
    let expected = Tree {
        right: Some(Box::new(Tree::new(5))),
        left: Some(Box::new(Tree {
            right: Some(Box::new(Tree::new(12))),
            left: None,
            data: Some(15),
        })),
        data: Some(10),
    };
    assert_eq!(tree, expected);
}

#[test]
fn add_to_empty_root_does_nothing() {
    let mut tree: Tree<i32> = Tree::new_root();
    tree.add(3);
    assert_eq!(tree, Tree::new_root());
}
