use avl_collections::list::{LinkedList, Node};

#[test]
fn new_returns_empty_list() {
    let list: LinkedList<i32> = LinkedList::new();
    assert!(list.eq(&LinkedList::<i32>::new()));
    assert_eq!(list.len(), 0);

    let list: LinkedList<i32> = LinkedList::new();
    assert!(list.eq(&mut LinkedList::<i32>::new()));
    assert_eq!(list.front(), None);
}

#[test]
fn new_returns_empty_node() {
    let node: Node<i32> = Node::new(1);
    assert_eq!(node, Node { element: 1 });

    let node: Node<i32> = Node::new(2);
    assert_eq!(node, Node { element: 2 });
}

#[test]
fn push_and_pop() {
    let mut list: LinkedList<i32> = LinkedList::new();
    list.push_front(20);
    assert_eq!(list.front(), Some(&20));
    assert_eq!(list.back(), Some(&20));
    assert_eq!(list.len(), 1);
    list.push_front(10);
    assert_eq!(list.front(), Some(&10));
    assert_eq!(list.back(), Some(&20));
    assert_eq!(list.len(), 2);
    list.push_back(30);
    assert_eq!(list.front(), Some(&10));
    assert_eq!(list.back(), Some(&30));
    assert_eq!(list.len(), 3);
}

#[test]
fn node_gives_back_its_element() {
    let node = Box::new(Node::new(7));
    assert_eq!(node.into_element(), 7);
}

#[test]
fn empty_list_has_no_ends() {
    let list: LinkedList<i32> = LinkedList::new();
    assert_eq!(list.front(), None);
    assert_eq!(list.back(), None);
}
