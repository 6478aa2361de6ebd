//! A plain, unbalanced binary tree that places each added value below a node
//! by comparing it with the node's value.
use vstd::multiset::Multiset;
use vstd::prelude::*;

verus! {

/// A node with optional data and two optional subtrees; a root without data
/// takes no values.
#[derive(Debug, PartialEq)]
pub struct Tree<T> {
    pub right: Option<Box<Tree<T>>>,
    pub left: Option<Box<Tree<T>>>,
    pub data: Option<T>,
}

/// The values held by an optional subtree, with their multiplicities.
pub open spec fn contents_opt<T>(t: Option<Box<Tree<T>>>) -> Multiset<T>
    decreases t,
{
    match t {
        None => Multiset::empty(),
        Some(n) => contents(*n),
    }
}

/// The values held by a tree, with their multiplicities.
pub open spec fn contents<T>(t: Tree<T>) -> Multiset<T>
    decreases t,
{
    let own = match t.data {
        None => Multiset::empty(),
        Some(d) => Multiset::singleton(d),
    };
    own.add(contents_opt(t.left)).add(contents_opt(t.right))
}

/// Every node of an optional subtree holds data.
pub open spec fn is_filled_opt<T>(t: Option<Box<Tree<T>>>) -> bool
    decreases t,
{
    match t {
        None => true,
        Some(n) => is_filled(*n),
    }
}

/// Every node of the tree holds data.
pub open spec fn is_filled<T>(t: Tree<T>) -> bool
    decreases t,
{
    t.data is Some && is_filled_opt(t.left) && is_filled_opt(t.right)
}

impl<T: PartialOrd> Tree<T> {
    pub fn new(value: T) -> (r: Self)
        ensures
            r == (Tree::<T> { right: None, left: None, data: Some(value) }),
    {
        Tree { right: None, left: None, data: Some(value) }
    }

    pub fn new_root() -> (r: Self)
        ensures
            r == (Tree::<T> { right: None, left: None, data: None }),
    {
        Tree { right: None, left: None, data: None }
    }

    /// Adds `value` below this node: into the left subtree where the node's value
    /// is smaller than `value`, else into the right one. A node without data
    /// takes nothing.
    pub fn add(&mut self, value: T)
        ensures
            final(self).data == old(self).data,
            old(self).data is None ==> *final(self) == *old(self),
            is_filled(*old(self)) ==> is_filled(*final(self)),
            is_filled(*old(self)) ==> contents(*final(self)) == contents(*old(self)).insert(value),
        decreases *old(self),
    {
        let go_left = match &self.data {
            None => {
                return ;
            },
            Some(n) => n.lt(&value),
        };
        if go_left {
            match self.left.take() {
                None => {
                    let leaf = Tree::new(value);
                    proof {
                        assert(contents(leaf) =~= Multiset::singleton(value));
                        assert(is_filled(leaf));
                    }
                    self.left = Some(Box::new(leaf));
                },
                Some(mut left_tree) => {
                    (&mut *left_tree).add(value);
                    self.left = Some(left_tree);
                },
            }
        } else {
            match self.right.take() {
                None => {
                    let leaf = Tree::new(value);
                    proof {
                        assert(contents(leaf) =~= Multiset::singleton(value));
                        assert(is_filled(leaf));
                    }
                    self.right = Some(Box::new(leaf));
                },
                Some(mut right_tree) => {
                    (&mut *right_tree).add(value);
                    self.right = Some(right_tree);
                },
            }
        }
        proof {
            if is_filled(*old(self)) {
                assert(contents(*self) =~= contents(*old(self)).insert(value));
            }
        }
    }
}

} // verus!
