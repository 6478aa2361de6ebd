//! A second, smaller AVL node type with height and balance helpers and lookup.
use std::cmp::Ordering;
use vstd::prelude::*;
use vstd::std_specs::cmp::OrdSpec;

use crate::avl::{lemma_total_order, lt, total_order};

verus! {

/// A node holding a value, the cached height of its subtree, and its left and
/// right subtrees.
#[derive(Debug)]
pub struct AVLNode<T> {
    pub height: usize,
    pub value: T,
    pub lst: Option<Box<AVLNode<T>>>,
    pub rst: Option<Box<AVLNode<T>>>,
}

/// A tree of `AVLNode`s; the empty tree has no root.
#[derive(Debug)]
pub struct AVLTree<T> {
    pub root: Option<Box<AVLNode<T>>>,
}

impl<T> AVLNode<T> {
    pub fn new(height: usize, value: T) -> (r: Self)
        ensures
            r == (AVLNode::<T> { height, value, lst: None, rst: None }),
    {
        AVLNode { height, value, lst: None, rst: None }
    }
}

/// The values held by a subtree.
pub open spec fn values<T>(t: Option<Box<AVLNode<T>>>) -> Set<T>
    decreases t,
{
    match t {
        None => Set::empty(),
        Some(n) => values(n.lst).union(values(n.rst)).insert(n.value),
    }
}

/// Search-tree order at every node: smaller values on the left, larger on the right.
pub open spec fn is_search_tree<T: Ord>(t: Option<Box<AVLNode<T>>>) -> bool
    decreases t,
{
    match t {
        None => true,
        Some(n) => {
            &&& forall|v: T| #[trigger] values(n.lst).contains(v) ==> lt(v, n.value)
            &&& forall|v: T| #[trigger] values(n.rst).contains(v) ==> lt(n.value, v)
            &&& is_search_tree(n.lst)
            &&& is_search_tree(n.rst)
        },
    }
}

/// The cached height of a subtree; an absent one has height 0.
pub open spec fn cached_height<T>(t: Option<Box<AVLNode<T>>>) -> int {
    match t {
        None => 0,
        Some(n) => n.height as int,
    }
}

/// Looks `value` up below `node`: the stored value equal to it, if any.
pub fn get<'a, T: Ord>(node: Option<&'a Box<AVLNode<T>>>, value: &T) -> (r: Option<&'a T>)
    requires
        total_order::<T>(),
        node matches Some(n) ==> is_search_tree(Some(*n)),
    ensures
        r is Some <==> (node matches Some(n) && values(Some(*n)).contains(*value)),
        r matches Some(v) ==> *v == *value,
    decreases node,
{
    proof {
        lemma_total_order::<T>();
    }
    match node {
        None => None,
        Some(n) => {
            proof {
                assert(is_search_tree(Some(*n)));
            }
            match value.cmp(&n.value) {
                Ordering::Less => {
                    proof {
                        assert(values(Some(*n)) == values(n.lst).union(values(n.rst)).insert(n.value));
                        assert(is_search_tree(n.lst));
                        if values(n.rst).contains(*value) {
                            assert(lt(n.value, *value));
                        }
                    }
                    get(n.lst.as_ref(), value)
                },
                Ordering::Greater => {
                    proof {
                        assert(values(Some(*n)) == values(n.lst).union(values(n.rst)).insert(n.value));
                        assert(is_search_tree(n.rst));
                        if values(n.lst).contains(*value) {
                            assert(lt(*value, n.value));
                        }
                    }
                    get(n.rst.as_ref(), value)
                },
                Ordering::Equal => Some(&n.value),
            }
        },
    }
}

impl<T: Ord> AVLTree<T> {
    /// The stored value equal to `other`, if any.
    pub fn get(&self, other: &T) -> (r: Option<&T>)
        requires
            total_order::<T>(),
            is_search_tree(self.root),
        ensures
            r is Some <==> values(self.root).contains(*other),
            r matches Some(v) ==> *v == *other,
    {
        get(self.root.as_ref(), other)
    }
}

/// The cached height of a subtree, 0 where it is absent.
pub fn height<T>(t: Option<&Box<AVLNode<T>>>) -> (r: usize)
    ensures
        r as int == (match t {
            None => 0,
            Some(n) => n.height as int,
        }),
{
    match t {
        None => 0,
        Some(node) => node.height,
    }
}

/// The balance factor of a subtree: left height minus right height, 0 where
/// the subtree is absent.
pub fn bias<T>(t: Option<&Box<AVLNode<T>>>) -> (r: i32)
    requires
        t matches Some(n) ==> cached_height(n.lst) <= i32::MAX && cached_height(n.rst) <= i32::MAX,
    ensures
        r as int == (match t {
            None => 0,
            Some(n) => cached_height(n.lst) - cached_height(n.rst),
        }),
{
    match t {
        None => 0,
        Some(node) => {
            let hl = height(node.lst.as_ref()) as i32;
            let hr = height(node.rst.as_ref()) as i32;
            hl - hr
        },
    }
}

/// Recomputes the cached height of `t` from its subtrees.
pub fn mod_height<T>(t: &mut Box<AVLNode<T>>)
    requires
        cached_height(old(t).lst) < usize::MAX,
        cached_height(old(t).rst) < usize::MAX,
    ensures
        final(t).value == old(t).value,
        final(t).lst == old(t).lst,
        final(t).rst == old(t).rst,
        final(t).height as int == 1 + if cached_height(old(t).lst) >= cached_height(old(t).rst) {
            cached_height(old(t).lst)
        } else {
            cached_height(old(t).rst)
        },
{
    let lst_height = height(t.lst.as_ref());
    let rst_height = height(t.rst.as_ref());
    let m = if lst_height >= rst_height {
        lst_height
    } else {
        rst_height
    };
    t.height = 1 + m;
}

} // verus!
