//! An ordered set of keys kept in an AVL tree: a binary search tree in which the
//! heights of the two subtrees of every node differ by at most one.
use std::cmp::Ordering;
use vstd::laws_cmp::{
    obeys_cmp, obeys_cmp_ord, obeys_cmp_partial_ord, obeys_partial_cmp_spec_properties,
};
use vstd::laws_eq::{obeys_concrete_eq, obeys_eq_spec_properties};
use vstd::prelude::*;
use vstd::std_specs::cmp::{OrdSpec, PartialEqSpec, PartialOrdSpec};

verus! {

// ---------------------------------------------------------------------------
// The order on keys
// ---------------------------------------------------------------------------

/// The key type's `cmp` is a strict total order whose `Equal` is equality.
pub open spec fn total_order<T: Ord>() -> bool {
    obeys_cmp::<T>() && obeys_concrete_eq::<T>()
}

/// `a` comes strictly before `b`.
pub open spec fn lt<T: Ord>(a: T, b: T) -> bool {
    a.cmp_spec(&b) == Ordering::Less
}

/// The laws of a strict total order, stated over `lt`.
pub proof fn lemma_total_order<T: Ord>()
    requires
        total_order::<T>(),
    ensures
        T::obeys_cmp_spec(),
        forall|a: T, b: T| #[trigger] a.cmp_spec(&b) == Ordering::Equal <==> a == b,
        forall|a: T, b: T| #[trigger] a.cmp_spec(&b) == Ordering::Greater <==> lt(b, a),
        forall|a: T, b: T| #[trigger] lt(a, b) ==> !lt(b, a) && a != b,
        forall|a: T, b: T, c: T| #[trigger] lt(a, b) && #[trigger] lt(b, c) ==> lt(a, c),
{
    reveal(obeys_partial_cmp_spec_properties);
    reveal(obeys_cmp_partial_ord);
    reveal(obeys_cmp_ord);
    reveal(obeys_concrete_eq);
    assert forall|a: T, b: T| #[trigger] a.cmp_spec(&b) == Ordering::Equal <==> a == b by {
        assert(a.partial_cmp_spec(&b) == Some(a.cmp_spec(&b)));
    }
    assert forall|a: T, b: T| #[trigger] a.cmp_spec(&b) == Ordering::Greater <==> lt(b, a) by {
        assert(a.partial_cmp_spec(&b) == Some(a.cmp_spec(&b)));
        assert(b.partial_cmp_spec(&a) == Some(b.cmp_spec(&a)));
    }
    assert forall|a: T, b: T| #[trigger] lt(a, b) implies !lt(b, a) && a != b by {
        assert(a.partial_cmp_spec(&b) == Some(a.cmp_spec(&b)));
        assert(b.partial_cmp_spec(&a) == Some(b.cmp_spec(&a)));
        if a == b {
            assert(a.eq_spec(&b));
        }
    }
    assert forall|a: T, b: T, c: T| #[trigger] lt(a, b) && #[trigger] lt(b, c) implies lt(a, c) by {
        assert(a.partial_cmp_spec(&b) == Some(a.cmp_spec(&b)));
        assert(b.partial_cmp_spec(&c) == Some(b.cmp_spec(&c)));
        assert(a.partial_cmp_spec(&c) == Some(a.cmp_spec(&c)));
    }
}

/// The machine integer types are totally ordered keys.
pub proof fn lemma_integer_keys()
    ensures
        total_order::<i32>(),
        total_order::<i64>(),
        total_order::<u32>(),
        total_order::<u64>(),
        total_order::<usize>(),
{
    broadcast use vstd::laws_cmp::group_laws_cmp, vstd::laws_eq::group_laws_eq;

}

// ---------------------------------------------------------------------------
// Balance factors
// ---------------------------------------------------------------------------

/// The balance factor of a node, `height(left) - height(right)`, by sign and size.
#[derive(Debug, PartialEq, Eq, Structural)]
pub enum Balance {
    LeftLean(usize),
    RightLean(usize),
    Balanced,
}

/// The balance that stands for the signed difference `d`.
pub open spec fn classify(d: int) -> Balance {
    if d > 0 {
        Balance::LeftLean(d as usize)
    } else if d < 0 {
        Balance::RightLean((-d) as usize)
    } else {
        Balance::Balanced
    }
}

impl Balance {
    pub fn is_balanced(&self) -> (r: bool)
        ensures
            r == (*self is Balanced),
    {
        matches!(self, Balance::Balanced)
    }

    pub fn is_left_lean(&self) -> (r: bool)
        ensures
            r == (*self is LeftLean),
    {
        matches!(self, Balance::LeftLean(_))
    }

    pub fn is_right_lean(&self) -> (r: bool)
        ensures
            r == (*self is RightLean),
    {
        matches!(self, Balance::RightLean(_))
    }
}

/// The signed value of a balance; a magnitude is read as `as i32` reads it.
pub open spec fn balance_to_i32(b: Balance) -> i32 {
    match b {
        Balance::LeftLean(n) => n as i32,
        Balance::RightLean(n) => if n as i32 == i32::MIN {
            i32::MIN
        } else {
            (-(n as i32)) as i32
        },
        Balance::Balanced => 0,
    }
}

impl From<Balance> for i32 {
    fn from(balance: Balance) -> (r: i32) {
        match balance {
            Balance::LeftLean(n) => n as i32,
            Balance::RightLean(n) => {
                let m = n as i32;
                if m == i32::MIN {
                    m
                } else {
                    -m
                }
            },
            Balance::Balanced => 0,
        }
    }
}

impl vstd::std_specs::convert::FromSpecImpl<Balance> for i32 {
    open spec fn obeys_from_spec() -> bool {
        true
    }

    open spec fn from_spec(v: Balance) -> i32 {
        balance_to_i32(v)
    }
}

impl From<i32> for Balance {
    fn from(i: i32) -> (r: Balance) {
        match i.cmp(&0) {
            Ordering::Equal => Balance::Balanced,
            Ordering::Greater => Balance::LeftLean(i as usize),
            Ordering::Less => Balance::RightLean((-(i as i64)) as usize),
        }
    }
}

impl vstd::std_specs::convert::FromSpecImpl<i32> for Balance {
    open spec fn obeys_from_spec() -> bool {
        true
    }

    open spec fn from_spec(v: i32) -> Balance {
        classify(v as int)
    }
}

// ---------------------------------------------------------------------------
// Nodes and their mathematical reading
// ---------------------------------------------------------------------------

/// One node of the tree: a key, the cached height of the subtree it roots, and
/// two exclusively owned children.
#[derive(Debug, PartialEq)]
pub struct Node<T> {
    pub key: T,
    pub height: usize,
    pub left: Option<Box<Node<T>>>,
    pub right: Option<Box<Node<T>>>,
}

/// The cached height of a subtree; an absent subtree has height 0.
pub open spec fn height_of<T>(t: Option<Box<Node<T>>>) -> int {
    match t {
        None => 0,
        Some(n) => n.height as int,
    }
}

/// The larger of two integers.
pub open spec fn max_int(a: int, b: int) -> int {
    if a >= b {
        a
    } else {
        b
    }
}

/// The set of keys held by a subtree.
pub open spec fn keys<T>(t: Option<Box<Node<T>>>) -> Set<T>
    decreases t,
{
    match t {
        None => Set::empty(),
        Some(n) => keys(n.left).union(keys(n.right)).insert(n.key),
    }
}

/// The keys of a subtree in in-order (left subtree, node, right subtree).
pub open spec fn inorder<T>(t: Option<Box<Node<T>>>) -> Seq<T>
    decreases t,
{
    match t {
        None => Seq::empty(),
        Some(n) => inorder(n.left) + seq![n.key] + inorder(n.right),
    }
}

/// The node with key `k` and children `l` and `r`, whose cached height is correct.
pub open spec fn mk<T>(k: T, l: Option<Box<Node<T>>>, r: Option<Box<Node<T>>>) -> Node<T> {
    Node { key: k, height: (1 + max_int(height_of(l), height_of(r))) as usize, left: l, right: r }
}

/// A well-formed AVL subtree: at every node the keys on the left are smaller and
/// those on the right larger than the node's key, the cached height is one more
/// than the larger child height, and the child heights differ by at most one.
pub open spec fn is_avl<T: Ord>(t: Option<Box<Node<T>>>) -> bool
    decreases t,
{
    match t {
        None => true,
        Some(n) => {
            &&& forall|k: T| #[trigger] keys(n.left).contains(k) ==> lt(k, n.key)
            &&& forall|k: T| #[trigger] keys(n.right).contains(k) ==> lt(n.key, k)
            &&& n.height == 1 + max_int(height_of(n.left), height_of(n.right))
            &&& -1 <= height_of(n.left) - height_of(n.right) <= 1
            &&& is_avl(n.left)
            &&& is_avl(n.right)
        },
    }
}

/// The balance factor of a subtree; an absent subtree counts as balanced.
pub open spec fn balance_of<T>(t: Option<Box<Node<T>>>) -> int {
    match t {
        None => 0,
        Some(n) => height_of(n.left) - height_of(n.right),
    }
}

impl<T> Node<T> {
    pub fn new(k: T) -> (r: Self)
        ensures
            r == (Node::<T> { key: k, height: 1, left: None, right: None }),
    {
        Node { key: k, height: 1, left: None, right: None }
    }

    pub fn key(&self) -> (r: &T)
        ensures
            *r == self.key,
    {
        &self.key
    }

    pub fn left_key(&self) -> (r: Option<&T>)
        ensures
            r == (match self.left {
                Some(l) => Some(&l.key),
                None => None,
            }),
    {
        match &self.left {
            Some(l) => Some(&l.key),
            None => None,
        }
    }

    pub fn right_key(&self) -> (r: Option<&T>)
        ensures
            r == (match self.right {
                Some(n) => Some(&n.key),
                None => None,
            }),
    {
        match &self.right {
            Some(n) => Some(&n.key),
            None => None,
        }
    }

    pub fn left_as_mut(&mut self) -> (r: Option<&mut Box<Node<T>>>)
        ensures
            r is Some <==> old(self).left is Some,
            r matches Some(b) ==> *b == old(self).left.unwrap()
                && *final(self) == (Node::<T> { left: Some(*final(b)), ..*old(self) }),
            r is None ==> *final(self) == *old(self),
    {
        self.left.as_mut()
    }

    pub fn right_as_mut(&mut self) -> (r: Option<&mut Box<Node<T>>>)
        ensures
            r is Some <==> old(self).right is Some,
            r matches Some(b) ==> *b == old(self).right.unwrap()
                && *final(self) == (Node::<T> { right: Some(*final(b)), ..*old(self) }),
            r is None ==> *final(self) == *old(self),
    {
        self.right.as_mut()
    }

    /// Recomputes the cached height from the children's heights.
    pub fn update_height(&mut self)
        requires
            height_of(old(self).left) < usize::MAX,
            height_of(old(self).right) < usize::MAX,
        ensures
            *final(self) == mk(old(self).key, old(self).left, old(self).right),
    {
        self.height = max_height(&*self) + 1;
    }
}

/// The cached height of a subtree, 0 where it is absent.
pub fn height<T>(node: &Option<Box<Node<T>>>) -> (r: usize)
    ensures
        r as int == height_of(*node),
{
    match node {
        Some(n) => n.height,
        None => 0,
    }
}

/// The larger of the two child heights of a node.
pub fn max_height<T>(node: &Node<T>) -> (r: usize)
    ensures
        r as int == max_int(height_of(node.left), height_of(node.right)),
{
    let hl = height(&node.left);
    let hr = height(&node.right);
    if hl >= hr {
        hl
    } else {
        hr
    }
}

/// The balance factor of a node, classified by sign.
pub fn get_balance<T>(node: &Node<T>) -> (r: Balance)
    ensures
        r == classify(height_of(node.left) - height_of(node.right)),
{
    let hl = height(&node.left);
    let hr = height(&node.right);
    if hl > hr {
        Balance::LeftLean(hl - hr)
    } else if hl < hr {
        Balance::RightLean(hr - hl)
    } else {
        Balance::Balanced
    }
}

/// The balance factor of a subtree; an absent one is balanced.
pub fn get_balance_opt<T>(node: &Option<Box<Node<T>>>) -> (r: Balance)
    ensures
        r == classify(balance_of(*node)),
{
    match node {
        None => Balance::Balanced,
        Some(n) => get_balance(n),
    }
}

// ---------------------------------------------------------------------------
// Rotations
// ---------------------------------------------------------------------------

/// Promotes the left child `x` of `y`: `x`'s right subtree becomes `y`'s left one
/// and `y` becomes `x`'s right child; both heights are recomputed.
pub fn right_rotate<T>(y: Box<Node<T>>) -> (r: Box<Node<T>>)
    requires
        y.left is Some,
        height_of(y.left.unwrap().left) < usize::MAX - 1,
        height_of(y.left.unwrap().right) < usize::MAX - 1,
        height_of(y.right) < usize::MAX - 1,
    ensures
        ({
            let x = y.left.unwrap();
            *r == mk(x.key, x.left, Some(Box::new(mk(y.key, x.right, y.right))))
        }),
{
    let mut y = y;
    let mut x = y.left.take().unwrap();
    y.left = x.right.take();
    y.update_height();
    x.right = Some(y);
    x.update_height();
    x
}

/// Promotes the right child `y` of `x`: `y`'s left subtree becomes `x`'s right one
/// and `x` becomes `y`'s left child; both heights are recomputed.
pub fn left_rotate<T>(x: Box<Node<T>>) -> (r: Box<Node<T>>)
    requires
        x.right is Some,
        height_of(x.right.unwrap().left) < usize::MAX - 1,
        height_of(x.right.unwrap().right) < usize::MAX - 1,
        height_of(x.left) < usize::MAX - 1,
    ensures
        ({
            let y = x.right.unwrap();
            *r == mk(y.key, Some(Box::new(mk(x.key, x.left, y.left))), y.right)
        }),
{
    let mut x = x;
    let mut y = x.right.take().unwrap();
    x.right = y.left.take();
    x.update_height();
    y.left = Some(x);
    y.update_height();
    y
}

// ---------------------------------------------------------------------------
// Facts about well-formed subtrees
// ---------------------------------------------------------------------------

/// A well-formed subtree holds finitely many keys, and its height is at most
/// their number.
pub proof fn lemma_height_bound<T: Ord>(t: Option<Box<Node<T>>>)
    requires
        total_order::<T>(),
        is_avl(t),
    ensures
        keys(t).finite(),
        0 <= height_of(t) <= keys(t).len(),
        t is Some ==> height_of(t) >= 1,
        t is Some ==> keys(t.unwrap().left).len() < keys(t).len(),
        t is Some ==> keys(t.unwrap().right).len() < keys(t).len(),
    decreases t,
{
    if let Some(n) = t {
        lemma_total_order::<T>();
        lemma_height_bound(n.left);
        lemma_height_bound(n.right);
        let kl = keys(n.left);
        let kr = keys(n.right);
        assert(kl.disjoint(kr)) by {
            assert forall|k: T| kl.contains(k) implies !kr.contains(k) by {
                if kr.contains(k) {
                    assert(lt(k, n.key) && lt(n.key, k));
                }
            }
        }
        vstd::set_lib::lemma_set_disjoint_lens(kl, kr);
        assert(!(kl + kr).contains(n.key)) by {
            if kl.contains(n.key) {
                assert(lt(n.key, n.key));
            }
            if kr.contains(n.key) {
                assert(lt(n.key, n.key));
            }
        }
        assert(keys(t) == (kl + kr).insert(n.key));
    }
}

/// A node built from two well-formed subtrees on the right sides of its key,
/// whose heights differ by at most one, is well formed.
pub proof fn lemma_mk_avl<T: Ord>(k: T, l: Option<Box<Node<T>>>, r: Option<Box<Node<T>>>)
    requires
        is_avl(l),
        is_avl(r),
        forall|x: T| #[trigger] keys(l).contains(x) ==> lt(x, k),
        forall|x: T| #[trigger] keys(r).contains(x) ==> lt(k, x),
        -1 <= height_of(l) - height_of(r) <= 1,
        height_of(l) < usize::MAX,
        height_of(r) < usize::MAX,
    ensures
        is_avl(Some(Box::new(mk(k, l, r)))),
        keys(Some(Box::new(mk(k, l, r)))) == keys(l).union(keys(r)).insert(k),
        height_of(Some(Box::new(mk(k, l, r)))) == 1 + max_int(height_of(l), height_of(r)),
{
    assert(height_of(l) >= 0 && height_of(r) >= 0) by {
        match l {
            None => {},
            Some(n) => {},
        }
        match r {
            None => {},
            Some(n) => {},
        }
    }
}

// ---------------------------------------------------------------------------
// Rebalancing cases
// ---------------------------------------------------------------------------

/// Ordering at the top node only: the keys on the left are smaller and those on
/// the right larger than the node's key.
pub open spec fn ordered_at<T: Ord>(n: Node<T>) -> bool {
    &&& forall|k: T| #[trigger] keys(n.left).contains(k) ==> lt(k, n.key)
    &&& forall|k: T| #[trigger] keys(n.right).contains(k) ==> lt(n.key, k)
}

/// Left subtree two higher and not leaning right: one right rotation restores
/// the balance.
pub proof fn lemma_left_left_case<T: Ord>(n: Node<T>)
    requires
        total_order::<T>(),
        is_avl(n.left),
        is_avl(n.right),
        ordered_at(n),
        height_of(n.left) == height_of(n.right) + 2,
        balance_of(n.left) >= 0,
        height_of(n.left) < usize::MAX,
    ensures
        n.left is Some,
        ({
            let x = n.left.unwrap();
            let r = Some(Box::new(mk(x.key, x.left, Some(Box::new(mk(n.key, x.right, n.right))))));
            &&& is_avl(r)
            &&& keys(r) == keys(n.left).union(keys(n.right)).insert(n.key)
            &&& height_of(r) == height_of(n.left) + 1 - balance_of(n.left)
            &&& height_of(x.left) < usize::MAX - 1
            &&& height_of(x.right) < usize::MAX - 1
            &&& height_of(n.right) < usize::MAX - 1
        }),
{
    lemma_total_order::<T>();
    lemma_height_bound(n.right);
    let x = *n.left.unwrap();
    assert(is_avl(x.left) && is_avl(x.right));
    lemma_height_bound(x.left);
    lemma_height_bound(x.right);
    assert(keys(n.left).contains(x.key));
    assert(keys(x.left).subset_of(keys(n.left)));
    assert(keys(x.right).subset_of(keys(n.left)));
    lemma_mk_avl(n.key, x.right, n.right);
    let inner = Some(Box::new(mk(n.key, x.right, n.right)));
    assert forall|k: T| #[trigger] keys(inner).contains(k) implies lt(x.key, k) by {
        if keys(n.right).contains(k) {
            assert(lt(n.key, k));
        }
    }
    lemma_mk_avl(x.key, x.left, inner);
    let r = Some(Box::new(mk(x.key, x.left, inner)));
    assert(keys(r) =~= keys(n.left).union(keys(n.right)).insert(n.key));
}

/// Left subtree two higher and leaning right: a left rotation of the left child
/// followed by a right rotation restores the balance.
pub proof fn lemma_left_right_case<T: Ord>(n: Node<T>)
    requires
        total_order::<T>(),
        is_avl(n.left),
        is_avl(n.right),
        ordered_at(n),
        height_of(n.left) == height_of(n.right) + 2,
        balance_of(n.left) < 0,
        height_of(n.left) < usize::MAX,
    ensures
        n.left is Some,
        n.left.unwrap().right is Some,
        ({
            let x = n.left.unwrap();
            let z = x.right.unwrap();
            let r = Some(Box::new(mk(z.key, Some(Box::new(mk(x.key, x.left, z.left))),
                Some(Box::new(mk(n.key, z.right, n.right))))));
            &&& is_avl(r)
            &&& keys(r) == keys(n.left).union(keys(n.right)).insert(n.key)
            &&& height_of(r) == height_of(n.left)
            &&& height_of(x.left) < usize::MAX - 1
            &&& height_of(z.left) < usize::MAX - 1
            &&& height_of(z.right) < usize::MAX - 1
            &&& height_of(Some(Box::new(mk(x.key, x.left, z.left)))) < usize::MAX - 1
            &&& height_of(n.right) < usize::MAX - 1
        }),
{
    lemma_total_order::<T>();
    lemma_height_bound(n.right);
    let x = *n.left.unwrap();
    assert(is_avl(x.left) && is_avl(x.right));
    lemma_height_bound(x.left);
    lemma_height_bound(x.right);
    let z = *x.right.unwrap();
    assert(is_avl(z.left) && is_avl(z.right));
    lemma_height_bound(z.left);
    lemma_height_bound(z.right);
    assert(keys(n.left).contains(x.key));
    assert(keys(x.right).contains(z.key));
    assert(keys(x.left).subset_of(keys(n.left)));
    assert(keys(x.right).subset_of(keys(n.left)));
    assert(keys(z.left).subset_of(keys(x.right)));
    assert(keys(z.right).subset_of(keys(x.right)));
    assert(lt(x.key, z.key));
    assert(lt(z.key, n.key));
    lemma_mk_avl(x.key, x.left, z.left);
    lemma_mk_avl(n.key, z.right, n.right);
    let ll = Some(Box::new(mk(x.key, x.left, z.left)));
    let rr = Some(Box::new(mk(n.key, z.right, n.right)));
    assert forall|k: T| #[trigger] keys(ll).contains(k) implies lt(k, z.key) by {
        if keys(x.left).contains(k) {
            assert(lt(k, x.key));
        }
    }
    assert forall|k: T| #[trigger] keys(rr).contains(k) implies lt(z.key, k) by {
        if keys(n.right).contains(k) {
            assert(lt(n.key, k));
        }
    }
    lemma_mk_avl(z.key, ll, rr);
    let r = Some(Box::new(mk(z.key, ll, rr)));
    assert(keys(r) =~= keys(n.left).union(keys(n.right)).insert(n.key));
}

/// Right subtree two higher and not leaning left: one left rotation restores
/// the balance.
pub proof fn lemma_right_right_case<T: Ord>(n: Node<T>)
    requires
        total_order::<T>(),
        is_avl(n.left),
        is_avl(n.right),
        ordered_at(n),
        height_of(n.right) == height_of(n.left) + 2,
        balance_of(n.right) <= 0,
        height_of(n.right) < usize::MAX,
    ensures
        n.right is Some,
        ({
            let y = n.right.unwrap();
            let r = Some(Box::new(mk(y.key, Some(Box::new(mk(n.key, n.left, y.left))), y.right)));
            &&& is_avl(r)
            &&& keys(r) == keys(n.left).union(keys(n.right)).insert(n.key)
            &&& height_of(r) == height_of(n.right) + 1 + balance_of(n.right)
            &&& height_of(y.left) < usize::MAX - 1
            &&& height_of(y.right) < usize::MAX - 1
            &&& height_of(n.left) < usize::MAX - 1
        }),
{
    lemma_total_order::<T>();
    lemma_height_bound(n.left);
    let y = *n.right.unwrap();
    assert(is_avl(y.left) && is_avl(y.right));
    lemma_height_bound(y.left);
    lemma_height_bound(y.right);
    assert(keys(n.right).contains(y.key));
    assert(keys(y.left).subset_of(keys(n.right)));
    assert(keys(y.right).subset_of(keys(n.right)));
    lemma_mk_avl(n.key, n.left, y.left);
    let inner = Some(Box::new(mk(n.key, n.left, y.left)));
    assert forall|k: T| #[trigger] keys(inner).contains(k) implies lt(k, y.key) by {
        if keys(n.left).contains(k) {
            assert(lt(k, n.key));
        }
    }
    lemma_mk_avl(y.key, inner, y.right);
    let r = Some(Box::new(mk(y.key, inner, y.right)));
    assert(keys(r) =~= keys(n.left).union(keys(n.right)).insert(n.key));
}

/// Right subtree two higher and leaning left: a right rotation of the right child
/// followed by a left rotation restores the balance.
pub proof fn lemma_right_left_case<T: Ord>(n: Node<T>)
    requires
        total_order::<T>(),
        is_avl(n.left),
        is_avl(n.right),
        ordered_at(n),
        height_of(n.right) == height_of(n.left) + 2,
        balance_of(n.right) > 0,
        height_of(n.right) < usize::MAX,
    ensures
        n.right is Some,
        n.right.unwrap().left is Some,
        ({
            let y = n.right.unwrap();
            let z = y.left.unwrap();
            let r = Some(Box::new(mk(z.key, Some(Box::new(mk(n.key, n.left, z.left))),
                Some(Box::new(mk(y.key, z.right, y.right))))));
            &&& is_avl(r)
            &&& keys(r) == keys(n.left).union(keys(n.right)).insert(n.key)
            &&& height_of(r) == height_of(n.right)
            &&& height_of(y.right) < usize::MAX - 1
            &&& height_of(z.left) < usize::MAX - 1
            &&& height_of(z.right) < usize::MAX - 1
            &&& height_of(Some(Box::new(mk(y.key, z.right, y.right)))) < usize::MAX - 1
            &&& height_of(n.left) < usize::MAX - 1
        }),
{
    lemma_total_order::<T>();
    lemma_height_bound(n.left);
    let y = *n.right.unwrap();
    assert(is_avl(y.left) && is_avl(y.right));
    lemma_height_bound(y.left);
    lemma_height_bound(y.right);
    let z = *y.left.unwrap();
    assert(is_avl(z.left) && is_avl(z.right));
    lemma_height_bound(z.left);
    lemma_height_bound(z.right);
    assert(keys(n.right).contains(y.key));
    assert(keys(y.left).contains(z.key));
    assert(keys(y.left).subset_of(keys(n.right)));
    assert(keys(y.right).subset_of(keys(n.right)));
    assert(keys(z.left).subset_of(keys(y.left)));
    assert(keys(z.right).subset_of(keys(y.left)));
    assert(lt(z.key, y.key));
    assert(lt(n.key, z.key));
    lemma_mk_avl(n.key, n.left, z.left);
    lemma_mk_avl(y.key, z.right, y.right);
    let ll = Some(Box::new(mk(n.key, n.left, z.left)));
    let rr = Some(Box::new(mk(y.key, z.right, y.right)));
    assert forall|k: T| #[trigger] keys(ll).contains(k) implies lt(k, z.key) by {
        if keys(n.left).contains(k) {
            assert(lt(k, n.key));
        }
    }
    assert forall|k: T| #[trigger] keys(rr).contains(k) implies lt(z.key, k) by {
        if keys(y.right).contains(k) {
            assert(lt(y.key, k));
        }
    }
    lemma_mk_avl(z.key, ll, rr);
    let r = Some(Box::new(mk(z.key, ll, rr)));
    assert(keys(r) =~= keys(n.left).union(keys(n.right)).insert(n.key));
}

// ---------------------------------------------------------------------------
// Insertion
// ---------------------------------------------------------------------------

/// Inserts `key` into the subtree `node` and returns the new, rebalanced root.
pub fn insert_with_node<T: Ord + Copy>(node: Option<Box<Node<T>>>, key: T) -> (r: Box<Node<T>>)
    requires
        total_order::<T>(),
        is_avl(node),
        keys(node).len() < usize::MAX,
    ensures
        is_avl(Some(r)),
        keys(Some(r)) == keys(node).insert(key),
        keys(node).contains(key) ==> Some(r) == node,
        height_of(Some(r)) == height_of(node) || height_of(Some(r)) == height_of(node) + 1,
        height_of(Some(r)) == height_of(node) + 1 && height_of(Some(r)) > 1 ==> {
            ||| lt(key, r.key) && height_of(r.left) == height_of(r.right) + 1
            ||| lt(r.key, key) && height_of(r.right) == height_of(r.left) + 1
        },
    decreases node,
{
    proof {
        lemma_total_order::<T>();
        lemma_height_bound(node);
    }
    match node {
        None => Box::new(Node::new(key)),
        Some(n) => {
            let mut n = n;
            let ghost old_n = *n;
            let ord = key.cmp(&n.key);
            proof {
                lemma_height_bound(n.left);
                lemma_height_bound(n.right);
            }
            match ord {
                Ordering::Less => {
                    let l = n.left.take();
                    let nl = insert_with_node(l, key);
                    n.left = Some(nl);
                    proof {
                        assert forall|k: T| #[trigger] keys(n.left).contains(k) implies lt(k, n.key) by {
                            if k != key {
                                assert(keys(old_n.left).contains(k));
                            }
                        }
                        if keys(node).contains(key) {
                            assert(!keys(old_n.right).contains(key));
                            assert(keys(old_n.left).contains(key));
                        }
                    }
                },
                Ordering::Greater => {
                    let rt = n.right.take();
                    let nr = insert_with_node(rt, key);
                    n.right = Some(nr);
                    proof {
                        assert forall|k: T| #[trigger] keys(n.right).contains(k) implies lt(n.key, k) by {
                            if k != key {
                                assert(keys(old_n.right).contains(k));
                            }
                        }
                        if keys(node).contains(key) {
                            assert(!keys(old_n.left).contains(key));
                            assert(keys(old_n.right).contains(key));
                        }
                    }
                },
                Ordering::Equal => {
                    proof {
                        assert(keys(node).insert(key) =~= keys(node));
                    }
                    return n;
                },
            }
            proof {
                lemma_height_bound(n.left);
                lemma_height_bound(n.right);
                assert(keys(Some(n)) =~= keys(node).insert(key));
            }
            n.update_height();
            proof {
                assert(keys(Some(n)) =~= keys(node).insert(key));
            }
            match get_balance(&n) {
                Balance::LeftLean(b) if b > 1 => {
                    // The left subtree grew to two above the right one and leans
                    // towards the new key.
                    match key.cmp(n.left_key().unwrap()) {
                        Ordering::Less => {
                            // left-left
                            proof {
                                lemma_left_left_case(*n);
                            }
                            right_rotate(n)
                        },
                        Ordering::Greater => {
                            // left-right
                            proof {
                                lemma_left_right_case(*n);
                            }
                            let nl = left_rotate(n.left.take().unwrap());
                            n.left = Some(nl);
                            right_rotate(n)
                        },
                        Ordering::Equal => n,
                    }
                },
                Balance::RightLean(b) if b > 1 => {
                    match key.cmp(n.right_key().unwrap()) {
                        Ordering::Greater => {
                            // right-right
                            proof {
                                lemma_right_right_case(*n);
                            }
                            left_rotate(n)
                        },
                        Ordering::Less => {
                            // right-left
                            proof {
                                lemma_right_left_case(*n);
                            }
                            let nr = right_rotate(n.right.take().unwrap());
                            n.right = Some(nr);
                            left_rotate(n)
                        },
                        Ordering::Equal => n,
                    }
                },
                _ => n,
            }
        },
    }
}

// ---------------------------------------------------------------------------
// Deletion
// ---------------------------------------------------------------------------

/// The key reached by following left links from `n` until none remains.
pub open spec fn leftmost<T>(n: Node<T>) -> T
    decreases n,
{
    match n.left {
        None => n.key,
        Some(l) => leftmost(*l),
    }
}

/// The key of the leftmost node below `node`; in a well-formed subtree it is the
/// smallest key.
pub fn min_value_node<T: Ord>(node: &Node<T>) -> (r: &T)
    ensures
        *r == leftmost(*node),
        keys(Some(Box::new(*node))).contains(*r),
        total_order::<T>() && is_avl(Some(Box::new(*node))) ==> forall|k: T|
            #[trigger] keys(Some(Box::new(*node))).contains(k) ==> k == *r || lt(*r, k),
    decreases node,
{
    match &node.left {
        None => {
            proof {
                if total_order::<T>() && is_avl(Some(Box::new(*node))) {
                    lemma_total_order::<T>();
                    assert(node.left is None);
                    assert(keys(Some(Box::new(*node))) == keys(node.left).union(keys(node.right)).insert(
                        node.key,
                    ));
                    assert forall|k: T| #[trigger] keys(Some(Box::new(*node))).contains(k) implies k
                        == node.key || lt(node.key, k) by {
                        if k != node.key {
                            assert(keys(node.right).contains(k));
                        }
                    }
                }
            }
            &node.key
        },
        Some(l) => {
            let r = min_value_node(l);
            proof {
                if total_order::<T>() && is_avl(Some(Box::new(*node))) {
                    lemma_total_order::<T>();
                    assert(keys(node.left).contains(*r));
                    assert forall|k: T| #[trigger] keys(Some(Box::new(*node))).contains(k) implies k
                        == *r || lt(*r, k) by {
                        if k == node.key {
                            assert(lt(*r, node.key));
                        } else if keys(node.right).contains(k) {
                            assert(lt(*r, node.key));
                            assert(lt(node.key, k));
                        }
                    }
                }
            }
            r
        },
    }
}

/// Deletes `key` from the subtree `node` and returns the new, rebalanced root.
#[verifier::spinoff_prover]
#[verifier::rlimit(60)]
pub fn delete_node<T: Ord + Copy>(node: Option<Box<Node<T>>>, key: T) -> (r: Option<Box<Node<T>>>)
    requires
        total_order::<T>(),
        is_avl(node),
    ensures
        is_avl(r),
        keys(r) == keys(node).remove(key),
        !keys(node).contains(key) ==> r == node,
        height_of(r) == height_of(node) || height_of(r) + 1 == height_of(node),
    decreases node,
{
    proof {
        lemma_total_order::<T>();
        lemma_height_bound(node);
    }
    match node {
        None => {
            proof {
                assert(keys(node).remove(key) =~= keys(node));
            }
            None
        },
        Some(n) => {
            let mut n = n;
            let ghost old_n = *n;
            proof {
                lemma_height_bound(n.left);
                lemma_height_bound(n.right);
            }
            match key.cmp(&n.key) {
                Ordering::Less => {
                    let l = n.left.take();
                    n.left = delete_node(l, key);
                    proof {
                        assert(!keys(old_n.right).contains(key));
                        assert(keys(Some(n)) =~= keys(node).remove(key));
                    }
                },
                Ordering::Greater => {
                    let rt = n.right.take();
                    n.right = delete_node(rt, key);
                    proof {
                        assert(!keys(old_n.left).contains(key));
                        assert(keys(Some(n)) =~= keys(node).remove(key));
                    }
                },
                Ordering::Equal => {
                    proof {
                        assert(!keys(old_n.left).contains(key));
                        assert(!keys(old_n.right).contains(key));
                    }
                    if n.left.is_none() && n.right.is_none() {
                        proof {
                            assert(keys(node).remove(key) =~= Set::empty());
                        }
                        return None;
                    } else if n.right.is_none() {
                        // The other side is a single leaf: take its key.
                        let ghost l = *n.left.unwrap();
                        proof {
                            assert(is_avl(old_n.left));
                            assert(is_avl(l.left) && is_avl(l.right));
                            lemma_height_bound(l.left);
                            lemma_height_bound(l.right);
                            assert(l.left is None && l.right is None);
                            assert(keys(node).remove(key) =~= set![l.key]);
                        }
                        let k = *n.left_key().unwrap();
                        n.key = k;
                        n.left = None;
                        proof {
                            assert(keys(Some(n)) =~= keys(node).remove(key));
                        }
                    } else if n.left.is_none() {
                        let ghost rt = *n.right.unwrap();
                        proof {
                            assert(is_avl(old_n.right));
                            assert(is_avl(rt.left) && is_avl(rt.right));
                            lemma_height_bound(rt.left);
                            lemma_height_bound(rt.right);
                            assert(rt.left is None && rt.right is None);
                            assert(keys(node).remove(key) =~= set![rt.key]);
                        }
                        let k = *n.right_key().unwrap();
                        n.key = k;
                        n.right = None;
                        proof {
                            assert(keys(Some(n)) =~= keys(node).remove(key));
                        }
                    } else {
                        // Two children: the in-order successor takes this node's place.
                        let dk = *min_value_node(n.right.as_ref().unwrap());
                        proof {
                            assert(keys(old_n.right).contains(dk));
                            assert(lt(key, dk));
                        }
                        n.key = dk;
                        let rt = n.right.take();
                        n.right = delete_node(rt, dk);
                        proof {
                            assert forall|k: T| #[trigger] keys(n.left).contains(k) implies lt(k, n.key) by {
                                assert(lt(k, key));
                            }
                            assert forall|k: T| #[trigger] keys(n.right).contains(k) implies lt(n.key, k) by {
                                assert(keys(old_n.right).contains(k));
                            }
                            assert(keys(Some(n)) =~= keys(node).remove(key));
                        }
                    }
                },
            }
            proof {
                lemma_height_bound(n.left);
                lemma_height_bound(n.right);
            }
            n.update_height();
            proof {
                assert(keys(Some(n)) == keys(node).remove(key));
            }
            match get_balance(&n) {
                Balance::LeftLean(b) if b > 1 => {
                    proof {
                        lemma_height_bound(old_n.left);
                    }
                    if !get_balance_opt(&n.left).is_right_lean() {
                        proof {
                            lemma_left_left_case(*n);
                        }
                        Some(right_rotate(n))
                    } else {
                        proof {
                            lemma_left_right_case(*n);
                        }
                        let nl = left_rotate(n.left.take().unwrap());
                        n.left = Some(nl);
                        Some(right_rotate(n))
                    }
                },
                Balance::RightLean(b) if b > 1 => {
                    proof {
                        lemma_height_bound(old_n.right);
                    }
                    if !get_balance_opt(&n.right).is_left_lean() {
                        proof {
                            lemma_right_right_case(*n);
                        }
                        Some(left_rotate(n))
                    } else {
                        proof {
                            lemma_right_left_case(*n);
                        }
                        let nr = right_rotate(n.right.take().unwrap());
                        n.right = Some(nr);
                        Some(left_rotate(n))
                    }
                },
                _ => Some(n),
            }
        },
    }
}

// ---------------------------------------------------------------------------
// The tree
// ---------------------------------------------------------------------------

/// An ordered set of keys in an AVL tree; the empty tree has no root.
#[derive(Debug, PartialEq)]
pub struct Tree<T> {
    pub root: Option<Box<Node<T>>>,
}

impl<T> View for Tree<T> {
    type V = Set<T>;

    /// The set of keys held.
    open spec fn view(&self) -> Set<T> {
        keys(self.root)
    }
}

impl<T: Ord + Copy> Tree<T> {
    /// Every node is ordered, has a correct cached height and is balanced.
    pub open spec fn wf(&self) -> bool {
        is_avl(self.root)
    }

    /// The keys in in-order.
    pub open spec fn in_order(&self) -> Seq<T> {
        inorder(self.root)
    }

    pub fn new() -> (r: Self)
        ensures
            r.wf(),
            r@ == Set::<T>::empty(),
            r.root is None,
    {
        Tree { root: None }
    }

    /// Adds `value`; a key already present leaves the tree exactly as it was.
    pub fn insert(&mut self, value: T)
        requires
            total_order::<T>(),
            old(self).wf(),
            old(self)@.len() < usize::MAX,
        ensures
            final(self).wf(),
            final(self)@ == old(self)@.insert(value),
            old(self)@.contains(value) ==> *final(self) == *old(self),
    {
        let root = self.root.take();
        self.root = Some(insert_with_node(root, value));
    }

    /// Removes `value`; a key that is absent leaves the tree exactly as it was.
    pub fn delete(&mut self, value: T)
        requires
            total_order::<T>(),
            old(self).wf(),
        ensures
            final(self).wf(),
            final(self)@ == old(self)@.remove(value),
            !old(self)@.contains(value) ==> *final(self) == *old(self),
    {
        let root = self.root.take();
        self.root = delete_node(root, value);
    }

    /// The balance factor at the root.
    pub fn balance(&self) -> (r: Balance)
        ensures
            r == classify(balance_of(self.root)),
    {
        get_balance_opt(&self.root)
    }
}

/// The in-order traversal of a well-formed subtree is strictly increasing and
/// lists exactly its keys.
pub proof fn lemma_inorder_sorted<T: Ord>(t: Option<Box<Node<T>>>)
    requires
        total_order::<T>(),
        is_avl(t),
    ensures
        forall|i: int, j: int|
            0 <= i < j < inorder(t).len() ==> #[trigger] lt(inorder(t)[i], inorder(t)[j]),
        forall|k: T| #[trigger] inorder(t).contains(k) <==> keys(t).contains(k),
    decreases t,
{
    if let Some(n) = t {
        lemma_total_order::<T>();
        lemma_inorder_sorted(n.left);
        lemma_inorder_sorted(n.right);
        let sl = inorder(n.left);
        let sr = inorder(n.right);
        let s = inorder(t);
        assert(s == sl + seq![n.key] + sr);
        assert forall|i: int, j: int| 0 <= i < j < s.len() implies #[trigger] lt(s[i], s[j]) by {
            let ln = sl.len() as int;
            if i < ln {
                assert(sl.contains(s[i]));
                assert(keys(n.left).contains(s[i]));
            }
            if j > ln {
                assert(s[j] == sr[j - ln - 1]);
                assert(sr.contains(s[j]));
                assert(keys(n.right).contains(s[j]));
            }
            if i < ln && j < ln {
                assert(s[i] == sl[i] && s[j] == sl[j]);
            } else if i > ln && j > ln {
                assert(s[i] == sr[i - ln - 1]);
            } else if i < ln && j > ln {
                assert(lt(s[i], n.key));
                assert(lt(n.key, s[j]));
            }
        }
        assert forall|k: T| #[trigger] s.contains(k) <==> keys(t).contains(k) by {
            if s.contains(k) {
                let i = choose|i: int| 0 <= i < s.len() && s[i] == k;
                let ln = sl.len() as int;
                if i < ln {
                    assert(sl[i] == k);
                    assert(sl.contains(k));
                } else if i > ln {
                    assert(sr[i - ln - 1] == k);
                    assert(sr.contains(k));
                }
            }
            if keys(t).contains(k) {
                if sl.contains(k) {
                    let i = choose|i: int| 0 <= i < sl.len() && sl[i] == k;
                    assert(s[i] == k);
                } else if sr.contains(k) {
                    let i = choose|i: int| 0 <= i < sr.len() && sr[i] == k;
                    assert(s[i + sl.len() + 1] == k);
                } else {
                    assert(s[sl.len() as int] == k);
                }
            }
        }
    }
}

/// After any sequence of operations, the in-order traversal of the tree is
/// strictly increasing (so holds no key twice) and lists exactly the keys held.
pub proof fn lemma_tree_in_order_sorted<T: Ord + Copy>(tree: Tree<T>)
    requires
        total_order::<T>(),
        tree.wf(),
    ensures
        forall|i: int, j: int|
            0 <= i < j < tree.in_order().len() ==> #[trigger] lt(
                tree.in_order()[i],
                tree.in_order()[j],
            ),
        forall|k: T| #[trigger] tree.in_order().contains(k) <==> tree@.contains(k),
{
    lemma_inorder_sorted(tree.root);
}

/// Inserting a key that was absent and then deleting it gives back exactly the
/// key set held before the insertion.
pub proof fn lemma_insert_delete_round_trip<T: Ord + Copy>(
    before: Tree<T>,
    inserted: Tree<T>,
    deleted: Tree<T>,
    key: T,
)
    requires
        !before@.contains(key),
        inserted@ == before@.insert(key),
        deleted@ == inserted@.remove(key),
    ensures
        deleted@ == before@,
{
    assert(deleted@ =~= before@);
}

} // verus!
