//! A double-ended list of elements.
use vstd::prelude::*;

verus! {

/// One element of a list.
#[derive(Debug, PartialEq)]
pub struct Node<T> {
    pub element: T,
}

impl<T> Node<T> {
    pub fn new(value: T) -> (r: Self)
        ensures
            r.element == value,
    {
        Node { element: value }
    }

    pub fn into_element(self: Box<Self>) -> (r: T)
        ensures
            r == self.element,
    {
        self.element
    }
}

/// A list that grows at either end; its view is the sequence of elements from
/// front to back.
#[derive(Debug, PartialEq)]
pub struct LinkedList<T> {
    elements: Vec<T>,
}

impl<T> View for LinkedList<T> {
    type V = Seq<T>;

    closed spec fn view(&self) -> Seq<T> {
        self.elements@
    }
}

impl<T> LinkedList<T> {
    pub fn new() -> (r: Self)
        ensures
            r@ == Seq::<T>::empty(),
    {
        LinkedList { elements: Vec::new() }
    }

    pub fn len(&self) -> (r: usize)
        ensures
            r == self@.len(),
    {
        self.elements.len()
    }

    pub fn push_front(&mut self, value: T)
        requires
            old(self)@.len() < usize::MAX,
        ensures
            final(self)@ == seq![value] + old(self)@,
    {
        self.elements.insert(0, value);
        proof {
            assert(self@ =~= seq![value] + old(self)@);
        }
    }

    pub fn push_back(&mut self, value: T)
        requires
            old(self)@.len() < usize::MAX,
        ensures
            final(self)@ == old(self)@.push(value),
    {
        self.elements.push(value);
    }

    pub fn front(&self) -> (r: Option<&T>)
        ensures
            r == (if self@.len() == 0 {
                None
            } else {
                Some(&self@[0])
            }),
    {
        if self.elements.len() == 0 {
            None
        } else {
            Some(&self.elements[0])
        }
    }

    pub fn back(&self) -> (r: Option<&T>)
        ensures
            r == (if self@.len() == 0 {
                None
            } else {
                Some(&self@[self@.len() - 1])
            }),
    {
        let n = self.elements.len();
        if n == 0 {
            None
        } else {
            Some(&self.elements[n - 1])
        }
    }
}

} // verus!
