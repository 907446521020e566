//! A double-ended list: push and pop at either end.
use std::collections::VecDeque;
use vstd::prelude::*;

verus! {

/// A sequence that grows and shrinks at both ends.
pub struct LinkedList<T> {
    items: VecDeque<T>,
}

impl<T> View for LinkedList<T> {
    type V = Seq<T>;

    closed spec fn view(&self) -> Seq<T> {
        self.items@
    }
}

impl<T> LinkedList<T> {
    /// An empty list.
    pub fn new() -> (r: Self)
        ensures
            r@ == Seq::<T>::empty(),
    {
        LinkedList { items: VecDeque::new() }
    }

    /// Number of elements.
    pub fn len(&self) -> (r: usize)
        ensures
            r == self@.len(),
    {
        self.items.len()
    }

    /// Adds `elt` before the first element.
    pub fn push_front(&mut self, elt: T)
        ensures
            final(self)@ == seq![elt] + old(self)@,
    {
        self.items.push_front(elt);
    }

    /// Removes the first element; `None` when the list is empty.
    pub fn pop_front(&mut self) -> (r: Option<T>)
        ensures
            old(self)@.len() == 0 ==> r is None && final(self)@ == old(self)@,
            old(self)@.len() > 0 ==> r == Some(old(self)@[0]) && final(self)@ == old(self)@.drop_first(),
    {
        let r = self.items.pop_front();
        proof {
            if old(self)@.len() > 0 {
                assert(final(self)@ =~= old(self)@.drop_first());
            }
        }
        r
    }

    /// Adds `elt` after the last element.
    pub fn push_back(&mut self, elt: T)
        ensures
            final(self)@ == old(self)@.push(elt),
    {
        self.items.push_back(elt);
    }

    /// Removes the last element; `None` when the list is empty.
    pub fn pop_back(&mut self) -> (r: Option<T>)
        ensures
            old(self)@.len() == 0 ==> r is None && final(self)@ == old(self)@,
            old(self)@.len() > 0 ==> r == Some(old(self)@.last()) && final(self)@ == old(self)@.drop_last(),
    {
        let r = self.items.pop_back();
        proof {
            if old(self)@.len() > 0 {
                assert(final(self)@ =~= old(self)@.drop_last());
            }
        }
        r
    }
}

} // verus!
