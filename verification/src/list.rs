//! A double-ended list: values can be pushed, popped and inspected at
//! both ends. The abstract value of a list is the sequence of its
//! elements from front to back.

use std::collections::VecDeque;
use vstd::prelude::*;

verus! {

pub struct List<T> {
    elems: VecDeque<T>,
}

impl<T> View for List<T> {
    type V = Seq<T>;

    closed spec fn view(&self) -> Seq<T> {
        self.elems@
    }
}

impl<T> List<T> {
    /// An empty list.
    pub fn new() -> (l: Self)
        ensures
            l@ == Seq::<T>::empty(),
    {
        List { elems: VecDeque::new() }
    }

    /// Appends `value` after the current back element.
    pub fn push_back(&mut self, value: T)
        ensures
            final(self)@ == old(self)@.push(value),
    {
        self.elems.push_back(value);
    }

    /// Inserts `value` before the current front element.
    pub fn push_front(&mut self, value: T)
        ensures
            final(self)@ == seq![value] + old(self)@,
    {
        self.elems.push_front(value);
    }

    /// Removes and returns the back element, or `None` on an empty list.
    pub fn pop_back(&mut self) -> (r: Option<T>)
        ensures
            old(self)@.len() == 0 ==> r is None && final(self)@ == old(self)@,
            old(self)@.len() > 0 ==> r == Some(old(self)@.last()) && final(self)@
                == old(self)@.drop_last(),
    {
        self.elems.pop_back()
    }

    /// Removes and returns the front element, or `None` on an empty list.
    pub fn pop_front(&mut self) -> (r: Option<T>)
        ensures
            old(self)@.len() == 0 ==> r is None && final(self)@ == old(self)@,
            old(self)@.len() > 0 ==> r == Some(old(self)@.first()) && final(self)@
                == old(self)@.drop_first(),
    {
        self.elems.pop_front()
    }

    /// Returns a copy of the back element, or `None` on an empty list.
    /// The list itself is left as it was.
    pub fn peek_back(&mut self) -> (r: Option<T>) where T: Clone
        ensures
            final(self)@ == old(self)@,
            r is Some <==> old(self)@.len() > 0,
    {
        if self.is_empty() {
            None
        } else {
            Some(self.elems[self.elems.len() - 1].clone())
        }
    }

    /// Returns a copy of the front element, or `None` on an empty list.
    /// The list itself is left as it was.
    pub fn peek_front(&mut self) -> (r: Option<T>) where T: Clone
        ensures
            final(self)@ == old(self)@,
            r is Some <==> old(self)@.len() > 0,
    {
        if self.is_empty() {
            None
        } else {
            Some(self.elems[0].clone())
        }
    }

    /// Borrows the back element, or returns `None` on an empty list.
    pub fn peek_back_ref(&mut self) -> (r: Option<&T>)
        ensures
            final(self)@ == old(self)@,
            old(self)@.len() == 0 ==> r is None,
            old(self)@.len() > 0 ==> (r matches Some(v) && *v == old(self)@.last()),
    {
        if self.is_empty() {
            None
        } else {
            Some(&self.elems[self.elems.len() - 1])
        }
    }

    /// Borrows the front element, or returns `None` on an empty list.
    pub fn peek_front_ref(&mut self) -> (r: Option<&T>)
        ensures
            final(self)@ == old(self)@,
            old(self)@.len() == 0 ==> r is None,
            old(self)@.len() > 0 ==> (r matches Some(v) && *v == old(self)@.first()),
    {
        if self.is_empty() {
            None
        } else {
            Some(&self.elems[0])
        }
    }

    /// The number of elements held.
    pub fn size(&self) -> (n: usize)
        ensures
            n == self@.len(),
    {
        self.elems.len()
    }

    /// Whether the list holds no element.
    pub fn is_empty(&self) -> (b: bool)
        ensures
            b <==> self@.len() == 0,
    {
        self.elems.len() == 0
    }
}

} // verus!
