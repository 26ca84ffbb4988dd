//! A double-ended list with indexed insertion and removal.
//!
//! The list is backed by a growable array, which gives every operation the
//! same observable behaviour as a node-linked layout while keeping the
//! whole implementation verifiable.

use vstd::prelude::*;
use vstd::pervasive::VecAdditionalExecFns;
use crate::order::{ToText, render_line, rendered};

verus! {

/// A double-ended list; the view is the sequence of values front to back.
pub struct DoublyLinkedList<T> {
    elems: Vec<T>,
}

impl<T> View for DoublyLinkedList<T> {
    type V = Seq<T>;

    closed spec fn view(&self) -> Seq<T> {
        self.elems@
    }
}

impl<T> DoublyLinkedList<T> {
    /// Creates an empty list.
    pub fn new() -> (l: Self)
        ensures
            l@ == Seq::<T>::empty(),
    {
        DoublyLinkedList { elems: Vec::new() }
    }

    /// The number of values in the list.
    pub fn len(&self) -> (n: usize)
        ensures
            n == self@.len(),
    {
        self.elems.len()
    }

    /// Puts the value in front of the others.
    pub fn push_front(&mut self, value: T)
        ensures
            final(self)@ == seq![value] + old(self)@,
    {
        self.elems.insert(0, value);
        proof {
            assert(self.elems@ =~= seq![value] + old(self)@);
        }
    }

    /// Takes the front value out, or nothing from an empty list.
    pub fn pop_front(&mut self) -> (r: Option<T>)
        ensures
            old(self)@.len() == 0 ==> r == None::<T> && final(self)@ == old(self)@,
            old(self)@.len() > 0 ==> r == Some(old(self)@[0]) && final(self)@ == old(
                self,
            )@.drop_first(),
    {
        if self.elems.len() == 0 {
            None
        } else {
            let v = self.elems.remove(0);
            proof {
                assert(self.elems@ =~= old(self)@.drop_first());
            }
            Some(v)
        }
    }

    /// Puts the value behind the others.
    pub fn push_back(&mut self, value: T)
        ensures
            final(self)@ == old(self)@.push(value),
    {
        self.elems.push(value);
    }

    /// Takes the back value out, or nothing from an empty list.
    pub fn pop_back(&mut self) -> (r: Option<T>)
        ensures
            old(self)@.len() == 0 ==> r == None::<T> && final(self)@ == old(self)@,
            old(self)@.len() > 0 ==> r == Some(old(self)@.last()) && final(self)@ == old(
                self,
            )@.drop_last(),
    {
        self.elems.pop()
    }

    /// Inserts the value so that it sits at `idx`; an index past the end is
    /// reported back and changes nothing.
    pub fn insert(&mut self, idx: usize, value: T) -> (r: Result<(), &'static str>)
        ensures
            idx <= old(self)@.len() ==> (r matches Ok(u) && final(self)@ == old(self)@.insert(
                idx as int,
                value,
            )),
            idx > old(self)@.len() ==> (r matches Err(e) && e@ == "Error: Index out of bounds!"@
                && final(self)@ == old(self)@),
    {
        if idx > self.elems.len() {
            return Err("Error: Index out of bounds!");
        }
        self.elems.insert(idx, value);
        Ok(())
    }

    /// Takes the value at `idx` out, or nothing past the end.
    pub fn remove(&mut self, idx: usize) -> (r: Option<T>)
        ensures
            idx < old(self)@.len() ==> r == Some(old(self)@[idx as int]) && final(self)@ == old(
                self,
            )@.remove(idx as int),
            idx >= old(self)@.len() ==> r == None::<T> && final(self)@ == old(self)@,
    {
        if idx >= self.elems.len() {
            None
        } else {
            Some(self.elems.remove(idx))
        }
    }
}

impl<T: Copy> DoublyLinkedList<T> {
    /// Bulk-loads a list in slice order.
    pub fn from_slice(items: &[T]) -> (l: Self)
        ensures
            l@ == items@,
    {
        let mut l = Self::new();
        let mut i: usize = 0;
        while i < items.len()
            invariant
                0 <= i <= items@.len(),
                l@ == items@.take(i as int),
            decreases items@.len() - i,
        {
            l.push_back(items[i]);
            proof {
                assert(items@.take(i as int).push(items@[i as int]) =~= items@.take(i as int + 1));
            }
            i += 1;
        }
        proof {
            assert(items@.take(items@.len() as int) =~= items@);
        }
        l
    }
}

impl<T: Copy + ToText> DoublyLinkedList<T> {
    /// Renders the values front to back, or the empty marker.
    pub fn to_text(&self) -> (s: String)
        ensures
            s@ == rendered(self@),
    {
        let mut items: Vec<T> = Vec::new();
        let mut i: usize = 0;
        while i < self.elems.len()
            invariant
                0 <= i <= self@.len(),
                items@ == self@.take(i as int),
            decreases self@.len() - i,
        {
            items.push(self.elems[i]);
            proof {
                assert(self@.take(i as int).push(self@[i as int]) =~= self@.take(i as int + 1));
            }
            i += 1;
        }
        proof {
            assert(self@.take(self@.len() as int) =~= self@);
        }
        render_line(&items)
    }
}

/// Consuming iteration over a list, front first.
pub struct DoublyLinkedListIter<T> {
    rest: DoublyLinkedList<T>,
}

impl<T> View for DoublyLinkedListIter<T> {
    type V = Seq<T>;

    closed spec fn view(&self) -> Seq<T> {
        self.rest@
    }
}

impl<T> DoublyLinkedListIter<T> {
    /// The next value from the front, or nothing once all are out.
    pub fn next(&mut self) -> (r: Option<T>)
        ensures
            old(self)@.len() == 0 ==> r == None::<T> && final(self)@ == old(self)@,
            old(self)@.len() > 0 ==> r == Some(old(self)@[0]) && final(self)@ == old(
                self,
            )@.drop_first(),
    {
        self.rest.pop_front()
    }
}

impl<T> DoublyLinkedList<T> {
    /// Turns the list into a consuming iterator over its values.
    pub fn into_iter(self) -> (it: DoublyLinkedListIter<T>)
        ensures
            it@ == self@,
    {
        DoublyLinkedListIter { rest: self }
    }
}

} // verus!
