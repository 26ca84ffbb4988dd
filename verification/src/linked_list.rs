//! A singly linked list of owned nodes with indexed access.

use vstd::prelude::*;
use crate::order::{ToText, render_line, rendered};

verus! {

struct Node<T> {
    value: T,
    next: Option<Box<Node<T>>>,
}

/// A singly linked list; the view is the sequence of values from the head.
pub struct LinkedList<T> {
    size: usize,
    head: Option<Box<Node<T>>>,
}

/// The values stored in a chain of nodes, front first.
spec fn chain_of<T>(t: Option<Box<Node<T>>>) -> Seq<T>
    decreases t,
{
    match t {
        None => Seq::empty(),
        Some(n) => seq![n.value] + chain_of(n.next),
    }
}

impl<T> View for LinkedList<T> {
    type V = Seq<T>;

    closed spec fn view(&self) -> Seq<T> {
        chain_of(self.head)
    }
}

fn append_rec<T>(node: &mut Option<Box<Node<T>>>, value: T)
    ensures
        chain_of(*final(node)) == chain_of(*old(node)).push(value),
    decreases *old(node),
{
    match node.take() {
        None => {
            *node = Some(Box::new(Node { value, next: None }));
            proof {
                assert(chain_of(*node) =~= chain_of(*old(node)).push(value));
            }
        },
        Some(mut bn) => {
            append_rec(&mut bn.next, value);
            *node = Some(bn);
            proof {
                assert(chain_of(*node) =~= chain_of(*old(node)).push(value));
            }
        },
    }
}

fn pop_back_rec<T>(node: &mut Option<Box<Node<T>>>) -> (r: T)
    requires
        old(node).is_some(),
    ensures
        chain_of(*old(node)) == chain_of(*final(node)).push(r),
    decreases *old(node),
{
    let mut bn = node.take().unwrap();
    if bn.next.is_some() {
        let r = pop_back_rec(&mut bn.next);
        *node = Some(bn);
        proof {
            assert(chain_of(*old(node)) =~= chain_of(*node).push(r));
        }
        r
    } else {
        let n = *bn;
        let Node { value, next: _ } = n;
        *node = None;
        proof {
            assert(chain_of(*old(node)) =~= chain_of(*node).push(value));
        }
        value
    }
}

fn get_rec<'a, T>(node: &'a Option<Box<Node<T>>>, idx: usize) -> (r: &'a T)
    requires
        idx < chain_of(*node).len(),
    ensures
        *r == chain_of(*node)[idx as int],
    decreases *node,
{
    let n = node.as_ref().unwrap();
    if idx == 0 {
        &n.value
    } else {
        get_rec(&n.next, idx - 1)
    }
}

fn get_mut_rec<'a, T>(node: &'a mut Option<Box<Node<T>>>, idx: usize) -> (r: &'a mut T)
    requires
        idx < chain_of(*old(node)).len(),
    ensures
        *r == chain_of(*old(node))[idx as int],
        chain_of(*final(node)) == chain_of(*old(node)).update(idx as int, *final(r)),
    decreases *old(node),
{
    match node {
        Some(n) => {
            if idx == 0 {
                &mut n.value
            } else {
                get_mut_rec(&mut n.next, idx - 1)
            }
        },
        None => {
            proof {
                assert(false);
            }
            vstd::pervasive::unreached()
        },
    }
}

fn insert_rec<T>(node: &mut Option<Box<Node<T>>>, idx: usize, value: T)
    requires
        idx <= chain_of(*old(node)).len(),
    ensures
        chain_of(*final(node)) == chain_of(*old(node)).insert(idx as int, value),
    decreases *old(node),
{
    if idx == 0 {
        let rest = node.take();
        *node = Some(Box::new(Node { value, next: rest }));
        proof {
            assert(chain_of(*node) =~= chain_of(*old(node)).insert(0, value));
        }
    } else {
        match node {
            Some(n) => {
                insert_rec(&mut n.next, idx - 1, value);
                proof {
                    assert(chain_of(*final(node)) =~= chain_of(*old(node)).insert(
                        idx as int,
                        value,
                    ));
                }
            },
            None => {
                proof {
                    assert(false);
                }
            },
        }
    }
}

fn remove_rec<T>(node: &mut Option<Box<Node<T>>>, idx: usize) -> (r: T)
    requires
        idx < chain_of(*old(node)).len(),
    ensures
        r == chain_of(*old(node))[idx as int],
        chain_of(*final(node)) == chain_of(*old(node)).remove(idx as int),
    decreases *old(node),
{
    let mut bn = node.take().unwrap();
    if idx == 0 {
        let n = *bn;
        let Node { value, next } = n;
        *node = next;
        proof {
            assert(chain_of(*node) =~= chain_of(*old(node)).remove(0));
        }
        value
    } else {
        let r = remove_rec(&mut bn.next, idx - 1);
        *node = Some(bn);
        proof {
            assert(chain_of(*node) =~= chain_of(*old(node)).remove(idx as int));
        }
        r
    }
}

fn collect_rec<T: Copy>(node: &Option<Box<Node<T>>>, out: &mut Vec<T>)
    ensures
        final(out)@ == old(out)@ + chain_of(*node),
    decreases *node,
{
    match node {
        None => {
            proof {
                assert(out@ =~= out@ + chain_of(*node));
            }
        },
        Some(n) => {
            out.push(n.value);
            collect_rec(&n.next, out);
            proof {
                assert(out@ =~= old(out)@ + chain_of(*node));
            }
        },
    }
}

impl<T> LinkedList<T> {
    /// The stored length agrees with the chain.
    pub closed spec fn well_formed(self) -> bool {
        self.size == chain_of(self.head).len()
    }

    /// Creates an empty list.
    pub fn new() -> (l: Self)
        ensures
            l.well_formed(),
            l@ == Seq::<T>::empty(),
    {
        LinkedList { size: 0, head: None }
    }

    /// The number of values in the list.
    pub fn len(&self) -> (n: usize)
        requires
            self.well_formed(),
        ensures
            n == self@.len(),
    {
        self.size
    }

    /// Puts the value in front of the others.
    pub fn push_front(&mut self, value: T)
        requires
            old(self).well_formed(),
            old(self)@.len() < usize::MAX,
        ensures
            final(self).well_formed(),
            final(self)@ == seq![value] + old(self)@,
    {
        self.size = self.size + 1;
        let rest = self.head.take();
        self.head = Some(Box::new(Node { value, next: rest }));
    }

    /// Takes the front value out, or nothing from an empty list.
    pub fn pop_front(&mut self) -> (r: Option<T>)
        requires
            old(self).well_formed(),
        ensures
            final(self).well_formed(),
            old(self)@.len() == 0 ==> r == None::<T> && final(self)@ == old(self)@,
            old(self)@.len() > 0 ==> r == Some(old(self)@[0]) && final(self)@ == old(
                self,
            )@.drop_first(),
    {
        match self.head.take() {
            None => None,
            Some(bn) => {
                let n = *bn;
                let Node { value, next } = n;
                self.head = next;
                self.size = self.size - 1;
                proof {
                    assert(chain_of(self.head) =~= old(self)@.drop_first());
                }
                Some(value)
            },
        }
    }

    /// Puts the value behind the others.
    pub fn push_back(&mut self, value: T)
        requires
            old(self).well_formed(),
            old(self)@.len() < usize::MAX,
        ensures
            final(self).well_formed(),
            final(self)@ == old(self)@.push(value),
    {
        append_rec(&mut self.head, value);
        self.size = self.size + 1;
    }

    /// Takes the back value out, or nothing from an empty list.
    pub fn pop_back(&mut self) -> (r: Option<T>)
        requires
            old(self).well_formed(),
        ensures
            final(self).well_formed(),
            old(self)@.len() == 0 ==> r == None::<T> && final(self)@ == old(self)@,
            old(self)@.len() > 0 ==> r == Some(old(self)@.last()) && final(self)@ == old(
                self,
            )@.drop_last(),
    {
        if self.head.is_some() {
            let v = pop_back_rec(&mut self.head);
            self.size = self.size - 1;
            proof {
                assert(chain_of(self.head) =~= old(self)@.drop_last());
            }
            Some(v)
        } else {
            None
        }
    }

    /// A reference to the value at `idx`, or nothing past the end.
    pub fn get(&self, idx: usize) -> (r: Option<&T>)
        requires
            self.well_formed(),
        ensures
            idx < self@.len() ==> (r matches Some(p) && *p == self@[idx as int]),
            idx >= self@.len() ==> r == None::<&T>,
    {
        if idx >= self.size {
            None
        } else {
            Some(get_rec(&self.head, idx))
        }
    }

    /// A mutable reference to the value at `idx`, or nothing past the end.
    /// Writing through the reference updates exactly that slot.
    pub fn get_mut(&mut self, idx: usize) -> (r: Option<&mut T>)
        requires
            old(self).well_formed(),
        ensures
            final(self).well_formed(),
            idx < old(self)@.len() ==> (r matches Some(p) && *p == old(self)@[idx as int]
                && final(self)@ == old(self)@.update(idx as int, *final(p))),
            idx >= old(self)@.len() ==> r == None::<&mut T> && final(self)@ == old(self)@,
    {
        if idx >= self.size {
            None
        } else {
            Some(get_mut_rec(&mut self.head, idx))
        }
    }

    /// Inserts the value so that it sits at `idx`; an index past the end is
    /// reported back and changes nothing.
    pub fn insert(&mut self, idx: usize, value: T) -> (r: Result<(), &'static str>)
        requires
            old(self).well_formed(),
            old(self)@.len() < usize::MAX,
        ensures
            final(self).well_formed(),
            idx <= old(self)@.len() ==> (r matches Ok(u) && final(self)@ == old(self)@.insert(
                idx as int,
                value,
            )),
            idx > old(self)@.len() ==> (r matches Err(e) && e@ == "Error: Index out of bounds!"@
                && final(self)@ == old(self)@),
    {
        if idx > self.size {
            return Err("Error: Index out of bounds!");
        }
        insert_rec(&mut self.head, idx, value);
        self.size = self.size + 1;
        Ok(())
    }

    /// Takes the value at `idx` out, or nothing past the end.
    pub fn remove(&mut self, idx: usize) -> (r: Option<T>)
        requires
            old(self).well_formed(),
        ensures
            final(self).well_formed(),
            idx < old(self)@.len() ==> r == Some(old(self)@[idx as int]) && final(self)@ == old(
                self,
            )@.remove(idx as int),
            idx >= old(self)@.len() ==> r == None::<T> && final(self)@ == old(self)@,
    {
        if idx >= self.size {
            None
        } else {
            let v = remove_rec(&mut self.head, idx);
            self.size = self.size - 1;
            Some(v)
        }
    }
}

impl<T: Copy> LinkedList<T> {
    /// Bulk-loads a list in slice order.
    pub fn from_slice(items: &[T]) -> (l: Self)
        ensures
            l.well_formed(),
            l@ == items@,
    {
        let mut l = Self::new();
        let mut i: usize = 0;
        while i < items.len()
            invariant
                0 <= i <= items@.len(),
                l.well_formed(),
                l@ == items@.take(i as int),
            decreases items@.len() - i,
        {
            l.push_back(items[i]);
            proof {
                assert(items@.take(i as int).push(items@[i as int]) =~= items@.take(i as int + 1));
            }
            i += 1;
        }
        proof {
            assert(items@.take(items@.len() as int) =~= items@);
        }
        l
    }
}

impl<T: Copy + ToText> LinkedList<T> {
    /// Renders the values front to back, or the empty marker.
    pub fn to_text(&self) -> (s: String)
        ensures
            s@ == rendered(self@),
    {
        let mut items: Vec<T> = Vec::new();
        collect_rec(&self.head, &mut items);
        render_line(&items)
    }
}

/// Consuming iteration over a list, front first.
pub struct LinkedListIter<T> {
    rest: LinkedList<T>,
}

impl<T> View for LinkedListIter<T> {
    type V = Seq<T>;

    closed spec fn view(&self) -> Seq<T> {
        self.rest@
    }
}

impl<T> LinkedListIter<T> {
    /// The iterator's remaining values agree with its list.
    pub closed spec fn well_formed(self) -> bool {
        self.rest.well_formed()
    }

    /// The next value from the front, or nothing once all are out.
    pub fn next(&mut self) -> (r: Option<T>)
        requires
            old(self).well_formed(),
        ensures
            final(self).well_formed(),
            old(self)@.len() == 0 ==> r == None::<T> && final(self)@ == old(self)@,
            old(self)@.len() > 0 ==> r == Some(old(self)@[0]) && final(self)@ == old(
                self,
            )@.drop_first(),
    {
        self.rest.pop_front()
    }
}

impl<T> LinkedList<T> {
    /// Turns the list into a consuming iterator over its values.
    pub fn into_iter(self) -> (it: LinkedListIter<T>)
        requires
            self.well_formed(),
        ensures
            it.well_formed(),
            it@ == self@,
    {
        LinkedListIter { rest: self }
    }
}

} // verus!
