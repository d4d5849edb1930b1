//! A singly linked list with head and tail access, tracking its length and
//! the total byte size of its payloads.

use vstd::prelude::*;

use vstd::layout::size_of;

verus! {

/// The list: elements front first, a length counter and the summed byte
/// size of the stored elements.
pub struct SinglyLinkedList<T: Copy> {
    elems: Vec<T>,
    pub total_size_bytes: usize,
    pub len: u64,
}

/// Consumes a list front to back.
pub struct SinglyLinkedListIterator<T: Copy> {
    pub items: Vec<T>,
    pub current: usize,
}

impl<T: Copy> SinglyLinkedList<T> {
    /// The elements, front first.
    pub closed spec fn view_seq(self) -> Seq<T> {
        self.elems@
    }

    /// The counters match the contents.
    pub closed spec fn wf(self) -> bool {
        &&& self.len == self.elems@.len()
        &&& self.total_size_bytes == self.elems@.len() * size_of::<T>()
    }

    /// The value of the byte-size counter.
    pub closed spec fn spec_bytes(self) -> usize {
        self.total_size_bytes
    }

    /// An empty list.
    pub fn new_empty() -> (l: Self)
        ensures
            l.wf(),
            l.view_seq() == Seq::<T>::empty(),
    {
        SinglyLinkedList { elems: Vec::new(), total_size_bytes: 0, len: 0 }
    }

    /// Adds an element at the front.
    pub fn prepend(&mut self, data: T)
        requires
            old(self).wf(),
            old(self).view_seq().len() < u64::MAX,
            old(self).spec_bytes() + size_of::<T>() <= usize::MAX,
        ensures
            final(self).wf(),
            final(self).view_seq() == seq![data] + old(self).view_seq(),
    {
        self.elems.insert(0, data);
        self.len = self.len + 1;
        self.total_size_bytes = self.total_size_bytes + core::mem::size_of::<T>();
        proof {
            assert(self.elems@ =~= seq![data] + old(self).view_seq());
            vstd::arithmetic::mul::lemma_mul_is_distributive_add_other_way(
                size_of::<T>() as int,
                old(self).view_seq().len() as int,
                1,
            );
        }
    }

    /// Adds an element at the back.
    pub fn append(&mut self, data: T)
        requires
            old(self).wf(),
            old(self).view_seq().len() < u64::MAX,
            old(self).spec_bytes() + size_of::<T>() <= usize::MAX,
        ensures
            final(self).wf(),
            final(self).view_seq() == old(self).view_seq().push(data),
    {
        self.elems.push(data);
        self.len = self.len + 1;
        self.total_size_bytes = self.total_size_bytes + core::mem::size_of::<T>();
        proof {
            vstd::arithmetic::mul::lemma_mul_is_distributive_add_other_way(
                size_of::<T>() as int,
                old(self).view_seq().len() as int,
                1,
            );
        }
    }

    /// Removes and returns the front element, if any.
    pub fn pop(&mut self) -> (r: Option<T>)
        requires
            old(self).wf(),
        ensures
            final(self).wf(),
            match r {
                Option::Some(v) => old(self).view_seq().len() > 0 && v == old(
                    self,
                ).view_seq()[0] && final(self).view_seq() == old(self).view_seq().drop_first(),
                Option::None => old(self).view_seq().len() == 0 && *final(self) == *old(self),
            },
    {
        if self.elems.len() > 0 {
            let v = self.elems.remove(0);
            self.len = self.len - 1;
            proof {
                vstd::arithmetic::mul::lemma_mul_is_distributive_add_other_way(
                    size_of::<T>() as int,
                    self.elems@.len() as int,
                    1,
                );
                assert(self.elems@ =~= old(self).view_seq().drop_first());
            }
            let sz = core::mem::size_of::<T>();
            proof {
                vstd::arithmetic::mul::lemma_mul_nonnegative(
                    self.elems@.len() as int,
                    size_of::<T>() as int,
                );
            }
            self.total_size_bytes = self.total_size_bytes - sz;
            Option::Some(v)
        } else {
            Option::None
        }
    }

    /// The front element, if any.
    pub fn peek(&self) -> (r: Option<T>)
        requires
            self.wf(),
        ensures
            match r {
                Option::Some(v) => self.view_seq().len() > 0 && v == self.view_seq()[0],
                Option::None => self.view_seq().len() == 0,
            },
    {
        if self.elems.len() > 0 {
            Option::Some(self.elems[0])
        } else {
            Option::None
        }
    }

    /// The back element, if any.
    pub fn peek_tail(&self) -> (r: Option<T>)
        requires
            self.wf(),
        ensures
            match r {
                Option::Some(v) => self.view_seq().len() > 0 && v == self.view_seq().last(),
                Option::None => self.view_seq().len() == 0,
            },
    {
        if self.elems.len() > 0 {
            Option::Some(self.elems[self.elems.len() - 1])
        } else {
            Option::None
        }
    }

    /// True iff the list holds nothing.
    pub fn is_empty(&self) -> (r: bool)
        requires
            self.wf(),
        ensures
            r == (self.view_seq().len() == 0),
    {
        self.elems.len() == 0
    }

    /// Drops every element.
    pub fn clear(&mut self)
        ensures
            final(self).wf(),
            final(self).view_seq() == Seq::<T>::empty(),
    {
        self.elems.clear();
        self.len = 0;
        self.total_size_bytes = 0;
    }

    /// Hands the elements over for consumption front to back.
    pub fn into_iter(self) -> (it: SinglyLinkedListIterator<T>)
        ensures
            it.items@ == self.view_seq(),
            it.current == 0,
    {
        SinglyLinkedListIterator { items: self.elems, current: 0 }
    }
}

impl<T: Copy> SinglyLinkedListIterator<T> {
    /// The next element, advancing the cursor.
    pub fn next(&mut self) -> (r: Option<T>)
        ensures
            final(self).items == old(self).items,
            match r {
                Option::Some(v) => old(self).current < old(self).items@.len() && v == old(
                    self,
                ).items@[old(self).current as int] && final(self).current == old(self).current
                    + 1,
                Option::None => old(self).current >= old(self).items@.len()
                    && final(self).current == old(self).current,
            },
    {
        if self.current < self.items.len() {
            let v = self.items[self.current];
            self.current = self.current + 1;
            Option::Some(v)
        } else {
            Option::None
        }
    }
}

} // verus!
