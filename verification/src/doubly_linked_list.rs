//! A doubly linked list: access and removal at both ends, with a length
//! counter and the total byte size of its payloads.

use vstd::prelude::*;

use vstd::layout::size_of;

verus! {

/// The list: elements front first, a length counter and the summed byte
/// size of the stored elements.
pub struct DoublyLinkedList<T: Copy> {
    elems: Vec<T>,
    pub len: u64,
    pub total_size_bytes: usize,
}

/// Consumes a snapshot of a list front to back.
pub struct DoublyLinkedListIterator<T: Copy> {
    pub items: Vec<T>,
    pub current: usize,
}

impl<T: Copy> DoublyLinkedList<T> {
    /// The elements, front first.
    pub closed spec fn view_seq(self) -> Seq<T> {
        self.elems@
    }

    /// The counters match the contents.
    pub closed spec fn wf(self) -> bool {
        &&& self.len == self.elems@.len()
        &&& self.total_size_bytes == self.elems@.len() * size_of::<T>()
    }

    /// The value of the byte-size counter.
    pub closed spec fn spec_bytes(self) -> usize {
        self.total_size_bytes
    }

    /// An empty list.
    pub fn new_empty() -> (l: Self)
        ensures
            l.wf(),
            l.view_seq() == Seq::<T>::empty(),
    {
        DoublyLinkedList { elems: Vec::new(), len: 0, total_size_bytes: 0 }
    }

    /// Adds an element at the front.
    pub fn prepend(&mut self, data: T)
        requires
            old(self).wf(),
            old(self).view_seq().len() < u64::MAX,
            old(self).spec_bytes() + size_of::<T>() <= usize::MAX,
        ensures
            final(self).wf(),
            final(self).view_seq() == seq![data] + old(self).view_seq(),
    {
        self.elems.insert(0, data);
        self.len = self.len + 1;
        self.total_size_bytes = self.total_size_bytes + core::mem::size_of::<T>();
        proof {
            assert(self.elems@ =~= seq![data] + old(self).view_seq());
            vstd::arithmetic::mul::lemma_mul_is_distributive_add_other_way(
                size_of::<T>() as int,
                old(self).view_seq().len() as int,
                1,
            );
        }
    }

    /// Adds an element at the back.
    pub fn append(&mut self, data: T)
        requires
            old(self).wf(),
            old(self).view_seq().len() < u64::MAX,
            old(self).spec_bytes() + size_of::<T>() <= usize::MAX,
        ensures
            final(self).wf(),
            final(self).view_seq() == old(self).view_seq().push(data),
    {
        self.elems.push(data);
        self.len = self.len + 1;
        self.total_size_bytes = self.total_size_bytes + core::mem::size_of::<T>();
        proof {
            vstd::arithmetic::mul::lemma_mul_is_distributive_add_other_way(
                size_of::<T>() as int,
                old(self).view_seq().len() as int,
                1,
            );
        }
    }

    /// Removes and returns the front element, if any.
    pub fn pop_front(&mut self) -> (r: Option<T>)
        requires
            old(self).wf(),
        ensures
            final(self).wf(),
            match r {
                Option::Some(v) => old(self).view_seq().len() > 0 && v == old(
                    self,
                ).view_seq()[0] && final(self).view_seq() == old(self).view_seq().drop_first(),
                Option::None => old(self).view_seq().len() == 0 && *final(self) == *old(self),
            },
    {
        if self.elems.len() > 0 {
            let v = self.elems.remove(0);
            self.len = self.len - 1;
            proof {
                vstd::arithmetic::mul::lemma_mul_is_distributive_add_other_way(
                    size_of::<T>() as int,
                    self.elems@.len() as int,
                    1,
                );
                assert(self.elems@ =~= old(self).view_seq().drop_first());
                vstd::arithmetic::mul::lemma_mul_nonnegative(
                    self.elems@.len() as int,
                    size_of::<T>() as int,
                );
            }
            let sz = core::mem::size_of::<T>();
            self.total_size_bytes = self.total_size_bytes - sz;
            Option::Some(v)
        } else {
            Option::None
        }
    }

    /// Removes and returns the back element, if any.
    pub fn pop_back(&mut self) -> (r: Option<T>)
        requires
            old(self).wf(),
        ensures
            final(self).wf(),
            match r {
                Option::Some(v) => old(self).view_seq().len() > 0 && v == old(
                    self,
                ).view_seq().last() && final(self).view_seq() == old(self).view_seq().drop_last(),
                Option::None => old(self).view_seq().len() == 0 && *final(self) == *old(self),
            },
    {
        if self.elems.len() > 0 {
            let v = self.elems.pop().unwrap();
            self.len = self.len - 1;
            proof {
                vstd::arithmetic::mul::lemma_mul_is_distributive_add_other_way(
                    size_of::<T>() as int,
                    self.elems@.len() as int,
                    1,
                );
                vstd::arithmetic::mul::lemma_mul_nonnegative(
                    self.elems@.len() as int,
                    size_of::<T>() as int,
                );
            }
            let sz = core::mem::size_of::<T>();
            self.total_size_bytes = self.total_size_bytes - sz;
            Option::Some(v)
        } else {
            Option::None
        }
    }

    /// Borrows the front element, if any.
    pub fn peek_front(&self) -> (r: Option<&T>)
        requires
            self.wf(),
        ensures
            match r {
                Option::Some(v) => self.view_seq().len() > 0 && *v == self.view_seq()[0],
                Option::None => self.view_seq().len() == 0,
            },
    {
        if self.elems.len() > 0 {
            Option::Some(&self.elems[0])
        } else {
            Option::None
        }
    }

    /// Drops every element.
    pub fn clear(&mut self)
        ensures
            final(self).wf(),
            final(self).view_seq() == Seq::<T>::empty(),
    {
        self.elems.clear();
        self.len = 0;
        self.total_size_bytes = 0;
    }

    /// A front-to-back cursor over a snapshot of the elements.
    pub fn iter(&self) -> (it: DoublyLinkedListIterator<T>)
        requires
            self.wf(),
        ensures
            it.items@ == self.view_seq(),
            it.current == 0,
    {
        let mut items: Vec<T> = Vec::new();
        let mut i: usize = 0;
        while i < self.elems.len()
            invariant
                i <= self.elems@.len(),
                items@ == self.elems@.take(i as int),
            decreases self.elems@.len() - i,
        {
            items.push(self.elems[i]);
            i = i + 1;
            proof {
                assert(items@ =~= self.elems@.take(i as int));
            }
        }
        proof {
            assert(self.elems@.take(self.elems@.len() as int) =~= self.elems@);
        }
        DoublyLinkedListIterator { items, current: 0 }
    }

    /// Hands the elements over for consumption front to back.
    pub fn into_iter(self) -> (it: DoublyLinkedListIterator<T>)
        ensures
            it.items@ == self.view_seq(),
            it.current == 0,
    {
        DoublyLinkedListIterator { items: self.elems, current: 0 }
    }
}

impl<T: Copy> DoublyLinkedListIterator<T> {
    /// The next element, advancing the cursor.
    pub fn next(&mut self) -> (r: Option<T>)
        ensures
            final(self).items == old(self).items,
            match r {
                Option::Some(v) => old(self).current < old(self).items@.len() && v == old(
                    self,
                ).items@[old(self).current as int] && final(self).current == old(self).current
                    + 1,
                Option::None => old(self).current >= old(self).items@.len()
                    && final(self).current == old(self).current,
            },
    {
        if self.current < self.items.len() {
            let v = self.items[self.current];
            self.current = self.current + 1;
            Option::Some(v)
        } else {
            Option::None
        }
    }
}

} // verus!
