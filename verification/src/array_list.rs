//! A growable array-backed list with random access, insertion and removal
//! at arbitrary positions.

use vstd::prelude::*;

verus! {

/// The list: its elements in order, with a public length counter.
pub struct ArrayList<T> {
    pub length: usize,
    inner: Vec<T>,
}

/// A cursor over a borrowed list.
pub struct ArrayListIterator<'a, T> {
    pub current: usize,
    pub list: &'a ArrayList<T>,
}

impl<T> ArrayList<T> {
    /// The elements in order.
    pub closed spec fn view_seq(self) -> Seq<T> {
        self.inner@
    }

    /// The length counter matches the contents.
    pub closed spec fn wf(self) -> bool {
        self.length == self.inner@.len()
    }

    /// An empty list.
    pub fn new() -> (l: Self)
        ensures
            l.wf(),
            l.view_seq() == Seq::<T>::empty(),
    {
        ArrayList { length: 0, inner: Vec::new() }
    }

    /// An empty list with room reserved for `capacity` elements.
    pub fn with_capacity(capacity: usize) -> (l: Self)
        ensures
            l.wf(),
            l.view_seq() == Seq::<T>::empty(),
    {
        ArrayList { length: 0, inner: Vec::with_capacity(capacity) }
    }

    /// Appends an element at the end.
    pub fn append(&mut self, item: T)
        requires
            old(self).wf(),
            old(self).view_seq().len() < usize::MAX,
        ensures
            final(self).wf(),
            final(self).view_seq() == old(self).view_seq().push(item),
    {
        self.inner.push(item);
        self.length = self.length + 1;
    }

    /// Inserts an element at the front, shifting the rest right.
    pub fn prepend(&mut self, item: T)
        requires
            old(self).wf(),
            old(self).view_seq().len() < usize::MAX,
        ensures
            final(self).wf(),
            final(self).view_seq() == seq![item] + old(self).view_seq(),
    {
        self.inner.insert(0, item);
        self.length = self.length + 1;
        proof {
            assert(self.inner@ =~= seq![item] + old(self).view_seq());
        }
    }

    /// Overwrites the element at an index and hands back the old one; an
    /// out-of-bounds index changes nothing.
    pub fn set(&mut self, index: usize, el: T) -> (r: Option<T>)
        requires
            old(self).wf(),
        ensures
            final(self).wf(),
            match r {
                Option::Some(prev) => index < old(self).view_seq().len() && prev == old(
                    self,
                ).view_seq()[index as int] && final(self).view_seq() == old(
                    self,
                ).view_seq().update(index as int, el),
                Option::None => index >= old(self).view_seq().len() && *final(self) == *old(
                    self,
                ),
            },
    {
        if index >= self.length {
            return Option::None;
        }
        let prev = self.inner.remove(index);
        self.inner.insert(index, el);
        proof {
            assert(self.inner@ =~= old(self).view_seq().update(index as int, el));
        }
        Option::Some(prev)
    }

    /// Inserts an element before the given index, shifting the rest right;
    /// an out-of-bounds index changes nothing.
    pub fn insert_at(&mut self, index: usize, el: T)
        requires
            old(self).wf(),
            old(self).view_seq().len() < usize::MAX,
        ensures
            final(self).wf(),
            index < old(self).view_seq().len() ==> final(self).view_seq() == old(
                self,
            ).view_seq().take(index as int) + seq![el] + old(self).view_seq().skip(index as int),
            index >= old(self).view_seq().len() ==> *final(self) == *old(self),
    {
        if index >= self.length {
            return ;
        }
        self.inner.insert(index, el);
        self.length = self.length + 1;
        proof {
            assert(self.inner@ =~= old(self).view_seq().take(index as int) + seq![el] + old(
                self,
            ).view_seq().skip(index as int));
        }
    }

    /// Removes and returns the last element, if any.
    pub fn pop(&mut self) -> (r: Option<T>)
        requires
            old(self).wf(),
        ensures
            final(self).wf(),
            match r {
                Option::Some(v) => old(self).view_seq().len() > 0 && v == old(
                    self,
                ).view_seq().last() && final(self).view_seq() == old(self).view_seq().drop_last(),
                Option::None => old(self).view_seq().len() == 0 && *final(self) == *old(self),
            },
    {
        if self.length > 0 {
            let v = self.inner.pop().unwrap();
            self.length = self.length - 1;
            Option::Some(v)
        } else {
            Option::None
        }
    }

    /// Removes and returns the element at an index, shifting the rest left;
    /// an out-of-bounds index changes nothing.
    pub fn pop_at(&mut self, index: usize) -> (r: Option<T>)
        requires
            old(self).wf(),
        ensures
            final(self).wf(),
            match r {
                Option::Some(v) => index < old(self).view_seq().len() && v == old(
                    self,
                ).view_seq()[index as int] && final(self).view_seq() == old(
                    self,
                ).view_seq().remove(index as int),
                Option::None => index >= old(self).view_seq().len() && *final(self) == *old(
                    self,
                ),
            },
    {
        if index < self.length {
            let v = self.inner.remove(index);
            self.length = self.length - 1;
            Option::Some(v)
        } else {
            Option::None
        }
    }

    /// Borrows the element at an index.
    pub fn get(&self, index: usize) -> (r: Option<&T>)
        requires
            self.wf(),
        ensures
            match r {
                Option::Some(v) => index < self.view_seq().len() && *v == self.view_seq()[index as int],
                Option::None => index >= self.view_seq().len(),
            },
    {
        if index < self.length {
            Option::Some(&self.inner[index])
        } else {
            Option::None
        }
    }

    /// Mutably borrows the element at an index.
    pub fn get_mut(&mut self, index: usize) -> (r: Option<&mut T>)
        requires
            old(self).wf(),
        ensures
            final(self).wf(),
            match r {
                Option::Some(v) => index < old(self).view_seq().len() && *v == old(
                    self,
                ).view_seq()[index as int] && final(self).view_seq() == old(
                    self,
                ).view_seq().update(index as int, *final(v)),
                Option::None => index >= old(self).view_seq().len() && *final(self) == *old(
                    self,
                ),
            },
    {
        if index < self.length {
            Option::Some(&mut self.inner[index])
        } else {
            Option::None
        }
    }

    /// The number of elements.
    pub fn len(&self) -> (r: usize)
        requires
            self.wf(),
        ensures
            r == self.view_seq().len(),
    {
        self.length
    }

    /// True iff the list holds nothing.
    pub fn is_empty(&self) -> (r: bool)
        requires
            self.wf(),
        ensures
            r == (self.view_seq().len() == 0),
    {
        self.length == 0
    }

    /// Drops every element.
    pub fn clear(&mut self)
        ensures
            final(self).wf(),
            final(self).view_seq() == Seq::<T>::empty(),
    {
        self.inner.clear();
        self.length = 0;
    }

    /// A cursor starting at the front.
    pub fn into_iter(&self) -> (it: ArrayListIterator<T>)
        ensures
            it.current == 0,
            it.list == self,
    {
        ArrayListIterator { current: 0, list: self }
    }
}

impl<'a, T> ArrayListIterator<'a, T> {
    /// Borrows the next element, advancing the cursor.
    pub fn next(&mut self) -> (r: Option<&'a T>)
        requires
            old(self).list.wf(),
        ensures
            final(self).list == old(self).list,
            match r {
                Option::Some(v) => old(self).current < old(self).list.view_seq().len() && *v
                    == old(self).list.view_seq()[old(self).current as int] && final(self).current
                    == old(self).current + 1,
                Option::None => old(self).current >= old(self).list.view_seq().len()
                    && final(self).current == old(self).current,
            },
    {
        match self.list.get(self.current) {
            Option::Some(v) => {
                self.current = self.current + 1;
                Option::Some(v)
            },
            Option::None => Option::None,
        }
    }
}

} // verus!
