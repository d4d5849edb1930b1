//! A first-in-first-out queue backed by a vector.

use vstd::prelude::*;

verus! {

/// The queue: elements in arrival order, front first.
pub struct Queue<T> {
    pub queue: Vec<T>,
}

impl<T> Queue<T> {
    /// The stored values, front first.
    pub open spec fn view_seq(self) -> Seq<T> {
        self.queue@
    }

    /// An empty queue.
    pub fn new_empty() -> (q: Self)
        ensures
            q.view_seq() == Seq::<T>::empty(),
    {
        Queue { queue: Vec::new() }
    }

    /// A queue holding one value.
    pub fn new(data: T) -> (q: Self)
        ensures
            q.view_seq() =~= seq![data],
    {
        let mut queue: Vec<T> = Vec::new();
        queue.push(data);
        Queue { queue }
    }

    /// Adds a value at the back.
    pub fn enqueue(&mut self, data: T)
        ensures
            final(self).view_seq() == old(self).view_seq().push(data),
    {
        self.queue.push(data);
    }

    /// Removes and returns the front value, if any.
    pub fn dequeue(&mut self) -> (r: Option<T>)
        ensures
            match r {
                Option::Some(v) => old(self).view_seq().len() > 0 && v == old(
                    self,
                ).view_seq()[0] && final(self).view_seq() == old(self).view_seq().drop_first(),
                Option::None => old(self).view_seq().len() == 0 && *final(self) == *old(self),
            },
    {
        if self.queue.len() > 0 {
            let v = self.queue.remove(0);
            proof {
                assert(self.queue@ =~= old(self).view_seq().drop_first());
            }
            Option::Some(v)
        } else {
            Option::None
        }
    }

    /// Builds a queue holding the given elements in order.
    pub fn from_iter(items: Vec<T>) -> (q: Self)
        ensures
            q.view_seq() == items@,
    {
        Queue { queue: items }
    }

    /// Hands the elements back in arrival order.
    pub fn into_iter(self) -> (r: Vec<T>)
        ensures
            r@ == self.view_seq(),
    {
        self.queue
    }
}

} // verus!
