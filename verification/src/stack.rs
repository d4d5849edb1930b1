//! A last-in-first-out stack over a singly linked chain of owned nodes.

use vstd::prelude::*;

verus! {

/// One link of the chain. The value is carried as an option so a slot can be
/// emptied in place; a well-formed stack keeps every slot filled.
pub struct Node<T> {
    pub value: Option<T>,
    pub next: Option<Box<Node<T>>>,
}

/// The stack: the top of the chain.
pub struct Stack<T> {
    pub root: Option<Box<Node<T>>>,
}

impl<T> Node<T> {
    /// A node holding one value and no successor.
    pub fn new(data: T) -> (n: Node<T>)
        ensures
            n.value == Option::Some(data),
            n.next is None,
    {
        Node { value: Option::Some(data), next: Option::None }
    }
}

impl<T> Stack<T> {
    /// The stored values, top first; an emptied slot contributes nothing.
    pub open spec fn seq_of(link: Option<Box<Node<T>>>) -> Seq<T>
        decreases link,
    {
        match link {
            Option::None => Seq::empty(),
            Option::Some(node) => match node.value {
                Option::Some(v) => seq![v] + Self::seq_of(node.next),
                Option::None => Self::seq_of(node.next),
            },
        }
    }

    /// Every slot of the chain is filled.
    pub open spec fn link_wf(link: Option<Box<Node<T>>>) -> bool
        decreases link,
    {
        match link {
            Option::None => true,
            Option::Some(node) => node.value is Some && Self::link_wf(node.next),
        }
    }

    /// The stack's values, top first.
    pub open spec fn view_seq(self) -> Seq<T> {
        Self::seq_of(self.root)
    }

    /// Every slot of the stack is filled.
    pub open spec fn wf(self) -> bool {
        Self::link_wf(self.root)
    }

    /// An empty stack.
    pub fn new_empty() -> (s: Self)
        ensures
            s.wf(),
            s.view_seq() == Seq::<T>::empty(),
    {
        Stack { root: Option::None }
    }

    /// A stack holding one value.
    pub fn new(data: T) -> (s: Self)
        ensures
            s.wf(),
            s.view_seq() =~= seq![data],
    {
        let s = Stack { root: Option::Some(Box::new(Node::new(data))) };
        proof {
            assert(Self::seq_of(s.root.unwrap().next) =~= Seq::<T>::empty());
            assert(Self::link_wf(s.root.unwrap().next));
            assert(s.view_seq() =~= seq![data]);
        }
        s
    }

    /// Pushes a value on top.
    pub fn append(&mut self, data: T)
        requires
            old(self).wf(),
        ensures
            final(self).wf(),
            final(self).view_seq() == seq![data] + old(self).view_seq(),
    {
        let old_root = self.root.take();
        self.root = Option::Some(Box::new(Node { value: Option::Some(data), next: old_root }));
    }

    /// Pops the top value, if any.
    pub fn pop(&mut self) -> (r: Option<T>)
        requires
            old(self).wf(),
        ensures
            final(self).wf(),
            match r {
                Option::Some(v) => old(self).view_seq().len() > 0 && v == old(
                    self,
                ).view_seq()[0] && final(self).view_seq() == old(self).view_seq().drop_first(),
                Option::None => old(self).view_seq().len() == 0 && *final(self) == *old(self),
            },
    {
        match self.root.take() {
            Option::Some(mut old_root) => {
                self.root = old_root.next.take();
                match old_root.value {
                    Option::Some(v) => {
                        proof {
                            assert(old(self).view_seq().drop_first() =~= Self::seq_of(
                                self.root,
                            ));
                        }
                        Option::Some(v)
                    },
                    Option::None => {
                        proof {
                            assert(false);
                        }
                        unreached()
                    },
                }
            },
            Option::None => Option::None,
        }
    }

    /// Borrows the top value, if any.
    pub fn peek(&self) -> (r: Option<&T>)
        requires
            self.wf(),
        ensures
            match r {
                Option::Some(v) => self.view_seq().len() > 0 && *v == self.view_seq()[0],
                Option::None => self.view_seq().len() == 0,
            },
    {
        match &self.root {
            Option::Some(node) => {
                match &node.value {
                    Option::Some(v) => Option::Some(v),
                    Option::None => {
                        proof {
                            assert(false);
                        }
                        unreached()
                    },
                }
            },
            Option::None => Option::None,
        }
    }

    /// Builds a stack by pushing each element in order: the last element of
    /// the input ends on top.
    pub fn from_iter(items: Vec<T>) -> (s: Self)
        ensures
            s.wf(),
            s.view_seq() == items@.reverse(),
    {
        let mut rest = items;
        let ghost all = rest@;
        let mut s = Stack::new_empty();
        let ghost mut i: int = 0;
        while rest.len() > 0
            invariant
                0 <= i <= all.len(),
                rest@ == all.skip(i),
                s.wf(),
                s.view_seq() =~= all.take(i).reverse(),
            decreases all.len() - i,
        {
            let x = rest.remove(0);
            proof {
                assert(x == all[i]);
            }
            s.append(x);
            proof {
                i = i + 1;
                assert(rest@ =~= all.skip(i));
                assert(s.view_seq() =~= all.take(i).reverse());
            }
        }
        proof {
            assert(all.take(all.len() as int) =~= all);
            assert(s.view_seq() =~= all.reverse());
        }
        s
    }

    /// Pops the next value; the stack is its own iterator.
    pub fn next(&mut self) -> (r: Option<T>)
        requires
            old(self).wf(),
        ensures
            final(self).wf(),
            match r {
                Option::Some(v) => old(self).view_seq().len() > 0 && v == old(
                    self,
                ).view_seq()[0] && final(self).view_seq() == old(self).view_seq().drop_first(),
                Option::None => old(self).view_seq().len() == 0 && *final(self) == *old(self),
            },
    {
        self.pop()
    }

    /// Hands the stack over for consumption by `next`.
    pub fn into_iter(self) -> (r: Self)
        ensures
            r == self,
    {
        self
    }
}

} // verus!
