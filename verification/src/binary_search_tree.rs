//! A plain, unbalanced binary search tree over totally ordered data.
//!
//! The tree is modelled by its in-order sequence: every operation states how
//! it changes the multiset of stored elements, and well-formedness guarantees
//! the in-order sequence stays sorted. Smaller elements go left, equal and
//! larger ones go right.

use vstd::prelude::*;

use vstd::arithmetic::power2::{pow2, lemma_pow2_strictly_increases, lemma_pow2_unfold};
use vstd::multiset::Multiset;
use vstd::seq_lib::lemma_multiset_commutative;

use crate::ordered::{Cmp, Key};

verus! {

/// One node: an element and its two owned subtrees.
pub struct Node<T: Key> {
    pub data: T,
    pub left: Option<Box<Node<T>>>,
    pub right: Option<Box<Node<T>>>,
}

/// The tree: just a root branch.
pub struct BinarySearchTree<T: Key> {
    pub root: Option<Box<Node<T>>>,
}

impl<T: Key> Node<T> {
    /// The elements of a branch in symmetric (sorted) order.
    pub open spec fn inorder_s(link: Option<Box<Node<T>>>) -> Seq<T>
        decreases link,
    {
        match link {
            Option::None => Seq::empty(),
            Option::Some(node) => Self::inorder_s(node.left) + seq![node.data] + Self::inorder_s(
                node.right,
            ),
        }
    }

    /// The elements of a branch in preorder.
    pub open spec fn preorder_s(link: Option<Box<Node<T>>>) -> Seq<T>
        decreases link,
    {
        match link {
            Option::None => Seq::empty(),
            Option::Some(node) => seq![node.data] + Self::preorder_s(node.left)
                + Self::preorder_s(node.right),
        }
    }

    /// The elements of a branch in postorder.
    pub open spec fn postorder_s(link: Option<Box<Node<T>>>) -> Seq<T>
        decreases link,
    {
        match link {
            Option::None => Seq::empty(),
            Option::Some(node) => Self::postorder_s(node.left) + Self::postorder_s(node.right)
                + seq![node.data],
        }
    }

    /// The depth of a branch: the longest chain of nodes to a leaf.
    pub open spec fn height_s(link: Option<Box<Node<T>>>) -> nat
        decreases link,
    {
        match link {
            Option::None => 0,
            Option::Some(node) => 1 + if Self::height_s(node.left) >= Self::height_s(
                node.right,
            ) {
                Self::height_s(node.left)
            } else {
                Self::height_s(node.right)
            },
        }
    }

    /// Every element of `s` is at most `bound`.
    pub open spec fn all_le(s: Seq<T>, bound: T) -> bool {
        forall|i: int| 0 <= i < s.len() ==> (#[trigger] s[i]).le(bound)
    }

    /// Every element of `s` is at least `bound`.
    pub open spec fn all_ge(s: Seq<T>, bound: T) -> bool {
        forall|i: int| 0 <= i < s.len() ==> bound.le(#[trigger] s[i])
    }

    /// The search ordering: smaller elements left, equal and larger right.
    pub open spec fn ordered(link: Option<Box<Node<T>>>) -> bool
        decreases link,
    {
        match link {
            Option::None => true,
            Option::Some(node) => {
                &&& Self::all_le(Self::inorder_s(node.left), node.data)
                &&& Self::all_ge(Self::inorder_s(node.right), node.data)
                &&& Self::ordered(node.left)
                &&& Self::ordered(node.right)
            },
        }
    }

    /// One-level unfolding of the branch sequences, for proofs that reach
    /// below the root.
    proof fn lemma_unfold(n: Box<Node<T>>)
        ensures
            Self::inorder_s(Option::Some(n)) == Self::inorder_s(n.left) + seq![n.data]
                + Self::inorder_s(n.right),
            Self::ordered(Option::Some(n)) == (Self::all_le(Self::inorder_s(n.left), n.data)
                && Self::all_ge(Self::inorder_s(n.right), n.data) && Self::ordered(n.left)
                && Self::ordered(n.right)),
            Self::inorder_s(Option::Some(n)).to_multiset() == Self::inorder_s(
                n.left,
            ).to_multiset().add(
                Multiset::<T>::empty().insert(n.data).add(
                    Self::inorder_s(n.right).to_multiset(),
                ),
            ),
    {
        let sl = Self::inorder_s(n.left);
        let sr = Self::inorder_s(n.right);
        lemma_multiset_commutative(sl + seq![n.data], sr);
        lemma_multiset_commutative(sl, seq![n.data]);
        assert(seq![n.data] =~= Seq::<T>::empty().push(n.data));
        Seq::<T>::empty().to_multiset_ensures();
        assert(seq![n.data].to_multiset() =~= Multiset::<T>::empty().insert(n.data));
        assert(Self::inorder_s(Option::Some(n)).to_multiset() =~= sl.to_multiset().add(
            Multiset::<T>::empty().insert(n.data).add(sr.to_multiset()),
        ));
    }

    /// Every element of a branch occurs in its multiset.
    proof fn lemma_mem(s: Seq<T>, x: T)
        requires
            s.to_multiset().count(x) > 0,
        ensures
            exists|i: int| 0 <= i < s.len() && s[i] == x,
    {
        s.to_multiset_ensures();
        assert(s.contains(x));
    }
}

impl<T: Key> Node<T> {
    /// A node with no children.
    pub fn new(data: T) -> (n: Node<T>)
        ensures
            n.data == data,
            n.left is None,
            n.right is None,
    {
        Node { data, left: Option::None, right: Option::None }
    }

    /// True iff the node has no children.
    pub fn is_leaf(&self) -> (r: bool)
        ensures
            r == (self.left is None && self.right is None),
    {
        self.left.is_none() && self.right.is_none()
    }

    /// Recursive insertion: smaller elements descend left, equal and larger
    /// ones right; a new leaf is attached where the search ends.
    fn ins(link: Option<Box<Node<T>>>, data: T) -> (res: Option<Box<Node<T>>>)
        requires
            Self::ordered(link),
        ensures
            res is Some,
            Self::ordered(res),
            Self::inorder_s(res).to_multiset() == Self::inorder_s(link).to_multiset().insert(
                data,
            ),
        decreases link,
    {
        match link {
            Option::None => {
                let n = Box::new(Node { data, left: Option::None, right: Option::None });
                proof {
                    Self::lemma_unfold(n);
                    Seq::<T>::empty().to_multiset_ensures();
                    assert(Self::inorder_s(Option::Some(n)).to_multiset()
                        =~= Self::inorder_s(Option::None).to_multiset().insert(data));
                }
                Option::Some(n)
            },
            Option::Some(mut n) => {
                let ghost orig = n;
                proof {
                    Self::lemma_unfold(orig);
                }
                match data.compare(&n.data) {
                    Cmp::Less => {
                        let l = n.left.take();
                        let l2 = Self::ins(l, data);
                        n.left = l2;
                        proof {
                            Self::lemma_unfold(n);
                            assert forall|i: int|
                                0 <= i < Self::inorder_s(n.left).len() implies (
                            #[trigger] Self::inorder_s(n.left)[i]).le(n.data) by {
                                let s2 = Self::inorder_s(n.left);
                                let x = s2[i];
                                s2.to_multiset_ensures();
                                assert(s2.to_multiset().count(x) > 0);
                                if x != data {
                                    Self::lemma_mem(Self::inorder_s(orig.left), x);
                                }
                            }
                            assert(Self::inorder_s(Option::Some(n)).to_multiset()
                                =~= Self::inorder_s(Option::Some(orig)).to_multiset().insert(
                                data,
                            ));
                        }
                        Option::Some(n)
                    },
                    _ => {
                        let r = n.right.take();
                        let r2 = Self::ins(r, data);
                        n.right = r2;
                        proof {
                            if data.le(n.data) && n.data.le(data) {
                                T::antisymmetric(data, n.data);
                            }
                            T::total(n.data, data);
                            assert(n.data.le(data));
                            Self::lemma_unfold(n);
                            assert forall|i: int|
                                0 <= i < Self::inorder_s(n.right).len() implies n.data.le(
                                #[trigger] Self::inorder_s(n.right)[i],
                            ) by {
                                let s2 = Self::inorder_s(n.right);
                                let x = s2[i];
                                s2.to_multiset_ensures();
                                assert(s2.to_multiset().count(x) > 0);
                                if x != data {
                                    Self::lemma_mem(Self::inorder_s(orig.right), x);
                                }
                            }
                            assert(Self::inorder_s(Option::Some(n)).to_multiset()
                                =~= Self::inorder_s(Option::Some(orig)).to_multiset().insert(
                                data,
                            ));
                        }
                        Option::Some(n)
                    },
                }
            },
        }
    }

    /// Binary search for an element.
    fn search_in(link: &Option<Box<Node<T>>>, data: T) -> (r: bool)
        requires
            Self::ordered(*link),
        ensures
            r == Self::inorder_s(*link).contains(data),
        decreases *link,
    {
        match link {
            Option::None => {
                proof {
                    assert(!Self::inorder_s(*link).contains(data));
                }
                false
            },
            Option::Some(node) => {
                proof {
                    Self::lemma_unfold(*node);
                }
                let ghost s = Self::inorder_s(*link);
                let ghost sl = Self::inorder_s(node.left);
                let ghost sr = Self::inorder_s(node.right);
                match data.compare(&node.data) {
                    Cmp::Equal => {
                        proof {
                            assert(s[sl.len() as int] == data);
                        }
                        true
                    },
                    Cmp::Less => {
                        let r = Self::search_in(&node.left, data);
                        proof {
                            if !r && s.contains(data) {
                                let i = choose|i: int| 0 <= i < s.len() && s[i] == data;
                                if i < sl.len() {
                                    assert(sl[i] == data);
                                } else if i == sl.len() {
                                } else {
                                    assert(sr[i - sl.len() - 1] == data);
                                    T::antisymmetric(data, node.data);
                                }
                            }
                            if r {
                                let i = choose|i: int| 0 <= i < sl.len() && sl[i] == data;
                                assert(s[i] == data);
                            }
                        }
                        r
                    },
                    Cmp::Greater => {
                        let r = Self::search_in(&node.right, data);
                        proof {
                            if data.le(node.data) {
                                T::antisymmetric(node.data, data);
                            }
                            if !r && s.contains(data) {
                                let i = choose|i: int| 0 <= i < s.len() && s[i] == data;
                                if i < sl.len() {
                                    assert(sl[i] == data);
                                    T::antisymmetric(data, node.data);
                                } else if i == sl.len() {
                                } else {
                                    assert(sr[i - sl.len() - 1] == data);
                                }
                            }
                            if r {
                                let i = choose|i: int| 0 <= i < sr.len() && sr[i] == data;
                                assert(s[sl.len() + 1 + i] == data);
                            }
                        }
                        r
                    },
                }
            },
        }
    }

    /// Removes the smallest element of a non-empty branch.
    fn del_min(link: Option<Box<Node<T>>>) -> (res: (Option<Box<Node<T>>>, T))
        requires
            link is Some,
            Self::ordered(link),
        ensures
            Self::ordered(res.0),
            Self::inorder_s(link).to_multiset() == Self::inorder_s(res.0).to_multiset().insert(
                res.1,
            ),
            Self::inorder_s(link).to_multiset().count(res.1) > 0,
            forall|i: int|
                0 <= i < Self::inorder_s(res.0).len() ==> res.1.le(
                    #[trigger] Self::inorder_s(res.0)[i],
                ),
            forall|i: int|
                0 <= i < Self::inorder_s(link).len() ==> res.1.le(
                    #[trigger] Self::inorder_s(link)[i],
                ),
        decreases link,
    {
        let mut n = match link {
            Option::Some(b) => b,
            Option::None => {
                proof {
                    assert(false);
                }
                unreached()
            },
        };
        let ghost orig = n;
        proof {
            Self::lemma_unfold(orig);
        }
        if n.left.is_none() {
            let r = n.right.take();
            proof {
                assert(Self::inorder_s(Option::Some(orig)) =~= seq![orig.data]
                    + Self::inorder_s(orig.right));
                lemma_multiset_commutative(seq![orig.data], Self::inorder_s(orig.right));
                assert(seq![orig.data] =~= Seq::<T>::empty().push(orig.data));
                Seq::<T>::empty().to_multiset_ensures();
                assert(Self::inorder_s(Option::Some(orig)).to_multiset() =~= Self::inorder_s(
                    orig.right,
                ).to_multiset().insert(orig.data));
                T::reflexive(orig.data);
                assert forall|i: int|
                    0 <= i < Self::inorder_s(Option::Some(orig)).len() implies orig.data.le(
                    #[trigger] Self::inorder_s(Option::Some(orig))[i],
                ) by {
                    if i > 0 {
                        assert(Self::inorder_s(Option::Some(orig))[i] == Self::inorder_s(
                            orig.right,
                        )[i - 1]);
                    }
                }
            }
            (r, n.data)
        } else {
            let l = n.left.take();
            let ghost l0 = l;
            let (l2, m) = Self::del_min(l);
            n.left = l2;
            proof {
                Self::lemma_unfold(n);
                Self::lemma_mem(Self::inorder_s(l0), m);
                assert(m.le(orig.data));
                assert forall|i: int|
                    0 <= i < Self::inorder_s(n.left).len() implies (
                #[trigger] Self::inorder_s(n.left)[i]).le(n.data) by {
                    let s2 = Self::inorder_s(n.left);
                    let x = s2[i];
                    s2.to_multiset_ensures();
                    assert(s2.to_multiset().count(x) > 0);
                    assert(Self::inorder_s(l0).to_multiset().count(x) > 0);
                    Self::lemma_mem(Self::inorder_s(l0), x);
                }
                assert(Self::inorder_s(Option::Some(n)).to_multiset().insert(m)
                    =~= Self::inorder_s(Option::Some(orig)).to_multiset());
                assert forall|i: int|
                    0 <= i < Self::inorder_s(Option::Some(n)).len() implies m.le(
                    #[trigger] Self::inorder_s(Option::Some(n))[i],
                ) by {
                    let s = Self::inorder_s(Option::Some(n));
                    let sl = Self::inorder_s(n.left);
                    let sr = Self::inorder_s(n.right);
                    if i < sl.len() {
                        assert(s[i] == sl[i]);
                    } else if i == sl.len() {
                        assert(s[i] == n.data);
                    } else {
                        assert(s[i] == sr[i - sl.len() - 1]);
                        T::transitive(m, orig.data, s[i]);
                    }
                }
                assert forall|i: int|
                    0 <= i < Self::inorder_s(Option::Some(orig)).len() implies m.le(
                    #[trigger] Self::inorder_s(Option::Some(orig))[i],
                ) by {
                    let s = Self::inorder_s(Option::Some(orig));
                    let sl = Self::inorder_s(orig.left);
                    let sr = Self::inorder_s(orig.right);
                    if i < sl.len() {
                        assert(s[i] == sl[i]);
                    } else if i == sl.len() {
                        assert(s[i] == orig.data);
                    } else {
                        assert(s[i] == sr[i - sl.len() - 1]);
                        T::transitive(m, orig.data, s[i]);
                    }
                }
            }
            (Option::Some(n), m)
        }
    }

    /// Removes one occurrence of an element, if present.
    fn del(link: Option<Box<Node<T>>>, data: T) -> (res: (Option<Box<Node<T>>>, bool))
        requires
            Self::ordered(link),
        ensures
            Self::ordered(res.0),
            res.1 ==> Self::inorder_s(link).to_multiset() == Self::inorder_s(
                res.0,
            ).to_multiset().insert(data),
            !res.1 ==> res.0 == link && !Self::inorder_s(link).contains(data),
        decreases link,
    {
        let mut n = match link {
            Option::Some(b) => b,
            Option::None => {
                proof {
                    assert(!Self::inorder_s(link).contains(data));
                }
                return (Option::None, false);
            },
        };
        let ghost orig = n;
        proof {
            Self::lemma_unfold(orig);
        }
        match data.compare(&n.data) {
            Cmp::Equal => {
                if n.left.is_none() {
                    let r = n.right.take();
                    proof {
                        assert(Self::inorder_s(Option::Some(orig)) =~= seq![orig.data]
                            + Self::inorder_s(orig.right));
                        lemma_multiset_commutative(seq![orig.data], Self::inorder_s(orig.right));
                        assert(seq![orig.data] =~= Seq::<T>::empty().push(orig.data));
                        Seq::<T>::empty().to_multiset_ensures();
                        assert(Self::inorder_s(Option::Some(orig)).to_multiset()
                            =~= Self::inorder_s(orig.right).to_multiset().insert(orig.data));
                    }
                    (r, true)
                } else if n.right.is_none() {
                    let l = n.left.take();
                    proof {
                        assert(Self::inorder_s(Option::Some(orig)) =~= Self::inorder_s(orig.left)
                            + seq![orig.data]);
                        lemma_multiset_commutative(Self::inorder_s(orig.left), seq![orig.data]);
                        assert(seq![orig.data] =~= Seq::<T>::empty().push(orig.data));
                        Seq::<T>::empty().to_multiset_ensures();
                        assert(Self::inorder_s(orig.left).to_multiset().add(
                            seq![orig.data].to_multiset(),
                        ) =~= Self::inorder_s(orig.left).to_multiset().insert(orig.data));
                    }
                    (l, true)
                } else {
                    let r = n.right.take();
                    let ghost r0 = r;
                    let (r2, m) = Self::del_min(r);
                    n.data = m;
                    n.right = r2;
                    proof {
                        Self::lemma_unfold(n);
                        Self::lemma_mem(Self::inorder_s(r0), m);
                        assert(orig.data.le(m));
                        assert forall|i: int|
                            0 <= i < Self::inorder_s(n.left).len() implies (
                        #[trigger] Self::inorder_s(n.left)[i]).le(m) by {
                            T::transitive(Self::inorder_s(n.left)[i], orig.data, m);
                        }
                        assert(Self::inorder_s(Option::Some(n)).to_multiset().insert(data)
                            =~= Self::inorder_s(Option::Some(orig)).to_multiset());
                    }
                    (Option::Some(n), true)
                }
            },
            Cmp::Less => {
                let l = n.left.take();
                let ghost l0 = l;
                let (l2, found) = Self::del(l, data);
                n.left = l2;
                if !found {
                    proof {
                        assert(n == orig);
                        if Self::inorder_s(Option::Some(orig)).contains(data) {
                            let s = Self::inorder_s(Option::Some(orig));
                            let sl = Self::inorder_s(orig.left);
                            let sr = Self::inorder_s(orig.right);
                            let i = choose|i: int| 0 <= i < s.len() && s[i] == data;
                            if i < sl.len() {
                                assert(sl[i] == data);
                            } else if i == sl.len() {
                            } else {
                                assert(sr[i - sl.len() - 1] == data);
                                T::antisymmetric(data, orig.data);
                            }
                        }
                    }
                    return (Option::Some(n), false);
                }
                proof {
                    Self::lemma_unfold(n);
                    assert forall|i: int|
                        0 <= i < Self::inorder_s(n.left).len() implies (
                    #[trigger] Self::inorder_s(n.left)[i]).le(n.data) by {
                        let s2 = Self::inorder_s(n.left);
                        let x = s2[i];
                        s2.to_multiset_ensures();
                        assert(s2.to_multiset().count(x) > 0);
                        assert(Self::inorder_s(l0).to_multiset().count(x) > 0);
                        Self::lemma_mem(Self::inorder_s(l0), x);
                    }
                    assert(Self::inorder_s(Option::Some(n)).to_multiset().insert(data)
                        =~= Self::inorder_s(Option::Some(orig)).to_multiset());
                }
                (Option::Some(n), true)
            },
            Cmp::Greater => {
                proof {
                    if data.le(n.data) {
                        T::antisymmetric(n.data, data);
                    }
                }
                let r = n.right.take();
                let ghost r0 = r;
                let (r2, found) = Self::del(r, data);
                n.right = r2;
                if !found {
                    proof {
                        assert(n == orig);
                        if Self::inorder_s(Option::Some(orig)).contains(data) {
                            let s = Self::inorder_s(Option::Some(orig));
                            let sl = Self::inorder_s(orig.left);
                            let sr = Self::inorder_s(orig.right);
                            let i = choose|i: int| 0 <= i < s.len() && s[i] == data;
                            if i < sl.len() {
                                assert(sl[i] == data);
                                T::antisymmetric(data, orig.data);
                            } else if i == sl.len() {
                            } else {
                                assert(sr[i - sl.len() - 1] == data);
                            }
                        }
                    }
                    return (Option::Some(n), false);
                }
                proof {
                    Self::lemma_unfold(n);
                    assert forall|i: int|
                        0 <= i < Self::inorder_s(n.right).len() implies n.data.le(
                        #[trigger] Self::inorder_s(n.right)[i],
                    ) by {
                        let s2 = Self::inorder_s(n.right);
                        let x = s2[i];
                        s2.to_multiset_ensures();
                        assert(s2.to_multiset().count(x) > 0);
                        assert(Self::inorder_s(r0).to_multiset().count(x) > 0);
                        Self::lemma_mem(Self::inorder_s(r0), x);
                    }
                    assert(Self::inorder_s(Option::Some(n)).to_multiset().insert(data)
                        =~= Self::inorder_s(Option::Some(orig)).to_multiset());
                }
                (Option::Some(n), true)
            },
        }
    }

    /// Collects a branch in symmetric order.
    fn inorder_collect(link: &Option<Box<Node<T>>>, out: &mut Vec<T>)
        ensures
            final(out)@ == old(out)@ + Self::inorder_s(*link),
        decreases *link,
    {
        match link {
            Option::None => {
                proof {
                    assert(out@ =~= out@ + Self::inorder_s(*link));
                }
            },
            Option::Some(node) => {
                let ghost pre = out@;
                Self::inorder_collect(&node.left, out);
                out.push(node.data);
                Self::inorder_collect(&node.right, out);
                proof {
                    assert(out@ =~= pre + Self::inorder_s(*link));
                }
            },
        }
    }

    /// Collects a branch in preorder.
    fn preorder_collect(link: &Option<Box<Node<T>>>, out: &mut Vec<T>)
        ensures
            final(out)@ == old(out)@ + Self::preorder_s(*link),
        decreases *link,
    {
        match link {
            Option::None => {
                proof {
                    assert(out@ =~= out@ + Self::preorder_s(*link));
                }
            },
            Option::Some(node) => {
                let ghost pre = out@;
                out.push(node.data);
                Self::preorder_collect(&node.left, out);
                Self::preorder_collect(&node.right, out);
                proof {
                    assert(out@ =~= pre + Self::preorder_s(*link));
                }
            },
        }
    }

    /// Collects a branch in postorder.
    fn postorder_collect(link: &Option<Box<Node<T>>>, out: &mut Vec<T>)
        ensures
            final(out)@ == old(out)@ + Self::postorder_s(*link),
        decreases *link,
    {
        match link {
            Option::None => {
                proof {
                    assert(out@ =~= out@ + Self::postorder_s(*link));
                }
            },
            Option::Some(node) => {
                let ghost pre = out@;
                Self::postorder_collect(&node.left, out);
                Self::postorder_collect(&node.right, out);
                out.push(node.data);
                proof {
                    assert(out@ =~= pre + Self::postorder_s(*link));
                }
            },
        }
    }

    /// Builds a branch whose symmetric order is exactly `s[lo..hi]`, with
    /// the middle element at the root.
    fn build_balanced(s: &Vec<T>, lo: usize, hi: usize) -> (res: Option<Box<Node<T>>>)
        requires
            lo <= hi <= s@.len(),
            forall|i: int, j: int|
                0 <= i <= j < s@.len() ==> (#[trigger] s@[i]).le(#[trigger] s@[j]),
        ensures
            Self::inorder_s(res) == s@.subrange(lo as int, hi as int),
            Self::ordered(res),
            lo == hi ==> res is None,
            hi - lo >= 1 ==> pow2(Self::height_s(res)) <= 2 * (hi - lo),
        decreases hi - lo,
    {
        if lo == hi {
            proof {
                assert(Self::inorder_s(Option::None::<Box<Node<T>>>) =~= s@.subrange(
                    lo as int,
                    hi as int,
                ));
            }
            Option::None
        } else {
            let mid = lo + (hi - lo) / 2;
            let left = Self::build_balanced(s, lo, mid);
            let right = Self::build_balanced(s, mid + 1, hi);
            let n = Box::new(Node { data: s[mid], left, right });
            proof {
                Self::lemma_unfold(n);
                assert(Self::inorder_s(Option::Some(n)) =~= s@.subrange(lo as int, hi as int));
                assert forall|i: int|
                    0 <= i < Self::inorder_s(n.left).len() implies (
                #[trigger] Self::inorder_s(n.left)[i]).le(n.data) by {
                    assert(Self::inorder_s(n.left)[i] == s@[lo + i]);
                }
                assert forall|i: int|
                    0 <= i < Self::inorder_s(n.right).len() implies n.data.le(
                    #[trigger] Self::inorder_s(n.right)[i],
                ) by {
                    assert(Self::inorder_s(n.right)[i] == s@[mid + 1 + i]);
                }
                Self::lemma_height_of_halves(n, (mid - lo) as nat, (hi - mid - 1) as nat);
            }
            Option::Some(n)
        }
    }

    /// A node whose halves satisfy the balanced-height bound satisfies it
    /// for their combined size: the classical doubling argument.
    proof fn lemma_height_of_halves(n: Box<Node<T>>, ll: nat, rl: nat)
        requires
            ll == 0 ==> n.left is None,
            ll >= 1 ==> pow2(Self::height_s(n.left)) <= 2 * ll,
            rl == 0 ==> n.right is None,
            rl >= 1 ==> pow2(Self::height_s(n.right)) <= 2 * rl,
            ll >= rl,
            ll <= rl + 1,
            ll >= 1 || (n.left is None && n.right is None),
        ensures
            pow2(Self::height_s(Option::Some(n))) <= 2 * (ll + rl + 1),
    {
        vstd::arithmetic::power2::lemma2_to64();
        let hl = Self::height_s(n.left);
        let hr = Self::height_s(n.right);
        let h = Self::height_s(Option::Some(n));
        assert(h == 1 + if hl >= hr {
            hl
        } else {
            hr
        });
        lemma_pow2_unfold(h);
        if hl >= hr {
            if hr < hl {
                lemma_pow2_strictly_increases(hr, hl);
            }
            if ll == 0 {
                assert(hl == 0);
            }
            assert(pow2(hl) <= 2 * ll + 1);
        } else {
            lemma_pow2_strictly_increases(hl, hr);
            assert(rl >= 1);
            assert(pow2(hr) <= 2 * rl);
        }
    }
}

impl<T: Key> BinarySearchTree<T> {
    /// The elements in sorted order.
    pub open spec fn inorder_view(self) -> Seq<T> {
        Node::<T>::inorder_s(self.root)
    }

    /// The multiset of stored elements.
    pub open spec fn mset(self) -> Multiset<T> {
        self.inorder_view().to_multiset()
    }

    /// The search ordering holds everywhere.
    pub open spec fn wf(self) -> bool {
        Node::<T>::ordered(self.root)
    }

    /// The depth of the tree.
    pub open spec fn height_of(self) -> nat {
        Node::<T>::height_s(self.root)
    }

    /// An empty tree.
    pub fn new() -> (t: Self)
        ensures
            t.wf(),
            t.mset() == Seq::<T>::empty().to_multiset(),
            t.inorder_view() == Seq::<T>::empty(),
    {
        BinarySearchTree { root: Option::None }
    }

    /// Inserts an element; duplicates land to the right of their equals.
    pub fn insert(&mut self, data: T)
        requires
            old(self).wf(),
        ensures
            final(self).wf(),
            final(self).mset() == old(self).mset().insert(data),
    {
        let root = self.root.take();
        self.root = Node::<T>::ins(root, data);
    }

    /// True iff the element is stored.
    pub fn search(&self, data: T) -> (r: bool)
        requires
            self.wf(),
        ensures
            r == self.inorder_view().contains(data),
    {
        Node::<T>::search_in(&self.root, data)
    }

    /// Removes one occurrence of an element; an absent element leaves the
    /// tree untouched and yields nothing.
    pub fn delete(&mut self, data: T) -> (r: Option<T>)
        requires
            old(self).wf(),
        ensures
            final(self).wf(),
            match r {
                Option::Some(d) => d == data && old(self).mset() == final(self).mset().insert(
                    data,
                ),
                Option::None => *final(self) == *old(self) && !old(self).inorder_view().contains(
                    data,
                ),
            },
    {
        let root = self.root.take();
        let (new_root, found) = Node::<T>::del(root, data);
        self.root = new_root;
        if found {
            Option::Some(data)
        } else {
            Option::None
        }
    }

    /// The elements in ascending order.
    pub fn in_order_traversal(&self) -> (r: Vec<T>)
        ensures
            r@ == self.inorder_view(),
    {
        let mut out: Vec<T> = Vec::new();
        Node::<T>::inorder_collect(&self.root, &mut out);
        proof {
            assert(out@ =~= self.inorder_view());
        }
        out
    }

    /// The elements in preorder.
    pub fn pre_order_traversal(&self) -> (r: Vec<T>)
        ensures
            r@ == Node::<T>::preorder_s(self.root),
    {
        let mut out: Vec<T> = Vec::new();
        Node::<T>::preorder_collect(&self.root, &mut out);
        proof {
            assert(out@ =~= Node::<T>::preorder_s(self.root));
        }
        out
    }

    /// The elements in postorder.
    pub fn post_order_traversal(&self) -> (r: Vec<T>)
        ensures
            r@ == Node::<T>::postorder_s(self.root),
    {
        let mut out: Vec<T> = Vec::new();
        Node::<T>::postorder_collect(&self.root, &mut out);
        proof {
            assert(out@ =~= Node::<T>::postorder_s(self.root));
        }
        out
    }

    /// Rebuilds the tree into balanced shape: the same elements, arranged so
    /// the middle of the sorted order is the root of every subtree.
    pub fn balance(&mut self)
        requires
            old(self).wf(),
        ensures
            final(self).wf(),
            final(self).mset() == old(self).mset(),
            final(self).inorder_view().len() == old(self).inorder_view().len(),
            final(self).inorder_view().len() == 0 ==> final(self).height_of() == 0,
            final(self).inorder_view().len() >= 1 ==> pow2(final(self).height_of()) <= 2
                * final(self).inorder_view().len(),
    {
        let sorted = self.in_order_traversal();
        proof {
            self.lemma_inorder_sorted();
        }
        let n = sorted.len();
        let new_root = Node::<T>::build_balanced(&sorted, 0, n);
        proof {
            assert(sorted@.subrange(0, n as int) =~= sorted@);
        }
        self.root = new_root;
    }

    /// Order preservation: the in-order sequence of a well-formed tree never
    /// decreases.
    pub proof fn lemma_inorder_sorted(self)
        requires
            self.wf(),
        ensures
            forall|i: int, j: int|
                0 <= i <= j < self.inorder_view().len() ==> (
                #[trigger] self.inorder_view()[i]).le(#[trigger] self.inorder_view()[j]),
    {
        Self::lemma_sorted_in(self.root);
    }

    /// Structural induction behind `lemma_inorder_sorted`.
    proof fn lemma_sorted_in(link: Option<Box<Node<T>>>)
        requires
            Node::<T>::ordered(link),
        ensures
            forall|i: int, j: int|
                0 <= i <= j < Node::<T>::inorder_s(link).len() ==> (
                #[trigger] Node::<T>::inorder_s(link)[i]).le(
                    #[trigger] Node::<T>::inorder_s(link)[j],
                ),
        decreases link,
    {
        match link {
            Option::None => {
            },
            Option::Some(node) => {
                Self::lemma_sorted_in(node.left);
                Self::lemma_sorted_in(node.right);
                Node::<T>::lemma_unfold(node);
                let s = Node::<T>::inorder_s(link);
                let sl = Node::<T>::inorder_s(node.left);
                let sr = Node::<T>::inorder_s(node.right);
                assert forall|i: int, j: int| 0 <= i <= j < s.len() implies (
                #[trigger] s[i]).le(#[trigger] s[j]) by {
                    let li = sl.len() as int;
                    if j < li {
                        assert(s[i] == sl[i] && s[j] == sl[j]);
                    } else if i < li && j == li {
                        assert(s[i] == sl[i]);
                    } else if i < li && j > li {
                        assert(s[i] == sl[i] && s[j] == sr[j - li - 1]);
                        T::transitive(s[i], node.data, s[j]);
                    } else if i == li && j == li {
                        T::reflexive(node.data);
                    } else if i == li && j > li {
                        assert(s[j] == sr[j - li - 1]);
                    } else {
                        assert(s[i] == sr[i - li - 1] && s[j] == sr[j - li - 1]);
                    }
                }
            },
        }
    }
}

} // verus!
