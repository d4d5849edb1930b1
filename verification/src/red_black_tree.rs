//! A red-black tree: a self-balancing ordered key-value container with
//! logarithmic insertion, deletion and lookup, ordered traversal and a
//! structural self-validator.
//!
//! The tree is modelled as a `Map<K, V>`; every public operation states its
//! effect on that map. Well-formedness bundles the red-black rules: keys obey
//! the search order, a red node has no red child, every path from a node to a
//! leaf passes the same number of black nodes, and the root is black. Each
//! mutating operation is proved to preserve all of them.
//!
//! Keys are unique: inserting an existing key overwrites its value. Missing
//! children are represented by the absent branch itself, which is black by
//! definition, so the always-black sentinel rule holds by construction.

use vstd::prelude::*;

use vstd::arithmetic::power2::{pow2, lemma_pow2_unfold};
use vstd::set_lib::lemma_set_disjoint_lens;

use crate::ordered::{Cmp, Key, Value};

verus! {

/// The color of a tree node.
#[derive(Clone, Copy, PartialEq, Eq, Structural, Debug)]
pub enum Color {
    RED,
    BLACK,
}

/// The errors the tree reports: a lookup or deletion of an absent key, and
/// the first red-black rule a validation run finds broken.
#[derive(Clone, Copy, PartialEq, Eq, Structural, Debug)]
pub enum RbError {
    /// The requested key is not in the tree.
    NotFound,
    /// The root is red.
    RootNotBlack,
    /// Some red node has a red child.
    RedRedViolation,
    /// Two paths from some node pass different numbers of black nodes.
    BlackHeightMismatch,
}

/// One node: a key, its value, a color and the two owned subtrees. An absent
/// branch stands for the always-black nil leaf.
pub struct RbNode<K: Key, V: Value> {
    pub key: K,
    pub val: V,
    pub color: Color,
    pub left: Option<Box<RbNode<K, V>>>,
    pub right: Option<Box<RbNode<K, V>>>,
}

/// The tree: the root branch and a size counter.
pub struct RbTree<K: Key, V: Value> {
    root: Option<Box<RbNode<K, V>>>,
    pub size: usize,
    /// Diagnostic toggle kept for callers; the verified operations ignore it.
    pub debug: bool,
}

impl<K: Key, V: Value> RbNode<K, V> {
    /// The key-value map a branch holds.
    pub open spec fn opt_as_map(link: Option<Box<RbNode<K, V>>>) -> Map<K, V>
        decreases link,
    {
        match link {
            Option::None => Map::empty(),
            Option::Some(node) => Self::opt_as_map(node.left).union_prefer_right(
                Self::opt_as_map(node.right),
            ).insert(node.key, node.val),
        }
    }

    /// The color of a branch; an absent branch is a black nil leaf.
    pub open spec fn opt_color(link: Option<Box<RbNode<K, V>>>) -> Color {
        match link {
            Option::None => Color::BLACK,
            Option::Some(node) => node.color,
        }
    }

    /// Every key of `m` is strictly below `key`.
    pub open spec fn all_lt(m: Map<K, V>, key: K) -> bool {
        forall|x: K| #[trigger] m.dom().contains(x) ==> x.le(key) && x != key
    }

    /// Every key of `m` is strictly above `key`.
    pub open spec fn all_gt(m: Map<K, V>, key: K) -> bool {
        forall|x: K| #[trigger] m.dom().contains(x) ==> key.le(x) && x != key
    }

    /// The binary-search ordering: at every node, the left subtree holds
    /// strictly smaller keys and the right subtree strictly larger ones.
    pub open spec fn opt_ordered(link: Option<Box<RbNode<K, V>>>) -> bool
        decreases link,
    {
        match link {
            Option::None => true,
            Option::Some(node) => {
                &&& Self::all_lt(Self::opt_as_map(node.left), node.key)
                &&& Self::all_gt(Self::opt_as_map(node.right), node.key)
                &&& Self::opt_ordered(node.left)
                &&& Self::opt_ordered(node.right)
            },
        }
    }

    /// No red node has a red child.
    pub open spec fn no_red_red(link: Option<Box<RbNode<K, V>>>) -> bool
        decreases link,
    {
        match link {
            Option::None => true,
            Option::Some(node) => {
                &&& (node.color == Color::RED ==> Self::opt_color(node.left) == Color::BLACK
                    && Self::opt_color(node.right) == Color::BLACK)
                &&& Self::no_red_red(node.left)
                &&& Self::no_red_red(node.right)
            },
        }
    }

    /// The number of black nodes on the leftmost path, the nil leaf excluded.
    pub open spec fn bh(link: Option<Box<RbNode<K, V>>>) -> nat
        decreases link,
    {
        match link {
            Option::None => 0,
            Option::Some(node) => Self::bh(node.left) + if node.color == Color::BLACK {
                1nat
            } else {
                0nat
            },
        }
    }

    /// Every path from each node to a leaf passes the same number of black
    /// nodes, so the black-height of every subtree is well defined.
    pub open spec fn bh_ok(link: Option<Box<RbNode<K, V>>>) -> bool
        decreases link,
    {
        match link {
            Option::None => true,
            Option::Some(node) => {
                &&& Self::bh_ok(node.left)
                &&& Self::bh_ok(node.right)
                &&& Self::bh(node.left) == Self::bh(node.right)
            },
        }
    }

    /// A structurally valid red-black subtree: ordered, no red-red edge,
    /// consistent black heights.
    pub open spec fn opt_wf(link: Option<Box<RbNode<K, V>>>) -> bool {
        Self::opt_ordered(link) && Self::no_red_red(link) && Self::bh_ok(link)
    }

    /// The key-value pairs of a branch in symmetric (sorted) order.
    pub open spec fn inorder_spec(link: Option<Box<RbNode<K, V>>>) -> Seq<(K, V)>
        decreases link,
    {
        match link {
            Option::None => Seq::empty(),
            Option::Some(node) => Self::inorder_spec(node.left) + seq![(node.key, node.val)]
                + Self::inorder_spec(node.right),
        }
    }

    /// The key-value pairs of a branch in preorder (node before subtrees).
    pub open spec fn preorder_spec(link: Option<Box<RbNode<K, V>>>) -> Seq<(K, V)>
        decreases link,
    {
        match link {
            Option::None => Seq::empty(),
            Option::Some(node) => seq![(node.key, node.val)] + Self::preorder_spec(node.left)
                + Self::preorder_spec(node.right),
        }
    }

    /// The key-value pairs of a branch in postorder (subtrees before node).
    pub open spec fn postorder_spec(link: Option<Box<RbNode<K, V>>>) -> Seq<(K, V)>
        decreases link,
    {
        match link {
            Option::None => Seq::empty(),
            Option::Some(node) => Self::postorder_spec(node.left) + Self::postorder_spec(node.right)
                + seq![(node.key, node.val)],
        }
    }

    /// The color of the node holding `key` on the search path, black if the
    /// path ends at a leaf.
    pub open spec fn color_at(link: Option<Box<RbNode<K, V>>>, key: K) -> Color
        decreases link,
    {
        match link {
            Option::None => Color::BLACK,
            Option::Some(node) => if key == node.key {
                node.color
            } else if key.le(node.key) {
                Self::color_at(node.left, key)
            } else {
                Self::color_at(node.right, key)
            },
        }
    }

    /// The map and the ordering of a branch do not depend on node colors:
    /// two roots with equal keys, values and children carry equal maps.
    proof fn lemma_color_blind(a: Box<RbNode<K, V>>, b: Box<RbNode<K, V>>)
        requires
            a.key == b.key,
            a.val == b.val,
            a.left == b.left,
            a.right == b.right,
        ensures
            Self::opt_as_map(Option::Some(a)) == Self::opt_as_map(Option::Some(b)),
            Self::opt_ordered(Option::Some(a)) == Self::opt_ordered(Option::Some(b)),
            Self::inorder_spec(Option::Some(a)) == Self::inorder_spec(Option::Some(b)),
    {
    }

    /// A key bounded strictly away from every key of `m` is not in `m`.
    proof fn lemma_bound_not_in(m: Map<K, V>, key: K)
        requires
            Self::all_lt(m, key) || Self::all_gt(m, key),
        ensures
            !m.dom().contains(key),
    {
        if m.dom().contains(key) {
            K::reflexive(key);
            assert(false);
        }
    }

    /// True iff the branch's root is red; a nil leaf is black.
    fn is_red(link: &Option<Box<RbNode<K, V>>>) -> (r: bool)
        ensures
            r == (Self::opt_color(*link) == Color::RED),
    {
        match link {
            Option::Some(node) => node.color == Color::RED,
            Option::None => false,
        }
    }

    /// Binary search for `key`; hands back its pair and node color.
    fn find_in(link: &Option<Box<RbNode<K, V>>>, key: K) -> (r: Option<(K, V, Color)>)
        requires
            Self::opt_ordered(*link),
        ensures
            match r {
                Option::Some(t) => Self::opt_as_map(*link).dom().contains(key) && t.0 == key
                    && t.1 == Self::opt_as_map(*link)[key] && t.2 == Self::color_at(*link, key),
                Option::None => !Self::opt_as_map(*link).dom().contains(key),
            },
        decreases *link,
    {
        match link {
            Option::None => Option::None,
            Option::Some(node) => {
                match key.compare(&node.key) {
                    Cmp::Equal => {
                        proof {
                            Self::lemma_bound_not_in(Self::opt_as_map(node.left), key);
                            Self::lemma_bound_not_in(Self::opt_as_map(node.right), key);
                        }
                        Option::Some((node.key, node.val, node.color))
                    },
                    Cmp::Less => {
                        proof {
                            if Self::opt_as_map(node.right).dom().contains(key) {
                                K::antisymmetric(node.key, key);
                            }
                        }
                        Self::find_in(&node.left, key)
                    },
                    Cmp::Greater => {
                        proof {
                            if Self::opt_as_map(node.left).dom().contains(key) {
                                K::antisymmetric(node.key, key);
                            }
                            if key.le(node.key) {
                                K::antisymmetric(node.key, key);
                            }
                        }
                        Self::find_in(&node.right, key)
                    },
                }
            },
        }
    }

    /// After an insertion below this branch the only red-red edge that may
    /// remain is between the branch's root and one of its children.
    pub open spec fn almost_no_red_red(link: Option<Box<RbNode<K, V>>>) -> bool {
        match link {
            Option::None => true,
            Option::Some(node) => {
                &&& Self::no_red_red(node.left)
                &&& Self::no_red_red(node.right)
                &&& (node.color == Color::RED ==> !(Self::opt_color(node.left) == Color::RED
                    && Self::opt_color(node.right) == Color::RED))
            },
        }
    }

    /// The branch map is finite, so its cardinality is usable.
    proof fn lemma_map_finite(link: Option<Box<RbNode<K, V>>>)
        ensures
            Self::opt_as_map(link).dom().finite(),
        decreases link,
    {
        match link {
            Option::None => {
                assert(Self::opt_as_map(link).dom() =~= Set::<K>::empty());
            },
            Option::Some(node) => {
                Self::lemma_map_finite(node.left);
                Self::lemma_map_finite(node.right);
                assert(Self::opt_as_map(link).dom() =~= Self::opt_as_map(
                    node.left,
                ).dom().union(Self::opt_as_map(node.right).dom()).insert(node.key));
            },
        }
    }

    /// A strict upper bound survives inserting another key below it.
    proof fn lemma_all_lt_insert(m: Map<K, V>, key: K, val: V, bound: K)
        requires
            Self::all_lt(m, bound),
            key.le(bound),
            key != bound,
        ensures
            Self::all_lt(m.insert(key, val), bound),
    {
    }

    /// A strict lower bound survives inserting another key above it.
    proof fn lemma_all_gt_insert(m: Map<K, V>, key: K, val: V, bound: K)
        requires
            Self::all_gt(m, bound),
            bound.le(key),
            key != bound,
        ensures
            Self::all_gt(m.insert(key, val), bound),
    {
    }

    /// The map of a node assembled from its parts.
    pub open spec fn node_map(l: Map<K, V>, key: K, val: V, r: Map<K, V>) -> Map<K, V> {
        l.union_prefer_right(r).insert(key, val)
    }

    /// One-level unfolding of every structural spec function at a node, so
    /// that proofs can reach grandchildren without fuel trouble.
    proof fn lemma_unfold(n: Box<RbNode<K, V>>)
        ensures
            Self::opt_as_map(Option::Some(n)) == Self::node_map(
                Self::opt_as_map(n.left),
                n.key,
                n.val,
                Self::opt_as_map(n.right),
            ),
            Self::opt_as_map(Option::Some(n)).dom() =~= Self::opt_as_map(n.left).dom().union(
                Self::opt_as_map(n.right).dom(),
            ).insert(n.key),
            Self::opt_ordered(Option::Some(n)) == (Self::all_lt(
                Self::opt_as_map(n.left),
                n.key,
            ) && Self::all_gt(Self::opt_as_map(n.right), n.key) && Self::opt_ordered(n.left)
                && Self::opt_ordered(n.right)),
            Self::bh(Option::Some(n)) == Self::bh(n.left) + if n.color == Color::BLACK {
                1nat
            } else {
                0nat
            },
            Self::bh_ok(Option::Some(n)) == (Self::bh_ok(n.left) && Self::bh_ok(n.right)
                && Self::bh(n.left) == Self::bh(n.right)),
            Self::no_red_red(Option::Some(n)) == ((n.color == Color::RED
                ==> Self::opt_color(n.left) == Color::BLACK && Self::opt_color(n.right)
                == Color::BLACK) && Self::no_red_red(n.left) && Self::no_red_red(n.right)),
            Self::inorder_spec(Option::Some(n)) == Self::inorder_spec(n.left) + seq![
                (n.key, n.val),
            ] + Self::inorder_spec(n.right),
    {
    }

    /// A rotation reassociates the assembled maps: lifting the left node of a
    /// pair above it (or lowering it back) does not change the joint map, as
    /// long as the two node keys differ and the outer right map avoids the
    /// inner key.
    proof fn lemma_node_map_assoc(ll: Map<K, V>, lk: K, lv: V, m: Map<K, V>, k: K, v: V, r: Map<
        K,
        V,
    >)
        requires
            lk != k,
            !r.dom().contains(lk),
        ensures
            Self::node_map(Self::node_map(ll, lk, lv, m), k, v, r) == Self::node_map(
                ll,
                lk,
                lv,
                Self::node_map(m, k, v, r),
            ),
    {
        assert(Self::node_map(Self::node_map(ll, lk, lv, m), k, v, r) =~= Self::node_map(
            ll,
            lk,
            lv,
            Self::node_map(m, k, v, r),
        ));
    }

    /// Repairs the one possible red-red edge in the left child of a black
    /// node, exactly as the classical insertion fix-up does: a red uncle is
    /// recolored, a black uncle triggers one or two rotations.
    fn balance_left(mut n: Box<RbNode<K, V>>) -> (res: Box<RbNode<K, V>>)
        requires
            n.color == Color::BLACK,
            Self::almost_no_red_red(n.left),
            Self::no_red_red(n.right),
            Self::bh_ok(n.left),
            Self::bh_ok(n.right),
            Self::bh(n.left) == Self::bh(n.right),
            Self::opt_ordered(n.left),
            Self::opt_ordered(n.right),
            Self::all_lt(Self::opt_as_map(n.left), n.key),
            Self::all_gt(Self::opt_as_map(n.right), n.key),
        ensures
            Self::opt_as_map(Option::Some(res)) == Self::opt_as_map(Option::Some(n)),
            Self::opt_ordered(Option::Some(res)),
            Self::no_red_red(Option::Some(res)),
            Self::bh_ok(Option::Some(res)),
            Self::bh(Option::Some(res)) == Self::bh(Option::Some(n)),
    {
        let ghost orig = n;
        proof {
            Self::lemma_unfold(orig);
        }
        let l_taken = n.left.take();
        match l_taken {
            Option::None => {
                proof {
                    assert(n == orig);
                }
                n
            },
            Option::Some(mut l) => {
                if l.color == Color::RED && (Self::is_red(&l.left) || Self::is_red(&l.right)) {
                    if Self::is_red(&n.right) {
                        // the uncle is red: recolor parent and uncle black, this node red
                        let ghost l0 = l;
                        l.color = Color::BLACK;
                        let mut u = n.right.take().unwrap();
                        let ghost u0 = u;
                        u.color = Color::BLACK;
                        proof {
                            Self::lemma_color_blind(l, l0);
                            Self::lemma_color_blind(u, u0);
                        }
                        n.right = Option::Some(u);
                        n.color = Color::RED;
                        n.left = Option::Some(l);
                        proof {
                            Self::lemma_unfold(n);
                            assert(Self::opt_as_map(Option::Some(n)) == Self::opt_as_map(
                                Option::Some(orig),
                            ));
                            assert(Self::opt_ordered(Option::Some(n)));
                            assert(Self::bh(Option::Some(n)) == Self::bh(Option::Some(orig)));
                        }
                        n
                    } else {
                        // the uncle is black; an inner red grandchild is first
                        // rotated outward, then one rotation at this node ends
                        // the repair
                        if !Self::is_red(&l.left) {
                            let ghost l0 = l;
                            let mut lr = l.right.take().unwrap();
                            let ghost lr0 = lr;
                            let lrl = lr.left.take();
                            l.right = lrl;
                            let ghost l1 = l;
                            lr.left = Option::Some(l);
                            proof {
                                Self::lemma_unfold(l0);
                                Self::lemma_unfold(lr0);
                                Self::lemma_unfold(l1);
                                Self::lemma_unfold(lr);
                                assert(Self::opt_as_map(l0.right).dom().contains(lr0.key));
                                assert(l0.key.le(lr0.key) && l0.key != lr0.key);
                                if Self::opt_as_map(lr0.right).dom().contains(l0.key) {
                                    assert(Self::opt_as_map(l0.right).dom().contains(l0.key));
                                    Self::lemma_bound_not_in(
                                        Self::opt_as_map(l0.right),
                                        l0.key,
                                    );
                                }
                                Self::lemma_node_map_assoc(
                                    Self::opt_as_map(l0.left),
                                    l0.key,
                                    l0.val,
                                    Self::opt_as_map(lr0.left),
                                    lr0.key,
                                    lr0.val,
                                    Self::opt_as_map(lr0.right),
                                );
                                assert(Self::opt_as_map(Option::Some(lr)) == Self::opt_as_map(
                                    Option::Some(l0),
                                ));
                                assert forall|x: K| #[trigger] Self::opt_as_map(
                                    Option::Some(l1),
                                ).dom().contains(x) implies x.le(lr0.key) && x != lr0.key by {
                                    if Self::opt_as_map(l0.left).dom().contains(x) {
                                        K::transitive(x, l0.key, lr0.key);
                                        if x == lr0.key {
                                            K::antisymmetric(l0.key, lr0.key);
                                        }
                                    } else if x == l0.key {
                                    } else {
                                        assert(Self::opt_as_map(lr0.left).dom().contains(x));
                                    }
                                }
                                assert forall|x: K| #[trigger] Self::opt_as_map(
                                    lr0.left,
                                ).dom().contains(x) implies l0.key.le(x) && x != l0.key by {
                                    assert(Self::opt_as_map(l0.right).dom().contains(x));
                                }
                                assert(Self::opt_ordered(Option::Some(lr)));
                                assert(Self::all_lt(
                                    Self::opt_as_map(Option::Some(lr)),
                                    orig.key,
                                ));
                                assert(Self::bh(Option::Some(lr)) == Self::bh(
                                    Option::Some(l0),
                                ));
                                assert(Self::bh_ok(Option::Some(lr)));
                            }
                            l = lr;
                        }
                        // final rotation: this node moves down to the right of
                        // its red left child, which is painted black
                        let ghost la = l;
                        let lr2 = l.right.take();
                        n.left = lr2;
                        n.color = Color::RED;
                        l.color = Color::BLACK;
                        let ghost n1 = n;
                        proof {
                            Self::lemma_unfold(la);
                            Self::lemma_unfold(n1);
                            assert(Self::opt_as_map(Option::Some(la)) == Self::opt_as_map(
                                orig.left,
                            ));
                            assert(Self::opt_as_map(orig.left).dom().contains(la.key));
                            assert(la.key.le(orig.key) && la.key != orig.key);
                            if Self::opt_as_map(orig.right).dom().contains(la.key) {
                                K::antisymmetric(la.key, orig.key);
                                assert(false);
                            }
                            Self::lemma_node_map_assoc(
                                Self::opt_as_map(la.left),
                                la.key,
                                la.val,
                                Self::opt_as_map(la.right),
                                orig.key,
                                orig.val,
                                Self::opt_as_map(orig.right),
                            );
                            assert forall|x: K| #[trigger] Self::opt_as_map(
                                Option::Some(n1),
                            ).dom().contains(x) implies la.key.le(x) && x != la.key by {
                                if Self::opt_as_map(la.right).dom().contains(x) {
                                } else if x == orig.key {
                                } else {
                                    assert(Self::opt_as_map(orig.right).dom().contains(x));
                                    assert(la.key.le(orig.key));
                                    K::transitive(la.key, orig.key, x);
                                    if x == la.key {
                                        K::antisymmetric(la.key, orig.key);
                                    }
                                }
                            }
                            assert forall|x: K| #[trigger] Self::opt_as_map(
                                la.right,
                            ).dom().contains(x) implies x.le(orig.key) && x != orig.key by {
                                assert(Self::opt_as_map(Option::Some(la)).dom().contains(x));
                            }
                            assert(Self::opt_ordered(Option::Some(n1)));
                        }
                        l.right = Option::Some(n);
                        proof {
                            Self::lemma_unfold(l);
                            assert(Self::opt_as_map(Option::Some(l)) == Self::opt_as_map(
                                Option::Some(orig),
                            ));
                            assert(Self::opt_ordered(Option::Some(l)));
                        }
                        l
                    }
                } else {
                    n.left = Option::Some(l);
                    proof {
                        assert(n == orig);
                    }
                    n
                }
            },
        }
    }

    /// Mirror image of `balance_left`: repairs the one possible red-red edge
    /// in the right child of a black node.
    fn balance_right(mut n: Box<RbNode<K, V>>) -> (res: Box<RbNode<K, V>>)
        requires
            n.color == Color::BLACK,
            Self::almost_no_red_red(n.right),
            Self::no_red_red(n.left),
            Self::bh_ok(n.left),
            Self::bh_ok(n.right),
            Self::bh(n.left) == Self::bh(n.right),
            Self::opt_ordered(n.left),
            Self::opt_ordered(n.right),
            Self::all_lt(Self::opt_as_map(n.left), n.key),
            Self::all_gt(Self::opt_as_map(n.right), n.key),
        ensures
            Self::opt_as_map(Option::Some(res)) == Self::opt_as_map(Option::Some(n)),
            Self::opt_ordered(Option::Some(res)),
            Self::no_red_red(Option::Some(res)),
            Self::bh_ok(Option::Some(res)),
            Self::bh(Option::Some(res)) == Self::bh(Option::Some(n)),
    {
        let ghost orig = n;
        proof {
            Self::lemma_unfold(orig);
        }
        let r_taken = n.right.take();
        match r_taken {
            Option::None => {
                proof {
                    assert(n == orig);
                }
                n
            },
            Option::Some(mut r) => {
                if r.color == Color::RED && (Self::is_red(&r.left) || Self::is_red(&r.right)) {
                    if Self::is_red(&n.left) {
                        // the uncle is red: recolor parent and uncle black, this node red
                        let ghost r0 = r;
                        r.color = Color::BLACK;
                        let mut u = n.left.take().unwrap();
                        let ghost u0 = u;
                        u.color = Color::BLACK;
                        proof {
                            Self::lemma_color_blind(r, r0);
                            Self::lemma_color_blind(u, u0);
                        }
                        n.left = Option::Some(u);
                        n.color = Color::RED;
                        n.right = Option::Some(r);
                        proof {
                            Self::lemma_unfold(n);
                            assert(Self::opt_as_map(Option::Some(n)) == Self::opt_as_map(
                                Option::Some(orig),
                            ));
                            assert(Self::opt_ordered(Option::Some(n)));
                            assert(Self::bh(Option::Some(n)) == Self::bh(Option::Some(orig)));
                        }
                        n
                    } else {
                        // the uncle is black; an inner red grandchild is first
                        // rotated outward, then one rotation at this node ends
                        // the repair
                        if !Self::is_red(&r.right) {
                            let ghost r0 = r;
                            let mut rl = r.left.take().unwrap();
                            let ghost rl0 = rl;
                            let rlr = rl.right.take();
                            r.left = rlr;
                            let ghost r1 = r;
                            rl.right = Option::Some(r);
                            proof {
                                Self::lemma_unfold(r0);
                                Self::lemma_unfold(rl0);
                                Self::lemma_unfold(r1);
                                Self::lemma_unfold(rl);
                                assert(Self::opt_as_map(r0.left).dom().contains(rl0.key));
                                assert(rl0.key.le(r0.key) && rl0.key != r0.key);
                                if Self::opt_as_map(r0.right).dom().contains(rl0.key) {
                                    K::antisymmetric(rl0.key, r0.key);
                                    assert(false);
                                }
                                Self::lemma_node_map_assoc(
                                    Self::opt_as_map(rl0.left),
                                    rl0.key,
                                    rl0.val,
                                    Self::opt_as_map(rl0.right),
                                    r0.key,
                                    r0.val,
                                    Self::opt_as_map(r0.right),
                                );
                                assert(Self::opt_as_map(Option::Some(rl)) == Self::opt_as_map(
                                    Option::Some(r0),
                                ));
                                assert forall|x: K| #[trigger] Self::opt_as_map(
                                    Option::Some(r1),
                                ).dom().contains(x) implies rl0.key.le(x) && x != rl0.key by {
                                    if Self::opt_as_map(r0.right).dom().contains(x) {
                                        K::transitive(rl0.key, r0.key, x);
                                        if x == rl0.key {
                                            K::antisymmetric(rl0.key, r0.key);
                                        }
                                    } else if x == r0.key {
                                    } else {
                                        assert(Self::opt_as_map(rl0.right).dom().contains(x));
                                    }
                                }
                                assert forall|x: K| #[trigger] Self::opt_as_map(
                                    rl0.right,
                                ).dom().contains(x) implies x.le(r0.key) && x != r0.key by {
                                    assert(Self::opt_as_map(r0.left).dom().contains(x));
                                }
                                assert(Self::opt_ordered(Option::Some(rl)));
                                assert(Self::all_gt(
                                    Self::opt_as_map(Option::Some(rl)),
                                    orig.key,
                                ));
                                assert(Self::bh(Option::Some(rl)) == Self::bh(
                                    Option::Some(r0),
                                ));
                                assert(Self::bh_ok(Option::Some(rl)));
                            }
                            r = rl;
                        }
                        // final rotation: this node moves down to the left of
                        // its red right child, which is painted black
                        let ghost ra = r;
                        let rl2 = r.left.take();
                        n.right = rl2;
                        n.color = Color::RED;
                        r.color = Color::BLACK;
                        let ghost n1 = n;
                        proof {
                            Self::lemma_unfold(ra);
                            Self::lemma_unfold(n1);
                            assert(Self::opt_as_map(Option::Some(ra)) == Self::opt_as_map(
                                orig.right,
                            ));
                            assert(Self::opt_as_map(orig.right).dom().contains(ra.key));
                            assert(orig.key.le(ra.key) && ra.key != orig.key);
                            if Self::opt_as_map(orig.left).dom().contains(ra.key) {
                                K::antisymmetric(ra.key, orig.key);
                                assert(false);
                            }
                            if Self::opt_as_map(ra.right).dom().contains(orig.key) {
                                assert(Self::opt_as_map(Option::Some(ra)).dom().contains(
                                    orig.key,
                                ));
                                Self::lemma_bound_not_in(
                                    Self::opt_as_map(Option::Some(ra)),
                                    orig.key,
                                );
                            }
                            Self::lemma_node_map_assoc(
                                Self::opt_as_map(orig.left),
                                orig.key,
                                orig.val,
                                Self::opt_as_map(ra.left),
                                ra.key,
                                ra.val,
                                Self::opt_as_map(ra.right),
                            );
                            assert forall|x: K| #[trigger] Self::opt_as_map(
                                Option::Some(n1),
                            ).dom().contains(x) implies x.le(ra.key) && x != ra.key by {
                                if Self::opt_as_map(ra.left).dom().contains(x) {
                                } else if x == orig.key {
                                } else {
                                    assert(Self::opt_as_map(orig.left).dom().contains(x));
                                    assert(orig.key.le(ra.key));
                                    K::transitive(x, orig.key, ra.key);
                                    if x == ra.key {
                                        K::antisymmetric(orig.key, ra.key);
                                    }
                                }
                            }
                            assert forall|x: K| #[trigger] Self::opt_as_map(
                                ra.left,
                            ).dom().contains(x) implies orig.key.le(x) && x != orig.key by {
                                assert(Self::opt_as_map(Option::Some(ra)).dom().contains(x));
                            }
                            assert(Self::opt_ordered(Option::Some(n1)));
                        }
                        r.left = Option::Some(n);
                        proof {
                            Self::lemma_unfold(r);
                            assert(Self::opt_as_map(Option::Some(r)) == Self::opt_as_map(
                                Option::Some(orig),
                            ));
                            assert(Self::opt_ordered(Option::Some(r)));
                        }
                        r
                    }
                } else {
                    n.right = Option::Some(r);
                    proof {
                        assert(n == orig);
                    }
                    n
                }
            },
        }
    }

    /// Recursive insertion: attaches a red node at the leaf found by binary
    /// search (or overwrites the value of an equal key) and repairs the
    /// red-black rules on the way back up at every black node.
    fn ins(link: Option<Box<RbNode<K, V>>>, key: K, val: V) -> (res: Option<Box<RbNode<K, V>>>)
        requires
            Self::opt_wf(link),
        ensures
            res is Some,
            Self::opt_ordered(res),
            Self::opt_as_map(res) == Self::opt_as_map(link).insert(key, val),
            Self::bh(res) == Self::bh(link),
            Self::bh_ok(res),
            Self::almost_no_red_red(res),
            Self::opt_color(link) == Color::BLACK ==> Self::no_red_red(res),
        decreases link,
    {
        match link {
            Option::None => {
                let node = Box::new(
                    RbNode {
                        key,
                        val,
                        color: Color::RED,
                        left: Option::None,
                        right: Option::None,
                    },
                );
                proof {
                    assert(Self::opt_as_map(Option::Some(node)) =~= Self::opt_as_map(
                        Option::None,
                    ).insert(key, val));
                }
                Option::Some(node)
            },
            Option::Some(mut n) => {
                let ghost orig = n;
                match key.compare(&n.key) {
                    Cmp::Equal => {
                        n.val = val;
                        proof {
                            Self::lemma_bound_not_in(Self::opt_as_map(n.left), key);
                            Self::lemma_bound_not_in(Self::opt_as_map(n.right), key);
                            assert(Self::opt_as_map(Option::Some(n)) =~= Self::opt_as_map(
                                Option::Some(orig),
                            ).insert(key, val));
                        }
                        Option::Some(n)
                    },
                    Cmp::Less => {
                        let l = n.left.take();
                        let l2 = Self::ins(l, key, val);
                        n.left = l2;
                        proof {
                            Self::lemma_all_lt_insert(
                                Self::opt_as_map(orig.left),
                                key,
                                val,
                                orig.key,
                            );
                            if Self::opt_as_map(orig.right).dom().contains(key) {
                                K::antisymmetric(orig.key, key);
                            }
                            assert(Self::opt_as_map(Option::Some(n)) =~= Self::opt_as_map(
                                Option::Some(orig),
                            ).insert(key, val));
                        }
                        if n.color == Color::BLACK {
                            let res = Self::balance_left(n);
                            Option::Some(res)
                        } else {
                            Option::Some(n)
                        }
                    },
                    Cmp::Greater => {
                        let r = n.right.take();
                        let r2 = Self::ins(r, key, val);
                        n.right = r2;
                        proof {
                            Self::lemma_all_gt_insert(
                                Self::opt_as_map(orig.right),
                                key,
                                val,
                                orig.key,
                            );
                            if Self::opt_as_map(orig.left).dom().contains(key) {
                                K::antisymmetric(orig.key, key);
                            }
                            if key.le(orig.key) {
                                K::antisymmetric(orig.key, key);
                            }
                            assert(Self::opt_as_map(Option::Some(n)) =~= Self::opt_as_map(
                                Option::Some(orig),
                            ).insert(key, val));
                        }
                        if n.color == Color::BLACK {
                            let res = Self::balance_right(n);
                            Option::Some(res)
                        } else {
                            Option::Some(n)
                        }
                    },
                }
            },
        }
    }

    /// Handles a black-height deficit in the left child when the sibling is
    /// black: the classical deletion fix-up cases of recoloring (both nephews
    /// black), and of one or two rotations (a red nephew). Returns the
    /// rebuilt subtree and whether the deficit moved up.
    fn bal_left_black(mut n: Box<RbNode<K, V>>) -> (res: (Box<RbNode<K, V>>, bool))
        requires
            Self::opt_ordered(n.left),
            Self::opt_ordered(n.right),
            Self::all_lt(Self::opt_as_map(n.left), n.key),
            Self::all_gt(Self::opt_as_map(n.right), n.key),
            Self::no_red_red(n.left),
            Self::no_red_red(n.right),
            Self::bh_ok(n.left),
            Self::bh_ok(n.right),
            Self::bh(n.left) + 1 == Self::bh(n.right),
            Self::opt_color(n.left) == Color::BLACK,
            Self::opt_color(n.right) == Color::BLACK,
        ensures
            Self::opt_as_map(Option::Some(res.0)) == Self::opt_as_map(Option::Some(n)),
            Self::opt_ordered(Option::Some(res.0)),
            Self::no_red_red(Option::Some(res.0)),
            Self::bh_ok(Option::Some(res.0)),
            !res.1 ==> Self::bh(Option::Some(res.0)) == Self::bh(n.right) + if n.color
                == Color::BLACK {
                1nat
            } else {
                0nat
            },
            res.1 ==> Self::bh(Option::Some(res.0)) + 1 == Self::bh(n.right) + if n.color
                == Color::BLACK {
                1nat
            } else {
                0nat
            } && res.0.color == Color::BLACK,
            n.color == Color::RED ==> !res.1,
            res.0.color == Color::RED ==> n.color == Color::RED,
    {
        let ghost orig = n;
        proof {
            Self::lemma_unfold(orig);
        }
        let mut w = n.right.take().unwrap();
        proof {
            Self::lemma_unfold(w);
        }
        if !Self::is_red(&w.left) && !Self::is_red(&w.right) {
            // both nephews black: pull one black level out of the sibling;
            // a red parent absorbs the deficit, a black one passes it on
            let ghost w0 = w;
            w.color = Color::RED;
            proof {
                Self::lemma_color_blind(w, w0);
            }
            n.right = Option::Some(w);
            if n.color == Color::RED {
                n.color = Color::BLACK;
                proof {
                    Self::lemma_unfold(n);
                    assert(Self::opt_as_map(Option::Some(n)) == Self::opt_as_map(
                        Option::Some(orig),
                    ));
                    assert(Self::opt_ordered(Option::Some(n)));
                }
                (n, false)
            } else {
                proof {
                    Self::lemma_unfold(n);
                    assert(Self::opt_as_map(Option::Some(n)) == Self::opt_as_map(
                        Option::Some(orig),
                    ));
                    assert(Self::opt_ordered(Option::Some(n)));
                }
                (n, true)
            }
        } else {
            if !Self::is_red(&w.right) {
                // near nephew red, far nephew black: rotate the sibling so
                // the red nephew moves to the far side
                let ghost w0 = w;
                let mut wl = w.left.take().unwrap();
                let ghost wl0 = wl;
                let wlr = wl.right.take();
                w.left = wlr;
                w.color = Color::RED;
                wl.color = Color::BLACK;
                let ghost w1 = w;
                wl.right = Option::Some(w);
                proof {
                    Self::lemma_unfold(w0);
                    Self::lemma_unfold(wl0);
                    Self::lemma_unfold(w1);
                    Self::lemma_unfold(wl);
                    assert(Self::opt_as_map(w0.left).dom().contains(wl0.key));
                    assert(wl0.key.le(w0.key) && wl0.key != w0.key);
                    if Self::opt_as_map(w0.right).dom().contains(wl0.key) {
                        K::antisymmetric(wl0.key, w0.key);
                        assert(false);
                    }
                    Self::lemma_node_map_assoc(
                        Self::opt_as_map(wl0.left),
                        wl0.key,
                        wl0.val,
                        Self::opt_as_map(wl0.right),
                        w0.key,
                        w0.val,
                        Self::opt_as_map(w0.right),
                    );
                    assert(Self::opt_as_map(Option::Some(wl)) == Self::opt_as_map(
                        Option::Some(w0),
                    ));
                    assert forall|x: K| #[trigger] Self::opt_as_map(
                        Option::Some(w1),
                    ).dom().contains(x) implies wl0.key.le(x) && x != wl0.key by {
                        if Self::opt_as_map(w0.right).dom().contains(x) {
                            K::transitive(wl0.key, w0.key, x);
                            if x == wl0.key {
                                K::antisymmetric(wl0.key, w0.key);
                            }
                        } else if x == w0.key {
                        } else {
                            assert(Self::opt_as_map(wl0.right).dom().contains(x));
                        }
                    }
                    assert forall|x: K| #[trigger] Self::opt_as_map(
                        wl0.right,
                    ).dom().contains(x) implies x.le(w0.key) && x != w0.key by {
                        assert(Self::opt_as_map(w0.left).dom().contains(x));
                    }
                    assert(Self::opt_ordered(Option::Some(wl)));
                    assert forall|x: K| #[trigger] Self::opt_as_map(
                        Option::Some(wl),
                    ).dom().contains(x) implies orig.key.le(x) && x != orig.key by {
                        assert(Self::opt_as_map(orig.right).dom().contains(x));
                    }
                    assert(Self::bh(Option::Some(wl)) == Self::bh(Option::Some(w0)));
                    assert(Self::bh_ok(Option::Some(wl)));
                }
                w = wl;
            }
            // far nephew red: one rotation toward the deficit ends the
            // repair; the sibling takes this node's color
            let ghost wa = w;
            proof {
                Self::lemma_unfold(wa);
                assert(Self::opt_as_map(Option::Some(wa)) == Self::opt_as_map(orig.right));
            }
            let mut wr = w.right.take().unwrap();
            let ghost wr0 = wr;
            wr.color = Color::BLACK;
            proof {
                Self::lemma_color_blind(wr, wr0);
            }
            let wl2 = w.left.take();
            w.color = n.color;
            n.color = Color::BLACK;
            n.right = wl2;
            let ghost n1 = n;
            proof {
                Self::lemma_unfold(n1);
                assert(Self::opt_as_map(orig.right).dom().contains(wa.key));
                assert(orig.key.le(wa.key) && wa.key != orig.key);
                if Self::opt_as_map(orig.left).dom().contains(wa.key) {
                    K::antisymmetric(wa.key, orig.key);
                    assert(false);
                }
                if Self::opt_as_map(wa.right).dom().contains(orig.key) {
                    assert(Self::opt_as_map(Option::Some(wa)).dom().contains(orig.key));
                    Self::lemma_bound_not_in(Self::opt_as_map(Option::Some(wa)), orig.key);
                }
                Self::lemma_node_map_assoc(
                    Self::opt_as_map(orig.left),
                    orig.key,
                    orig.val,
                    Self::opt_as_map(wa.left),
                    wa.key,
                    wa.val,
                    Self::opt_as_map(wa.right),
                );
                assert forall|x: K| #[trigger] Self::opt_as_map(
                    Option::Some(n1),
                ).dom().contains(x) implies x.le(wa.key) && x != wa.key by {
                    if Self::opt_as_map(wa.left).dom().contains(x) {
                    } else if x == orig.key {
                    } else {
                        assert(Self::opt_as_map(orig.left).dom().contains(x));
                        assert(orig.key.le(wa.key));
                        K::transitive(x, orig.key, wa.key);
                        if x == wa.key {
                            K::antisymmetric(orig.key, wa.key);
                        }
                    }
                }
                assert forall|x: K| #[trigger] Self::opt_as_map(
                    wa.left,
                ).dom().contains(x) implies orig.key.le(x) && x != orig.key by {
                    assert(Self::opt_as_map(Option::Some(wa)).dom().contains(x));
                }
                assert(Self::opt_ordered(Option::Some(n1)));
            }
            w.left = Option::Some(n);
            w.right = Option::Some(wr);
            proof {
                Self::lemma_unfold(w);
                assert(Self::opt_as_map(Option::Some(w)) == Self::opt_as_map(
                    Option::Some(orig),
                ));
                assert(Self::opt_ordered(Option::Some(w)));
            }
            (w, false)
        }
    }

    /// Handles a black-height deficit in the left child. A red sibling is
    /// first rotated away (the classical first case), after which the
    /// black-sibling cases apply and are guaranteed to absorb the deficit.
    fn bal_left_del(mut n: Box<RbNode<K, V>>) -> (res: (Box<RbNode<K, V>>, bool))
        requires
            Self::opt_ordered(n.left),
            Self::opt_ordered(n.right),
            Self::all_lt(Self::opt_as_map(n.left), n.key),
            Self::all_gt(Self::opt_as_map(n.right), n.key),
            Self::no_red_red(n.left),
            Self::no_red_red(n.right),
            Self::bh_ok(n.left),
            Self::bh_ok(n.right),
            Self::bh(n.left) + 1 == Self::bh(n.right),
            Self::opt_color(n.left) == Color::BLACK,
            n.color == Color::RED ==> Self::opt_color(n.right) == Color::BLACK,
        ensures
            Self::opt_as_map(Option::Some(res.0)) == Self::opt_as_map(Option::Some(n)),
            Self::opt_ordered(Option::Some(res.0)),
            Self::no_red_red(Option::Some(res.0)),
            Self::bh_ok(Option::Some(res.0)),
            !res.1 ==> Self::bh(Option::Some(res.0)) == Self::bh(n.right) + if n.color
                == Color::BLACK {
                1nat
            } else {
                0nat
            },
            res.1 ==> Self::bh(Option::Some(res.0)) + 1 == Self::bh(n.right) + if n.color
                == Color::BLACK {
                1nat
            } else {
                0nat
            } && res.0.color == Color::BLACK,
            n.color == Color::RED ==> !res.1,
            res.0.color == Color::RED ==> n.color == Color::RED,
    {
        let ghost orig = n;
        proof {
            Self::lemma_unfold(orig);
        }
        if Self::is_red(&n.right) {
            // red sibling: rotate it above this node; the new sibling is
            // black, and the inner repair below never passes the deficit on
            let mut w = n.right.take().unwrap();
            let ghost w0 = w;
            proof {
                Self::lemma_unfold(w0);
            }
            let wl = w.left.take();
            n.right = wl;
            n.color = Color::RED;
            let ghost n1 = n;
            proof {
                Self::lemma_unfold(n1);
                assert(Self::opt_as_map(orig.right).dom().contains(w0.key));
                assert(orig.key.le(w0.key) && w0.key != orig.key);
                if Self::opt_as_map(orig.left).dom().contains(w0.key) {
                    K::antisymmetric(w0.key, orig.key);
                    assert(false);
                }
                if Self::opt_as_map(w0.right).dom().contains(orig.key) {
                    assert(Self::opt_as_map(Option::Some(w0)).dom().contains(orig.key));
                    Self::lemma_bound_not_in(Self::opt_as_map(Option::Some(w0)), orig.key);
                }
                assert forall|x: K| #[trigger] Self::opt_as_map(
                    Option::Some(n1),
                ).dom().contains(x) implies x.le(w0.key) && x != w0.key by {
                    if Self::opt_as_map(w0.left).dom().contains(x) {
                    } else if x == orig.key {
                    } else {
                        assert(Self::opt_as_map(orig.left).dom().contains(x));
                        assert(orig.key.le(w0.key));
                        K::transitive(x, orig.key, w0.key);
                        if x == w0.key {
                            K::antisymmetric(orig.key, w0.key);
                        }
                    }
                }
                assert forall|x: K| #[trigger] Self::opt_as_map(
                    w0.left,
                ).dom().contains(x) implies orig.key.le(x) && x != orig.key by {
                    assert(Self::opt_as_map(Option::Some(w0)).dom().contains(x));
                }
                assert(Self::opt_ordered(Option::Some(n1)));
            }
            let inner = Self::bal_left_black(n);
            let fixed = inner.0;
            w.left = Option::Some(fixed);
            w.color = Color::BLACK;
            proof {
                Self::lemma_unfold(w);
                Self::lemma_node_map_assoc(
                    Self::opt_as_map(orig.left),
                    orig.key,
                    orig.val,
                    Self::opt_as_map(w0.left),
                    w0.key,
                    w0.val,
                    Self::opt_as_map(w0.right),
                );
                assert(Self::opt_as_map(Option::Some(w)) == Self::opt_as_map(
                    Option::Some(orig),
                ));
                assert forall|x: K| #[trigger] Self::opt_as_map(
                    Option::Some(fixed),
                ).dom().contains(x) implies x.le(w0.key) && x != w0.key by {
                    assert(Self::opt_as_map(Option::Some(n1)).dom().contains(x));
                }
                assert(Self::opt_ordered(Option::Some(w)));
            }
            (w, false)
        } else {
            Self::bal_left_black(n)
        }
    }

    /// Mirror of `bal_left_black`: a black-height deficit in the right child
    /// with a black sibling.
    fn bal_right_black(mut n: Box<RbNode<K, V>>) -> (res: (Box<RbNode<K, V>>, bool))
        requires
            Self::opt_ordered(n.left),
            Self::opt_ordered(n.right),
            Self::all_lt(Self::opt_as_map(n.left), n.key),
            Self::all_gt(Self::opt_as_map(n.right), n.key),
            Self::no_red_red(n.left),
            Self::no_red_red(n.right),
            Self::bh_ok(n.left),
            Self::bh_ok(n.right),
            Self::bh(n.right) + 1 == Self::bh(n.left),
            Self::opt_color(n.right) == Color::BLACK,
            Self::opt_color(n.left) == Color::BLACK,
        ensures
            Self::opt_as_map(Option::Some(res.0)) == Self::opt_as_map(Option::Some(n)),
            Self::opt_ordered(Option::Some(res.0)),
            Self::no_red_red(Option::Some(res.0)),
            Self::bh_ok(Option::Some(res.0)),
            !res.1 ==> Self::bh(Option::Some(res.0)) == Self::bh(n.left) + if n.color
                == Color::BLACK {
                1nat
            } else {
                0nat
            },
            res.1 ==> Self::bh(Option::Some(res.0)) + 1 == Self::bh(n.left) + if n.color
                == Color::BLACK {
                1nat
            } else {
                0nat
            } && res.0.color == Color::BLACK,
            n.color == Color::RED ==> !res.1,
            res.0.color == Color::RED ==> n.color == Color::RED,
    {
        let ghost orig = n;
        proof {
            Self::lemma_unfold(orig);
        }
        let mut w = n.left.take().unwrap();
        proof {
            Self::lemma_unfold(w);
        }
        if !Self::is_red(&w.left) && !Self::is_red(&w.right) {
            // both nephews black: pull one black level out of the sibling;
            // a red parent absorbs the deficit, a black one passes it on
            let ghost w0 = w;
            w.color = Color::RED;
            proof {
                Self::lemma_color_blind(w, w0);
            }
            n.left = Option::Some(w);
            if n.color == Color::RED {
                n.color = Color::BLACK;
                proof {
                    Self::lemma_unfold(n);
                    assert(Self::opt_as_map(Option::Some(n)) == Self::opt_as_map(
                        Option::Some(orig),
                    ));
                    assert(Self::opt_ordered(Option::Some(n)));
                }
                (n, false)
            } else {
                proof {
                    Self::lemma_unfold(n);
                    assert(Self::opt_as_map(Option::Some(n)) == Self::opt_as_map(
                        Option::Some(orig),
                    ));
                    assert(Self::opt_ordered(Option::Some(n)));
                }
                (n, true)
            }
        } else {
            if !Self::is_red(&w.left) {
                // near nephew red, far nephew black: rotate the sibling so
                // the red nephew moves to the far side
                let ghost w0 = w;
                let mut wr = w.right.take().unwrap();
                let ghost wr0 = wr;
                let wrl = wr.left.take();
                w.right = wrl;
                w.color = Color::RED;
                wr.color = Color::BLACK;
                let ghost w1 = w;
                wr.left = Option::Some(w);
                proof {
                    Self::lemma_unfold(w0);
                    Self::lemma_unfold(wr0);
                    Self::lemma_unfold(w1);
                    Self::lemma_unfold(wr);
                    assert(Self::opt_as_map(w0.right).dom().contains(wr0.key));
                    assert(w0.key.le(wr0.key) && w0.key != wr0.key);
                    if Self::opt_as_map(w0.left).dom().contains(wr0.key) {
                        K::antisymmetric(wr0.key, w0.key);
                        assert(false);
                    }
                    if Self::opt_as_map(wr0.right).dom().contains(w0.key) {
                        assert(Self::opt_as_map(Option::Some(wr0)).dom().contains(w0.key));
                        Self::lemma_bound_not_in(
                            Self::opt_as_map(Option::Some(wr0)),
                            w0.key,
                        );
                    }
                    Self::lemma_node_map_assoc(
                        Self::opt_as_map(w0.left),
                        w0.key,
                        w0.val,
                        Self::opt_as_map(wr0.left),
                        wr0.key,
                        wr0.val,
                        Self::opt_as_map(wr0.right),
                    );
                    assert(Self::opt_as_map(Option::Some(wr)) == Self::opt_as_map(
                        Option::Some(w0),
                    ));
                    assert forall|x: K| #[trigger] Self::opt_as_map(
                        Option::Some(w1),
                    ).dom().contains(x) implies x.le(wr0.key) && x != wr0.key by {
                        if Self::opt_as_map(w0.left).dom().contains(x) {
                            K::transitive(x, w0.key, wr0.key);
                            if x == wr0.key {
                                K::antisymmetric(w0.key, wr0.key);
                            }
                        } else if x == w0.key {
                        } else {
                            assert(Self::opt_as_map(wr0.left).dom().contains(x));
                        }
                    }
                    assert forall|x: K| #[trigger] Self::opt_as_map(
                        wr0.left,
                    ).dom().contains(x) implies w0.key.le(x) && x != w0.key by {
                        assert(Self::opt_as_map(w0.right).dom().contains(x));
                    }
                    assert(Self::opt_ordered(Option::Some(wr)));
                    assert forall|x: K| #[trigger] Self::opt_as_map(
                        Option::Some(wr),
                    ).dom().contains(x) implies x.le(orig.key) && x != orig.key by {
                        assert(Self::opt_as_map(orig.left).dom().contains(x));
                    }
                    assert(Self::bh(Option::Some(wr)) == Self::bh(Option::Some(w0)));
                    assert(Self::bh_ok(Option::Some(wr)));
                }
                w = wr;
            }
            // far nephew red: one rotation toward the deficit ends the
            // repair; the sibling takes this node's color
            let ghost wa = w;
            proof {
                Self::lemma_unfold(wa);
                assert(Self::opt_as_map(Option::Some(wa)) == Self::opt_as_map(orig.left));
            }
            let mut wl = w.left.take().unwrap();
            let ghost wl0 = wl;
            wl.color = Color::BLACK;
            proof {
                Self::lemma_color_blind(wl, wl0);
            }
            let wr2 = w.right.take();
            w.color = n.color;
            n.color = Color::BLACK;
            n.left = wr2;
            let ghost n1 = n;
            proof {
                Self::lemma_unfold(n1);
                assert(Self::opt_as_map(orig.left).dom().contains(wa.key));
                assert(wa.key.le(orig.key) && wa.key != orig.key);
                if Self::opt_as_map(orig.right).dom().contains(wa.key) {
                    K::antisymmetric(wa.key, orig.key);
                    assert(false);
                }
                if Self::opt_as_map(wa.left).dom().contains(orig.key) {
                    assert(Self::opt_as_map(Option::Some(wa)).dom().contains(orig.key));
                    Self::lemma_bound_not_in(Self::opt_as_map(Option::Some(wa)), orig.key);
                }
                Self::lemma_node_map_assoc(
                    Self::opt_as_map(wa.left),
                    wa.key,
                    wa.val,
                    Self::opt_as_map(wa.right),
                    orig.key,
                    orig.val,
                    Self::opt_as_map(orig.right),
                );
                assert forall|x: K| #[trigger] Self::opt_as_map(
                    Option::Some(n1),
                ).dom().contains(x) implies wa.key.le(x) && x != wa.key by {
                    if Self::opt_as_map(wa.right).dom().contains(x) {
                    } else if x == orig.key {
                    } else {
                        assert(Self::opt_as_map(orig.right).dom().contains(x));
                        assert(wa.key.le(orig.key));
                        K::transitive(wa.key, orig.key, x);
                        if x == wa.key {
                            K::antisymmetric(wa.key, orig.key);
                        }
                    }
                }
                assert forall|x: K| #[trigger] Self::opt_as_map(
                    wa.right,
                ).dom().contains(x) implies x.le(orig.key) && x != orig.key by {
                    assert(Self::opt_as_map(Option::Some(wa)).dom().contains(x));
                }
                assert(Self::opt_ordered(Option::Some(n1)));
            }
            w.right = Option::Some(n);
            w.left = Option::Some(wl);
            proof {
                Self::lemma_unfold(w);
                assert(Self::opt_as_map(Option::Some(w)) == Self::opt_as_map(
                    Option::Some(orig),
                ));
                assert(Self::opt_ordered(Option::Some(w)));
            }
            (w, false)
        }
    }

    /// Mirror of `bal_left_del`: a black-height deficit in the right child.
    fn bal_right_del(mut n: Box<RbNode<K, V>>) -> (res: (Box<RbNode<K, V>>, bool))
        requires
            Self::opt_ordered(n.left),
            Self::opt_ordered(n.right),
            Self::all_lt(Self::opt_as_map(n.left), n.key),
            Self::all_gt(Self::opt_as_map(n.right), n.key),
            Self::no_red_red(n.left),
            Self::no_red_red(n.right),
            Self::bh_ok(n.left),
            Self::bh_ok(n.right),
            Self::bh(n.right) + 1 == Self::bh(n.left),
            Self::opt_color(n.right) == Color::BLACK,
            n.color == Color::RED ==> Self::opt_color(n.left) == Color::BLACK,
        ensures
            Self::opt_as_map(Option::Some(res.0)) == Self::opt_as_map(Option::Some(n)),
            Self::opt_ordered(Option::Some(res.0)),
            Self::no_red_red(Option::Some(res.0)),
            Self::bh_ok(Option::Some(res.0)),
            !res.1 ==> Self::bh(Option::Some(res.0)) == Self::bh(n.left) + if n.color
                == Color::BLACK {
                1nat
            } else {
                0nat
            },
            res.1 ==> Self::bh(Option::Some(res.0)) + 1 == Self::bh(n.left) + if n.color
                == Color::BLACK {
                1nat
            } else {
                0nat
            } && res.0.color == Color::BLACK,
            n.color == Color::RED ==> !res.1,
            res.0.color == Color::RED ==> n.color == Color::RED,
    {
        let ghost orig = n;
        proof {
            Self::lemma_unfold(orig);
        }
        if Self::is_red(&n.left) {
            // red sibling: rotate it above this node; the new sibling is
            // black, and the inner repair below never passes the deficit on
            let mut w = n.left.take().unwrap();
            let ghost w0 = w;
            proof {
                Self::lemma_unfold(w0);
            }
            let wr = w.right.take();
            n.left = wr;
            n.color = Color::RED;
            let ghost n1 = n;
            proof {
                Self::lemma_unfold(n1);
                assert(Self::opt_as_map(orig.left).dom().contains(w0.key));
                assert(w0.key.le(orig.key) && w0.key != orig.key);
                if Self::opt_as_map(orig.right).dom().contains(w0.key) {
                    K::antisymmetric(w0.key, orig.key);
                    assert(false);
                }
                if Self::opt_as_map(w0.left).dom().contains(orig.key) {
                    assert(Self::opt_as_map(Option::Some(w0)).dom().contains(orig.key));
                    Self::lemma_bound_not_in(Self::opt_as_map(Option::Some(w0)), orig.key);
                }
                assert forall|x: K| #[trigger] Self::opt_as_map(
                    Option::Some(n1),
                ).dom().contains(x) implies w0.key.le(x) && x != w0.key by {
                    if Self::opt_as_map(w0.right).dom().contains(x) {
                    } else if x == orig.key {
                    } else {
                        assert(Self::opt_as_map(orig.right).dom().contains(x));
                        assert(w0.key.le(orig.key));
                        K::transitive(w0.key, orig.key, x);
                        if x == w0.key {
                            K::antisymmetric(w0.key, orig.key);
                        }
                    }
                }
                assert forall|x: K| #[trigger] Self::opt_as_map(
                    w0.right,
                ).dom().contains(x) implies x.le(orig.key) && x != orig.key by {
                    assert(Self::opt_as_map(Option::Some(w0)).dom().contains(x));
                }
                assert(Self::opt_ordered(Option::Some(n1)));
            }
            let inner = Self::bal_right_black(n);
            let fixed = inner.0;
            w.right = Option::Some(fixed);
            w.color = Color::BLACK;
            proof {
                Self::lemma_unfold(w);
                Self::lemma_node_map_assoc(
                    Self::opt_as_map(w0.left),
                    w0.key,
                    w0.val,
                    Self::opt_as_map(w0.right),
                    orig.key,
                    orig.val,
                    Self::opt_as_map(orig.right),
                );
                assert(Self::opt_as_map(Option::Some(w)) == Self::opt_as_map(
                    Option::Some(orig),
                ));
                assert forall|x: K| #[trigger] Self::opt_as_map(
                    Option::Some(fixed),
                ).dom().contains(x) implies w0.key.le(x) && x != w0.key by {
                    assert(Self::opt_as_map(Option::Some(n1)).dom().contains(x));
                }
                assert(Self::opt_ordered(Option::Some(w)));
            }
            (w, false)
        } else {
            Self::bal_right_black(n)
        }
    }

    /// Removes the smallest key of a non-empty branch, reporting the removed
    /// pair and whether the branch lost one level of black height.
    fn del_min(link: Option<Box<RbNode<K, V>>>) -> (res: (
        Option<Box<RbNode<K, V>>>,
        K,
        V,
        bool,
    ))
        requires
            link is Some,
            Self::opt_ordered(link),
            Self::no_red_red(link),
            Self::bh_ok(link),
        ensures
            Self::opt_ordered(res.0),
            Self::no_red_red(res.0),
            Self::bh_ok(res.0),
            Self::opt_as_map(link).dom().contains(res.1),
            res.2 == Self::opt_as_map(link)[res.1],
            Self::opt_as_map(res.0) == Self::opt_as_map(link).remove(res.1),
            Self::all_gt(Self::opt_as_map(res.0), res.1),
            !res.3 ==> Self::bh(res.0) == Self::bh(link),
            res.3 ==> Self::bh(res.0) + 1 == Self::bh(link) && Self::opt_color(res.0)
                == Color::BLACK,
            Self::opt_color(link) == Color::RED ==> !res.3,
            Self::opt_color(res.0) == Color::RED ==> Self::opt_color(link) == Color::RED,
        decreases link,
    {
        let mut n = match link {
            Option::Some(b) => b,
            Option::None => {
                proof {
                    assert(false);
                }
                unreached()
            },
        };
        let ghost orig = n;
        proof {
            Self::lemma_unfold(orig);
        }
        if n.left.is_none() {
            // this node holds the minimum; splice in its right branch
            proof {
                Self::lemma_bound_not_in(Self::opt_as_map(orig.right), orig.key);
                assert(Self::opt_as_map(Option::Some(orig)).remove(orig.key)
                    =~= Self::opt_as_map(orig.right));
            }
            match n.right.take() {
                Option::None => {
                    proof {
                        assert(Self::opt_as_map(Option::None::<Box<RbNode<K, V>>>).dom()
                            =~= Set::<K>::empty());
                    }
                    if n.color == Color::RED {
                        (Option::None, n.key, n.val, false)
                    } else {
                        (Option::None, n.key, n.val, true)
                    }
                },
                Option::Some(mut r) => {
                    // a lone child under the minimum must be a red leaf;
                    // painting it black keeps the black height intact
                    proof {
                        Self::lemma_unfold(r);
                        assert(r.color == Color::RED);
                    }
                    let ghost r0 = r;
                    r.color = Color::BLACK;
                    proof {
                        Self::lemma_color_blind(r, r0);
                        Self::lemma_unfold(r);
                        assert forall|x: K| #[trigger] Self::opt_as_map(
                            Option::Some(r),
                        ).dom().contains(x) implies orig.key.le(x) && x != orig.key by {
                            assert(Self::opt_as_map(orig.right).dom().contains(x));
                        }
                    }
                    (Option::Some(r), n.key, n.val, false)
                },
            }
        } else {
            let l = n.left.take();
            let ghost l0 = l;
            let (l2, mk, mv, d) = Self::del_min(l);
            n.left = l2;
            let ghost n1 = n;
            proof {
                Self::lemma_unfold(n1);
                assert(Self::opt_as_map(l0).dom().contains(mk));
                assert(mk.le(orig.key) && mk != orig.key);
                if Self::opt_as_map(orig.right).dom().contains(mk) {
                    K::antisymmetric(mk, orig.key);
                    assert(false);
                }
                assert(Self::opt_as_map(Option::Some(n1)) =~= Self::opt_as_map(
                    Option::Some(orig),
                ).remove(mk));
                assert forall|x: K| #[trigger] Self::opt_as_map(
                    Option::Some(n1),
                ).dom().contains(x) implies mk.le(x) && x != mk by {
                    if Self::opt_as_map(l2).dom().contains(x) {
                    } else if x == orig.key {
                    } else {
                        assert(Self::opt_as_map(orig.right).dom().contains(x));
                        K::transitive(mk, orig.key, x);
                        if x == mk {
                            K::antisymmetric(mk, orig.key);
                        }
                    }
                }
                assert forall|x: K| #[trigger] Self::opt_as_map(l2).dom().contains(
                    x,
                ) implies x.le(orig.key) && x != orig.key by {
                    assert(Self::opt_as_map(l0).dom().contains(x));
                }
                assert(Self::opt_ordered(Option::Some(n1)));
            }
            if d {
                let (nb, d2) = Self::bal_left_del(n);
                proof {
                    assert(Self::all_gt(Self::opt_as_map(Option::Some(nb)), mk));
                }
                (Option::Some(nb), mk, mv, d2)
            } else {
                (Option::Some(n), mk, mv, false)
            }
        }
    }

    /// Removes `key` if present, reporting the removed pair, the rebuilt
    /// branch and whether it lost one level of black height; an absent key
    /// leaves the branch untouched.
    fn del(link: Option<Box<RbNode<K, V>>>, key: K) -> (res: (
        Option<Box<RbNode<K, V>>>,
        Option<(K, V)>,
        bool,
    ))
        requires
            Self::opt_ordered(link),
            Self::no_red_red(link),
            Self::bh_ok(link),
        ensures
            Self::opt_ordered(res.0),
            Self::no_red_red(res.0),
            Self::bh_ok(res.0),
            match res.1 {
                Option::Some(p) => p.0 == key && Self::opt_as_map(link).dom().contains(key)
                    && p.1 == Self::opt_as_map(link)[key] && Self::opt_as_map(res.0)
                    == Self::opt_as_map(link).remove(key),
                Option::None => !Self::opt_as_map(link).dom().contains(key) && res.0 == link
                    && !res.2,
            },
            Self::all_lt(Self::opt_as_map(link), key) ==> Self::all_lt(
                Self::opt_as_map(res.0),
                key,
            ),
            Self::all_gt(Self::opt_as_map(link), key) ==> Self::all_gt(
                Self::opt_as_map(res.0),
                key,
            ),
            !res.2 ==> Self::bh(res.0) == Self::bh(link),
            res.2 ==> Self::bh(res.0) + 1 == Self::bh(link) && Self::opt_color(res.0)
                == Color::BLACK,
            Self::opt_color(link) == Color::RED ==> !res.2,
            Self::opt_color(res.0) == Color::RED ==> Self::opt_color(link) == Color::RED,
        decreases link,
    {
        let mut n = match link {
            Option::Some(b) => b,
            Option::None => {
                return (Option::None, Option::None, false);
            },
        };
        let ghost orig = n;
        proof {
            Self::lemma_unfold(orig);
        }
        match key.compare(&n.key) {
            Cmp::Less => {
                proof {
                    if Self::opt_as_map(orig.right).dom().contains(key) {
                        K::antisymmetric(orig.key, key);
                    }
                }
                let l = n.left.take();
                let ghost l0 = l;
                let (l2, rem, d) = Self::del(l, key);
                n.left = l2;
                let ghost n1 = n;
                if rem.is_none() {
                    proof {
                        assert(n == orig);
                    }
                    return (Option::Some(n), rem, false);
                }
                proof {
                    Self::lemma_unfold(n1);
                    assert(Self::opt_as_map(Option::Some(n1)) =~= Self::opt_as_map(
                        Option::Some(orig),
                    ).remove(key));
                    assert forall|x: K| #[trigger] Self::opt_as_map(l2).dom().contains(
                        x,
                    ) implies x.le(orig.key) && x != orig.key by {
                        assert(Self::opt_as_map(l0).dom().contains(x));
                    }
                    assert(Self::opt_ordered(Option::Some(n1)));
                }
                if d {
                    let (nb, d2) = Self::bal_left_del(n);
                    (Option::Some(nb), rem, d2)
                } else {
                    (Option::Some(n), rem, false)
                }
            },
            Cmp::Greater => {
                proof {
                    if Self::opt_as_map(orig.left).dom().contains(key) {
                        K::antisymmetric(orig.key, key);
                    }
                    if key.le(orig.key) {
                        K::antisymmetric(orig.key, key);
                    }
                }
                let r = n.right.take();
                let ghost r0 = r;
                let (r2, rem, d) = Self::del(r, key);
                n.right = r2;
                let ghost n1 = n;
                if rem.is_none() {
                    proof {
                        assert(n == orig);
                    }
                    return (Option::Some(n), rem, false);
                }
                proof {
                    Self::lemma_unfold(n1);
                    assert(Self::opt_as_map(Option::Some(n1)) =~= Self::opt_as_map(
                        Option::Some(orig),
                    ).remove(key));
                    assert forall|x: K| #[trigger] Self::opt_as_map(r2).dom().contains(
                        x,
                    ) implies orig.key.le(x) && x != orig.key by {
                        assert(Self::opt_as_map(r0).dom().contains(x));
                    }
                    assert(Self::opt_ordered(Option::Some(n1)));
                }
                if d {
                    let (nb, d2) = Self::bal_right_del(n);
                    (Option::Some(nb), rem, d2)
                } else {
                    (Option::Some(n), rem, false)
                }
            },
            Cmp::Equal => {
                proof {
                    Self::lemma_bound_not_in(Self::opt_as_map(orig.left), key);
                    Self::lemma_bound_not_in(Self::opt_as_map(orig.right), key);
                }
                let removed = Option::Some((n.key, n.val));
                if n.left.is_none() {
                    // at most a right child: splice it in, repainting a red
                    // child black to preserve the black height
                    proof {
                        assert(Self::opt_as_map(Option::Some(orig)).remove(key)
                            =~= Self::opt_as_map(orig.right));
                    }
                    match n.right.take() {
                        Option::None => {
                            proof {
                                assert(Self::opt_as_map(Option::None::<Box<RbNode<K, V>>>).dom()
                                    =~= Set::<K>::empty());
                            }
                            if n.color == Color::RED {
                                (Option::None, removed, false)
                            } else {
                                (Option::None, removed, true)
                            }
                        },
                        Option::Some(mut r) => {
                            proof {
                                Self::lemma_unfold(r);
                                assert(r.color == Color::RED);
                            }
                            let ghost r0 = r;
                            r.color = Color::BLACK;
                            proof {
                                Self::lemma_color_blind(r, r0);
                                Self::lemma_unfold(r);
                            }
                            (Option::Some(r), removed, false)
                        },
                    }
                } else if n.right.is_none() {
                    // only a left child: it must be a red leaf; repaint it
                    proof {
                        assert(Self::opt_as_map(Option::Some(orig)).remove(key)
                            =~= Self::opt_as_map(orig.left));
                    }
                    let mut l = match n.left.take() {
                        Option::Some(b) => b,
                        Option::None => {
                            proof {
                                assert(false);
                            }
                            unreached()
                        },
                    };
                    proof {
                        Self::lemma_unfold(l);
                        assert(l.color == Color::RED);
                    }
                    let ghost lg = l;
                    l.color = Color::BLACK;
                    proof {
                        Self::lemma_color_blind(l, lg);
                        Self::lemma_unfold(l);
                    }
                    (Option::Some(l), removed, false)
                } else {
                    // two children: the in-order successor replaces this
                    // node's pair, and is removed from the right branch
                    let r = n.right.take();
                    let ghost r0 = r;
                    let (r2, mk, mv, d) = Self::del_min(r);
                    n.key = mk;
                    n.val = mv;
                    n.right = r2;
                    let ghost n1 = n;
                    proof {
                        Self::lemma_unfold(n1);
                        assert(Self::opt_as_map(r0).dom().contains(mk));
                        assert(orig.key.le(mk) && mk != orig.key);
                        if Self::opt_as_map(orig.left).dom().contains(mk) {
                            K::antisymmetric(mk, orig.key);
                            assert(false);
                        }
                        assert(Self::opt_as_map(Option::Some(n1)) =~= Self::opt_as_map(
                            Option::Some(orig),
                        ).remove(key));
                        assert forall|x: K| #[trigger] Self::opt_as_map(
                            orig.left,
                        ).dom().contains(x) implies x.le(mk) && x != mk by {
                            K::transitive(x, orig.key, mk);
                            if x == mk {
                                K::antisymmetric(orig.key, mk);
                            }
                        }
                        assert(Self::opt_ordered(Option::Some(n1)));
                    }
                    if d {
                        let (nb, d2) = Self::bal_right_del(n);
                        (Option::Some(nb), removed, d2)
                    } else {
                        (Option::Some(n), removed, false)
                    }
                }
            },
        }
    }

    /// The depth of a branch: the longest chain of nodes to a leaf.
    pub open spec fn height(link: Option<Box<RbNode<K, V>>>) -> nat
        decreases link,
    {
        match link {
            Option::None => 0,
            Option::Some(node) => 1 + if Self::height(node.left) >= Self::height(node.right) {
                Self::height(node.left)
            } else {
                Self::height(node.right)
            },
        }
    }

    /// The black height never exceeds the depth.
    proof fn lemma_bh_le_height(link: Option<Box<RbNode<K, V>>>)
        ensures
            Self::bh(link) <= Self::height(link),
        decreases link,
    {
        match link {
            Option::None => {
            },
            Option::Some(node) => {
                Self::lemma_bh_le_height(node.left);
            },
        }
    }

    /// With no red-red edge and consistent black heights, the depth is at
    /// most twice the black height plus one: red nodes never chain.
    proof fn lemma_height_le_bh(link: Option<Box<RbNode<K, V>>>)
        requires
            Self::no_red_red(link),
            Self::bh_ok(link),
        ensures
            Self::height(link) <= 2 * Self::bh(link) + if Self::opt_color(link) == Color::RED {
                1nat
            } else {
                0nat
            },
        decreases link,
    {
        match link {
            Option::None => {
            },
            Option::Some(node) => {
                Self::lemma_height_le_bh(node.left);
                Self::lemma_height_le_bh(node.right);
            },
        }
    }

    /// The depth never exceeds the number of nodes.
    proof fn lemma_height_le_inorder(link: Option<Box<RbNode<K, V>>>)
        ensures
            Self::height(link) <= Self::inorder_spec(link).len(),
        decreases link,
    {
        match link {
            Option::None => {
            },
            Option::Some(node) => {
                Self::lemma_height_le_inorder(node.left);
                Self::lemma_height_le_inorder(node.right);
            },
        }
    }

    /// In an ordered branch the three parts of a node are disjoint, so the
    /// map sizes add up.
    proof fn lemma_card(n: Box<RbNode<K, V>>)
        requires
            Self::all_lt(Self::opt_as_map(n.left), n.key),
            Self::all_gt(Self::opt_as_map(n.right), n.key),
        ensures
            Self::opt_as_map(Option::Some(n)).dom().finite(),
            Self::opt_as_map(Option::Some(n)).dom().len() == Self::opt_as_map(
                n.left,
            ).dom().len() + Self::opt_as_map(n.right).dom().len() + 1,
    {
        Self::lemma_map_finite(n.left);
        Self::lemma_map_finite(n.right);
        Self::lemma_map_finite(Option::Some(n));
        Self::lemma_unfold(n);
        let dl = Self::opt_as_map(n.left).dom();
        let dr = Self::opt_as_map(n.right).dom();
        assert forall|x: K| !(dl.contains(x) && dr.contains(x)) by {
            if dl.contains(x) && dr.contains(x) {
                K::antisymmetric(x, n.key);
            }
        }
        assert(dl.disjoint(dr));
        lemma_set_disjoint_lens(dl, dr);
        Self::lemma_bound_not_in(Self::opt_as_map(n.left), n.key);
        Self::lemma_bound_not_in(Self::opt_as_map(n.right), n.key);
        assert(Self::opt_as_map(Option::Some(n)).dom() =~= (dl + dr).insert(n.key));
        assert(!(dl + dr).contains(n.key));
    }

    /// Keys strictly ascend along a sequence of pairs.
    pub open spec fn keys_strictly_sorted(s: Seq<(K, V)>) -> bool {
        forall|i: int, j: int|
            0 <= i < j < s.len() ==> (#[trigger] s[i]).0.le((#[trigger] s[j]).0) && s[i].0
                != s[j].0
    }

    /// In an ordered branch the symmetric-order sequence is strictly sorted,
    /// lists exactly the branch map's entries, and has the map's size.
    proof fn lemma_inorder_props(link: Option<Box<RbNode<K, V>>>)
        requires
            Self::opt_ordered(link),
        ensures
            Self::keys_strictly_sorted(Self::inorder_spec(link)),
            Self::inorder_spec(link).len() == Self::opt_as_map(link).dom().len(),
            forall|i: int|
                0 <= i < Self::inorder_spec(link).len() ==> Self::opt_as_map(link).dom().contains(
                    (#[trigger] Self::inorder_spec(link)[i]).0,
                ) && Self::opt_as_map(link)[Self::inorder_spec(link)[i].0]
                    == Self::inorder_spec(link)[i].1,
        decreases link,
    {
        match link {
            Option::None => {
                assert(Self::opt_as_map(link).dom() =~= Set::<K>::empty());
            },
            Option::Some(node) => {
                Self::lemma_inorder_props(node.left);
                Self::lemma_inorder_props(node.right);
                Self::lemma_card(node);
                Self::lemma_unfold(node);
                Self::lemma_bound_not_in(Self::opt_as_map(node.left), node.key);
                Self::lemma_bound_not_in(Self::opt_as_map(node.right), node.key);
                let s = Self::inorder_spec(link);
                let sl = Self::inorder_spec(node.left);
                let sr = Self::inorder_spec(node.right);
                let ml = Self::opt_as_map(node.left);
                let mr = Self::opt_as_map(node.right);
                let m = Self::opt_as_map(link);
                assert(s == sl + seq![(node.key, node.val)] + sr);
                assert forall|i: int| 0 <= i < s.len() implies m.dom().contains(
                    (#[trigger] s[i]).0,
                ) && m[s[i].0] == s[i].1 by {
                    if i < sl.len() {
                        assert(s[i] == sl[i]);
                        assert(ml.dom().contains(sl[i].0));
                        assert(s[i].0 != node.key);
                        if mr.dom().contains(s[i].0) {
                            K::antisymmetric(s[i].0, node.key);
                        }
                    } else if i == sl.len() {
                        assert(s[i] == (node.key, node.val));
                    } else {
                        assert(s[i] == sr[i - sl.len() - 1]);
                        assert(mr.dom().contains(s[i].0));
                        assert(s[i].0 != node.key);
                    }
                }
                assert forall|i: int, j: int| 0 <= i < j < s.len() implies (
                #[trigger] s[i]).0.le((#[trigger] s[j]).0) && s[i].0 != s[j].0 by {
                    let li = sl.len() as int;
                    if i < li && j < li {
                        assert(s[i] == sl[i] && s[j] == sl[j]);
                    } else if i < li && j == li {
                        assert(s[i] == sl[i] && s[j] == (node.key, node.val));
                        assert(ml.dom().contains(sl[i].0));
                    } else if i < li && j > li {
                        assert(s[i] == sl[i] && s[j] == sr[j - li - 1]);
                        assert(ml.dom().contains(sl[i].0));
                        assert(mr.dom().contains(sr[j - li - 1].0));
                        K::transitive(s[i].0, node.key, s[j].0);
                        if s[i].0 == s[j].0 {
                            K::antisymmetric(s[i].0, node.key);
                        }
                    } else if i == li && j > li {
                        assert(s[i] == (node.key, node.val) && s[j] == sr[j - li - 1]);
                        assert(mr.dom().contains(sr[j - li - 1].0));
                    } else {
                        assert(s[i] == sr[i - li - 1] && s[j] == sr[j - li - 1]);
                    }
                }
            },
        }
    }

    /// A subtree that satisfies the red-black rules has at least
    /// `pow2(black height) - 1` keys.
    proof fn lemma_bh_size(link: Option<Box<RbNode<K, V>>>)
        requires
            Self::opt_ordered(link),
            Self::no_red_red(link),
            Self::bh_ok(link),
        ensures
            pow2(Self::bh(link)) <= Self::opt_as_map(link).dom().len() + 1,
        decreases link,
    {
        match link {
            Option::None => {
                vstd::arithmetic::power2::lemma2_to64();
            },
            Option::Some(node) => {
                Self::lemma_bh_size(node.left);
                Self::lemma_bh_size(node.right);
                Self::lemma_card(node);
                Self::lemma_unfold(node);
                if node.color == Color::BLACK {
                    lemma_pow2_unfold(Self::bh(link));
                }
            },
        }
    }

    /// Recursive validator pass: checks the red rule and the black-height
    /// rule and measures the black height.
    fn validate_in(link: &Option<Box<RbNode<K, V>>>) -> (r: (bool, bool, usize))
        ensures
            Self::height(*link) <= usize::MAX ==> {
                &&& r.0 == Self::no_red_red(*link)
                &&& r.1 == Self::bh_ok(*link)
                &&& r.2 == Self::bh(*link)
            },
        decreases *link,
    {
        match link {
            Option::None => (true, true, 0),
            Option::Some(node) => {
                let (lr, lb, lh) = Self::validate_in(&node.left);
                let (rr, rb, rh) = Self::validate_in(&node.right);
                proof {
                    Self::lemma_bh_le_height(node.left);
                    Self::lemma_bh_le_height(node.right);
                }
                let red_ok = lr && rr && !(node.color == Color::RED && (Self::is_red(&node.left)
                    || Self::is_red(&node.right)));
                let bh_ok_here = lb && rb && lh == rh;
                let h = if node.color == Color::BLACK {
                    if lh < usize::MAX {
                        lh + 1
                    } else {
                        lh
                    }
                } else {
                    lh
                };
                (red_ok, bh_ok_here, h)
            },
        }
    }

    /// The pair a branch's root holds, if any.
    pub open spec fn opt_entry(link: Option<Box<RbNode<K, V>>>) -> Option<(K, V)> {
        match link {
            Option::None => Option::None,
            Option::Some(node) => Option::Some((node.key, node.val)),
        }
    }

    /// The subtree rooted at the node the binary search for `key` reaches.
    pub open spec fn subtree_at(link: Option<Box<RbNode<K, V>>>, key: K) -> Option<
        Box<RbNode<K, V>>,
    >
        decreases link,
    {
        match link {
            Option::None => Option::None,
            Option::Some(node) => if key == node.key {
                link
            } else if key.le(node.key) {
                Self::subtree_at(node.left, key)
            } else {
                Self::subtree_at(node.right, key)
            },
        }
    }

    /// The sibling of the node holding `key`: the other child of its parent.
    /// The root, an absent key and a nil sibling all yield nothing.
    pub open spec fn sibling_at(link: Option<Box<RbNode<K, V>>>, key: K) -> Option<(K, V)>
        decreases link,
    {
        match link {
            Option::None => Option::None,
            Option::Some(node) => if key == node.key {
                Option::None
            } else if key.le(node.key) {
                match node.left {
                    Option::Some(p) => if key == p.key {
                        Self::opt_entry(node.right)
                    } else {
                        Self::sibling_at(node.left, key)
                    },
                    Option::None => Option::None,
                }
            } else {
                match node.right {
                    Option::Some(p) => if key == p.key {
                        Self::opt_entry(node.left)
                    } else {
                        Self::sibling_at(node.right, key)
                    },
                    Option::None => Option::None,
                }
            },
        }
    }

    /// The uncle of the node holding `key`: the sibling of its parent.
    pub open spec fn uncle_at(link: Option<Box<RbNode<K, V>>>, key: K) -> Option<(K, V)>
        decreases link,
    {
        match link {
            Option::None => Option::None,
            Option::Some(node) => if key == node.key {
                Option::None
            } else {
                let child = if key.le(node.key) {
                    node.left
                } else {
                    node.right
                };
                let other = if key.le(node.key) {
                    node.right
                } else {
                    node.left
                };
                match child {
                    Option::Some(p) => if key == p.key {
                        Option::None
                    } else if (key.le(p.key) && p.left is Some && key == p.left.unwrap().key) || (
                        !key.le(p.key) && p.right is Some && key == p.right.unwrap().key) {
                        Self::opt_entry(other)
                    } else {
                        Self::uncle_at(child, key)
                    },
                    Option::None => Option::None,
                }
            },
        }
    }

    /// Finds the entry with the smallest key in a branch.
    fn min_in(link: &Option<Box<RbNode<K, V>>>) -> (r: Option<(K, V)>)
        requires
            Self::opt_ordered(*link),
        ensures
            match r {
                Option::Some(p) => Self::opt_as_map(*link).dom().contains(p.0)
                    && Self::opt_as_map(*link)[p.0] == p.1 && Self::all_gt(
                    Self::opt_as_map(*link).remove(p.0),
                    p.0,
                ),
                Option::None => link is None,
            },
        decreases *link,
    {
        match link {
            Option::None => Option::None,
            Option::Some(node) => {
                proof {
                    Self::lemma_unfold(*node);
                    Self::lemma_bound_not_in(Self::opt_as_map(node.left), node.key);
                }
                match Self::min_in(&node.left) {
                    Option::None => {
                        proof {
                            assert forall|x: K| #[trigger] Self::opt_as_map(
                                Option::Some(*node),
                            ).remove(node.key).dom().contains(x) implies node.key.le(x) && x
                                != node.key by {
                                assert(Self::opt_as_map(node.right).dom().contains(x));
                            }
                        }
                        Option::Some((node.key, node.val))
                    },
                    Option::Some(p) => {
                        proof {
                            assert(Self::opt_as_map(node.left).dom().contains(p.0));
                            if Self::opt_as_map(node.right).dom().contains(p.0) {
                                K::antisymmetric(p.0, node.key);
                                assert(false);
                            }
                            assert forall|x: K| #[trigger] Self::opt_as_map(
                                Option::Some(*node),
                            ).remove(p.0).dom().contains(x) implies p.0.le(x) && x != p.0 by {
                                if Self::opt_as_map(node.left).dom().contains(x) {
                                    assert(Self::opt_as_map(node.left).remove(p.0).dom().contains(
                                        x,
                                    ));
                                } else if x == node.key {
                                    assert(p.0.le(node.key) && p.0 != node.key);
                                } else {
                                    assert(Self::opt_as_map(node.right).dom().contains(x));
                                    K::transitive(p.0, node.key, x);
                                    if x == p.0 {
                                        K::antisymmetric(p.0, node.key);
                                    }
                                }
                            }
                        }
                        Option::Some(p)
                    },
                }
            },
        }
    }

    /// The branch after a left rotation at the node holding `key`: that
    /// node's right child `y` takes its place, the node becomes `y`'s left
    /// child, `y`'s old left subtree is re-hung as the node's right subtree,
    /// and every key, value and color stays what it was. A missing key or a
    /// nil right child leaves the branch untouched.
    pub open spec fn rot_left_spec(link: Option<Box<RbNode<K, V>>>, key: K) -> Option<
        Box<RbNode<K, V>>,
    >
        decreases link,
    {
        match link {
            Option::None => Option::None,
            Option::Some(n) => if key == n.key {
                match n.right {
                    Option::None => link,
                    Option::Some(r) => Option::Some(
                        Box::new(
                            RbNode {
                                key: r.key,
                                val: r.val,
                                color: r.color,
                                left: Option::Some(
                                    Box::new(
                                        RbNode {
                                            key: n.key,
                                            val: n.val,
                                            color: n.color,
                                            left: n.left,
                                            right: r.left,
                                        },
                                    ),
                                ),
                                right: r.right,
                            },
                        ),
                    ),
                }
            } else if key.le(n.key) {
                Option::Some(
                    Box::new(
                        RbNode {
                            key: n.key,
                            val: n.val,
                            color: n.color,
                            left: Self::rot_left_spec(n.left, key),
                            right: n.right,
                        },
                    ),
                )
            } else {
                Option::Some(
                    Box::new(
                        RbNode {
                            key: n.key,
                            val: n.val,
                            color: n.color,
                            left: n.left,
                            right: Self::rot_left_spec(n.right, key),
                        },
                    ),
                )
            },
        }
    }

    /// The branch after a right rotation at the node holding `key`: the
    /// mirror image of `rot_left_spec`, promoting the left child.
    pub open spec fn rot_right_spec(link: Option<Box<RbNode<K, V>>>, key: K) -> Option<
        Box<RbNode<K, V>>,
    >
        decreases link,
    {
        match link {
            Option::None => Option::None,
            Option::Some(n) => if key == n.key {
                match n.left {
                    Option::None => link,
                    Option::Some(l) => Option::Some(
                        Box::new(
                            RbNode {
                                key: l.key,
                                val: l.val,
                                color: l.color,
                                left: l.left,
                                right: Option::Some(
                                    Box::new(
                                        RbNode {
                                            key: n.key,
                                            val: n.val,
                                            color: n.color,
                                            left: l.right,
                                            right: n.right,
                                        },
                                    ),
                                ),
                            },
                        ),
                    ),
                }
            } else if key.le(n.key) {
                Option::Some(
                    Box::new(
                        RbNode {
                            key: n.key,
                            val: n.val,
                            color: n.color,
                            left: Self::rot_right_spec(n.left, key),
                            right: n.right,
                        },
                    ),
                )
            } else {
                Option::Some(
                    Box::new(
                        RbNode {
                            key: n.key,
                            val: n.val,
                            color: n.color,
                            left: n.left,
                            right: Self::rot_right_spec(n.right, key),
                        },
                    ),
                )
            },
        }
    }

    /// Rotates left at the node holding `key`: exactly the restructuring
    /// `rot_left_spec` describes, which keeps the search order and every
    /// color. A missing key or a nil right child leaves the branch
    /// untouched.
    fn rot_left_at(link: Option<Box<RbNode<K, V>>>, key: K) -> (res: Option<Box<RbNode<K, V>>>)
        requires
            Self::opt_ordered(link),
        ensures
            res == Self::rot_left_spec(link, key),
            Self::opt_ordered(res),
            Self::opt_as_map(res) == Self::opt_as_map(link),
        decreases link,
    {
        match link {
            Option::None => Option::None,
            Option::Some(mut n) => {
                let ghost orig = n;
                proof {
                    Self::lemma_unfold(orig);
                }
                match key.compare(&n.key) {
                    Cmp::Equal => {
                        match n.right.take() {
                            Option::None => {
                                proof {
                                    assert(n == orig);
                                }
                                Option::Some(n)
                            },
                            Option::Some(mut r) => {
                                let ghost r0 = r;
                                proof {
                                    Self::lemma_unfold(r0);
                                }
                                let rl = r.left.take();
                                n.right = rl;
                                let ghost n1 = n;
                                r.left = Option::Some(n);
                                proof {
                                    Self::lemma_unfold(n1);
                                    Self::lemma_unfold(r);
                                    assert(Self::opt_as_map(orig.right).dom().contains(r0.key));
                                    assert(orig.key.le(r0.key) && r0.key != orig.key);
                                    if Self::opt_as_map(r0.right).dom().contains(orig.key) {
                                        assert(Self::opt_as_map(Option::Some(r0)).dom().contains(
                                            orig.key,
                                        ));
                                        Self::lemma_bound_not_in(
                                            Self::opt_as_map(Option::Some(r0)),
                                            orig.key,
                                        );
                                    }
                                    Self::lemma_node_map_assoc(
                                        Self::opt_as_map(orig.left),
                                        orig.key,
                                        orig.val,
                                        Self::opt_as_map(r0.left),
                                        r0.key,
                                        r0.val,
                                        Self::opt_as_map(r0.right),
                                    );
                                    assert(Self::opt_as_map(Option::Some(r)) == Self::opt_as_map(
                                        Option::Some(orig),
                                    ));
                                    assert forall|x: K| #[trigger] Self::opt_as_map(
                                        Option::Some(n1),
                                    ).dom().contains(x) implies x.le(r0.key) && x != r0.key by {
                                        if Self::opt_as_map(r0.left).dom().contains(x) {
                                        } else if x == orig.key {
                                        } else {
                                            assert(Self::opt_as_map(orig.left).dom().contains(x));
                                            K::transitive(x, orig.key, r0.key);
                                            if x == r0.key {
                                                K::antisymmetric(orig.key, r0.key);
                                            }
                                        }
                                    }
                                    assert forall|x: K| #[trigger] Self::opt_as_map(
                                        r0.left,
                                    ).dom().contains(x) implies orig.key.le(x) && x != orig.key by {
                                        assert(Self::opt_as_map(Option::Some(r0)).dom().contains(
                                            x,
                                        ));
                                    }
                                    assert(Self::opt_ordered(Option::Some(n1)));
                                    assert(Self::opt_ordered(Option::Some(r)));
                                }
                                Option::Some(r)
                            },
                        }
                    },
                    Cmp::Less => {
                        let l = n.left.take();
                        let l2 = Self::rot_left_at(l, key);
                        n.left = l2;
                        proof {
                            Self::lemma_unfold(n);
                        }
                        Option::Some(n)
                    },
                    Cmp::Greater => {
                        proof {
                            if key.le(orig.key) {
                                K::antisymmetric(orig.key, key);
                            }
                        }
                        let r = n.right.take();
                        let r2 = Self::rot_left_at(r, key);
                        n.right = r2;
                        proof {
                            Self::lemma_unfold(n);
                        }
                        Option::Some(n)
                    },
                }
            },
        }
    }

    /// Rotates right at the node holding `key`: exactly the restructuring
    /// `rot_right_spec` describes, which keeps the search order and every
    /// color. A missing key or a nil left child leaves the branch untouched.
    fn rot_right_at(link: Option<Box<RbNode<K, V>>>, key: K) -> (res: Option<Box<RbNode<K, V>>>)
        requires
            Self::opt_ordered(link),
        ensures
            res == Self::rot_right_spec(link, key),
            Self::opt_ordered(res),
            Self::opt_as_map(res) == Self::opt_as_map(link),
        decreases link,
    {
        match link {
            Option::None => Option::None,
            Option::Some(mut n) => {
                let ghost orig = n;
                proof {
                    Self::lemma_unfold(orig);
                }
                match key.compare(&n.key) {
                    Cmp::Equal => {
                        match n.left.take() {
                            Option::None => {
                                proof {
                                    assert(n == orig);
                                }
                                Option::Some(n)
                            },
                            Option::Some(mut l) => {
                                let ghost l0 = l;
                                proof {
                                    Self::lemma_unfold(l0);
                                }
                                let lr = l.right.take();
                                n.left = lr;
                                let ghost n1 = n;
                                l.right = Option::Some(n);
                                proof {
                                    Self::lemma_unfold(n1);
                                    Self::lemma_unfold(l);
                                    assert(Self::opt_as_map(orig.left).dom().contains(l0.key));
                                    assert(l0.key.le(orig.key) && l0.key != orig.key);
                                    if Self::opt_as_map(orig.right).dom().contains(l0.key) {
                                        K::antisymmetric(l0.key, orig.key);
                                        assert(false);
                                    }
                                    Self::lemma_node_map_assoc(
                                        Self::opt_as_map(l0.left),
                                        l0.key,
                                        l0.val,
                                        Self::opt_as_map(l0.right),
                                        orig.key,
                                        orig.val,
                                        Self::opt_as_map(orig.right),
                                    );
                                    assert(Self::opt_as_map(Option::Some(l)) == Self::opt_as_map(
                                        Option::Some(orig),
                                    ));
                                    assert forall|x: K| #[trigger] Self::opt_as_map(
                                        Option::Some(n1),
                                    ).dom().contains(x) implies l0.key.le(x) && x != l0.key by {
                                        if Self::opt_as_map(l0.right).dom().contains(x) {
                                        } else if x == orig.key {
                                        } else {
                                            assert(Self::opt_as_map(orig.right).dom().contains(
                                                x,
                                            ));
                                            K::transitive(l0.key, orig.key, x);
                                            if x == l0.key {
                                                K::antisymmetric(l0.key, orig.key);
                                            }
                                        }
                                    }
                                    assert forall|x: K| #[trigger] Self::opt_as_map(
                                        l0.right,
                                    ).dom().contains(x) implies x.le(orig.key) && x != orig.key by {
                                        assert(Self::opt_as_map(Option::Some(l0)).dom().contains(
                                            x,
                                        ));
                                    }
                                    assert(Self::opt_ordered(Option::Some(n1)));
                                    assert(Self::opt_ordered(Option::Some(l)));
                                }
                                Option::Some(l)
                            },
                        }
                    },
                    Cmp::Less => {
                        let l = n.left.take();
                        let l2 = Self::rot_right_at(l, key);
                        n.left = l2;
                        proof {
                            Self::lemma_unfold(n);
                        }
                        Option::Some(n)
                    },
                    Cmp::Greater => {
                        proof {
                            if key.le(orig.key) {
                                K::antisymmetric(orig.key, key);
                            }
                        }
                        let r = n.right.take();
                        let r2 = Self::rot_right_at(r, key);
                        n.right = r2;
                        proof {
                            Self::lemma_unfold(n);
                        }
                        Option::Some(n)
                    },
                }
            },
        }
    }

    /// Finds the minimum of the subtree the search for `key` reaches.
    fn succ_in(link: &Option<Box<RbNode<K, V>>>, key: K) -> (r: Option<(K, V)>)
        requires
            Self::opt_ordered(*link),
        ensures
            match r {
                Option::Some(p) => Self::subtree_at(*link, key) is Some && Self::opt_as_map(
                    Self::subtree_at(*link, key),
                ).dom().contains(p.0) && Self::opt_as_map(Self::subtree_at(*link, key))[p.0]
                    == p.1 && Self::all_gt(
                    Self::opt_as_map(Self::subtree_at(*link, key)).remove(p.0),
                    p.0,
                ),
                Option::None => Self::subtree_at(*link, key) is None,
            },
        decreases *link,
    {
        match link {
            Option::None => Option::None,
            Option::Some(node) => {
                proof {
                    Self::lemma_unfold(*node);
                }
                match key.compare(&node.key) {
                    Cmp::Equal => Self::min_in(link),
                    Cmp::Less => Self::succ_in(&node.left, key),
                    Cmp::Greater => {
                        proof {
                            if key.le(node.key) {
                                K::antisymmetric(node.key, key);
                            }
                        }
                        Self::succ_in(&node.right, key)
                    },
                }
            },
        }
    }

    /// Finds the replacement entry for the node the search reaches: its
    /// in-order successor inside its right subtree when it has two children,
    /// its lone child when it has one, nothing for a leaf.
    fn replace_in(link: &Option<Box<RbNode<K, V>>>, key: K) -> (r: Option<(K, V)>)
        requires
            Self::opt_ordered(*link),
        ensures
            match Self::subtree_at(*link, key) {
                Option::None => r is None,
                Option::Some(n) => match (n.left, n.right) {
                    (Option::None, Option::None) => r is None,
                    (Option::Some(l), Option::None) => r == Self::opt_entry(n.left),
                    (Option::None, Option::Some(rc)) => r == Self::opt_entry(n.right),
                    (Option::Some(l), Option::Some(rc)) => r is Some && Self::opt_as_map(
                        n.right,
                    ).dom().contains(r.unwrap().0) && Self::opt_as_map(n.right)[r.unwrap().0]
                        == r.unwrap().1 && Self::all_gt(
                        Self::opt_as_map(n.right).remove(r.unwrap().0),
                        r.unwrap().0,
                    ),
                },
            },
        decreases *link,
    {
        match link {
            Option::None => Option::None,
            Option::Some(node) => {
                proof {
                    Self::lemma_unfold(*node);
                }
                match key.compare(&node.key) {
                    Cmp::Equal => {
                        match (&node.left, &node.right) {
                            (Option::None, Option::None) => Option::None,
                            (Option::Some(l), Option::None) => Option::Some((l.key, l.val)),
                            (Option::None, Option::Some(rc)) => Option::Some((rc.key, rc.val)),
                            (Option::Some(_), Option::Some(_)) => Self::min_in(&node.right),
                        }
                    },
                    Cmp::Less => Self::replace_in(&node.left, key),
                    Cmp::Greater => {
                        proof {
                            if key.le(node.key) {
                                K::antisymmetric(node.key, key);
                            }
                        }
                        Self::replace_in(&node.right, key)
                    },
                }
            },
        }
    }

    /// Mirrors `sibling_at` executably.
    fn sibling_in(link: &Option<Box<RbNode<K, V>>>, key: K) -> (r: Option<(K, V)>)
        ensures
            r == Self::sibling_at(*link, key),
        decreases *link,
    {
        match link {
            Option::None => Option::None,
            Option::Some(node) => {
                match key.compare(&node.key) {
                    Cmp::Equal => Option::None,
                    Cmp::Less => {
                        match &node.left {
                            Option::Some(p) => {
                                match key.compare(&p.key) {
                                    Cmp::Equal => {
                                        match &node.right {
                                            Option::Some(u) => Option::Some((u.key, u.val)),
                                            Option::None => Option::None,
                                        }
                                    },
                                    _ => Self::sibling_in(&node.left, key),
                                }
                            },
                            Option::None => Option::None,
                        }
                    },
                    Cmp::Greater => {
                        proof {
                            if key.le(node.key) {
                                K::antisymmetric(node.key, key);
                            }
                        }
                        match &node.right {
                            Option::Some(p) => {
                                match key.compare(&p.key) {
                                    Cmp::Equal => {
                                        match &node.left {
                                            Option::Some(u) => Option::Some((u.key, u.val)),
                                            Option::None => Option::None,
                                        }
                                    },
                                    _ => Self::sibling_in(&node.right, key),
                                }
                            },
                            Option::None => Option::None,
                        }
                    },
                }
            },
        }
    }

    /// Mirrors `uncle_at` executably.
    fn uncle_in(link: &Option<Box<RbNode<K, V>>>, key: K) -> (r: Option<(K, V)>)
        ensures
            r == Self::uncle_at(*link, key),
        decreases *link,
    {
        match link {
            Option::None => Option::None,
            Option::Some(node) => {
                match key.compare(&node.key) {
                    Cmp::Equal => Option::None,
                    Cmp::Less => {
                        match &node.left {
                            Option::Some(p) => {
                                match key.compare(&p.key) {
                                    Cmp::Equal => Option::None,
                                    Cmp::Less => {
                                        let mut direct = false;
                                        match &p.left {
                                            Option::Some(c) => {
                                                match key.compare(&c.key) {
                                                    Cmp::Equal => {
                                                        direct = true;
                                                    },
                                                    _ => {
                                                    },
                                                }
                                            },
                                            Option::None => {
                                            },
                                        }
                                        if direct {
                                            match &node.right {
                                                Option::Some(u) => Option::Some((u.key, u.val)),
                                                Option::None => Option::None,
                                            }
                                        } else {
                                            Self::uncle_in(&node.left, key)
                                        }
                                    },
                                    Cmp::Greater => {
                                        proof {
                                            if key.le(p.key) {
                                                K::antisymmetric(p.key, key);
                                            }
                                        }
                                        let mut direct = false;
                                        match &p.right {
                                            Option::Some(c) => {
                                                match key.compare(&c.key) {
                                                    Cmp::Equal => {
                                                        direct = true;
                                                    },
                                                    _ => {
                                                    },
                                                }
                                            },
                                            Option::None => {
                                            },
                                        }
                                        if direct {
                                            match &node.right {
                                                Option::Some(u) => Option::Some((u.key, u.val)),
                                                Option::None => Option::None,
                                            }
                                        } else {
                                            Self::uncle_in(&node.left, key)
                                        }
                                    },
                                }
                            },
                            Option::None => Option::None,
                        }
                    },
                    Cmp::Greater => {
                        proof {
                            if key.le(node.key) {
                                K::antisymmetric(node.key, key);
                            }
                        }
                        match &node.right {
                            Option::Some(p) => {
                                match key.compare(&p.key) {
                                    Cmp::Equal => Option::None,
                                    Cmp::Less => {
                                        let mut direct = false;
                                        match &p.left {
                                            Option::Some(c) => {
                                                match key.compare(&c.key) {
                                                    Cmp::Equal => {
                                                        direct = true;
                                                    },
                                                    _ => {
                                                    },
                                                }
                                            },
                                            Option::None => {
                                            },
                                        }
                                        if direct {
                                            match &node.left {
                                                Option::Some(u) => Option::Some((u.key, u.val)),
                                                Option::None => Option::None,
                                            }
                                        } else {
                                            Self::uncle_in(&node.right, key)
                                        }
                                    },
                                    Cmp::Greater => {
                                        proof {
                                            if key.le(p.key) {
                                                K::antisymmetric(p.key, key);
                                            }
                                        }
                                        let mut direct = false;
                                        match &p.right {
                                            Option::Some(c) => {
                                                match key.compare(&c.key) {
                                                    Cmp::Equal => {
                                                        direct = true;
                                                    },
                                                    _ => {
                                                    },
                                                }
                                            },
                                            Option::None => {
                                            },
                                        }
                                        if direct {
                                            match &node.left {
                                                Option::Some(u) => Option::Some((u.key, u.val)),
                                                Option::None => Option::None,
                                            }
                                        } else {
                                            Self::uncle_in(&node.right, key)
                                        }
                                    },
                                }
                            },
                            Option::None => Option::None,
                        }
                    },
                }
            },
        }
    }

    /// True iff the searched node exists and has a red child.
    fn has_red_child_in(link: &Option<Box<RbNode<K, V>>>, key: K) -> (r: bool)
        ensures
            r == (match Self::subtree_at(*link, key) {
                Option::Some(n) => Self::opt_color(n.left) == Color::RED || Self::opt_color(
                    n.right,
                ) == Color::RED,
                Option::None => false,
            }),
        decreases *link,
    {
        match link {
            Option::None => false,
            Option::Some(node) => {
                match key.compare(&node.key) {
                    Cmp::Equal => Self::is_red(&node.left) || Self::is_red(&node.right),
                    Cmp::Less => Self::has_red_child_in(&node.left, key),
                    Cmp::Greater => {
                        proof {
                            if key.le(node.key) {
                                K::antisymmetric(node.key, key);
                            }
                        }
                        Self::has_red_child_in(&node.right, key)
                    },
                }
            },
        }
    }

    /// The nil leaf: the absent branch, black by definition.
    pub fn new_nil() -> (n: Option<Box<RbNode<K, V>>>)
        ensures
            n is None,
            Self::opt_color(n) == Color::BLACK,
    {
        Option::None
    }

    /// A fresh red node with nil children, the shape every insertion attaches.
    pub fn new(key: K, val: V) -> (node: RbNode<K, V>)
        ensures
            node.key == key,
            node.val == val,
            node.color == Color::RED,
            node.left is None,
            node.right is None,
    {
        RbNode { key, val, color: Color::RED, left: Option::None, right: Option::None }
    }

    /// A node with every attribute chosen by the caller.
    pub fn new_extended(
        key: K,
        val: V,
        color: Color,
        left: Option<Box<RbNode<K, V>>>,
        right: Option<Box<RbNode<K, V>>>,
    ) -> (node: RbNode<K, V>)
        ensures
            node == (RbNode { key, val, color, left, right }),
    {
        RbNode { key, val, color, left, right }
    }
}

impl<K: Key, V: Value> RbTree<K, V> {
    /// The map of keys to values this tree holds.
    pub closed spec fn as_map(self) -> Map<K, V> {
        RbNode::<K, V>::opt_as_map(self.root)
    }

    /// All red-black invariants, plus an accurate size counter.
    pub closed spec fn wf(self) -> bool {
        &&& RbNode::<K, V>::opt_wf(self.root)
        &&& RbNode::<K, V>::opt_color(self.root) == Color::BLACK
        &&& self.size == RbNode::<K, V>::opt_as_map(self.root).dom().len()
    }

    /// The black-height of the root, the nil leaf excluded.
    pub closed spec fn black_height(self) -> nat {
        RbNode::<K, V>::bh(self.root)
    }

    /// The value of the size counter.
    pub closed spec fn spec_size(self) -> usize {
        self.size
    }

    /// The tree's key-value pairs in sorted key order.
    pub closed spec fn inorder_view(self) -> Seq<(K, V)> {
        RbNode::<K, V>::inorder_spec(self.root)
    }

    /// An empty tree.
    pub fn new() -> (tree: RbTree<K, V>)
        ensures
            tree.wf(),
            tree@ == Map::<K, V>::empty(),
            tree.spec_size() == 0,
    {
        proof {
            assert(RbNode::<K, V>::opt_as_map(Option::None).dom() =~= Set::<K>::empty());
        }
        RbTree { root: Option::None, size: 0, debug: false }
    }
}

impl<K: Key, V: Value> RbTree<K, V> {
    /// Looks a key up; hands back the stored pair and the node's color.
    pub fn find_node(&self, key: K) -> (r: Option<(K, V, Color)>)
        requires
            self.wf(),
        ensures
            match r {
                Option::Some(t) => self@.dom().contains(key) && t.0 == key && t.1 == self@[key]
                    && t.2 == RbNode::<K, V>::color_at(self.spec_root(), key),
                Option::None => !self@.dom().contains(key),
            },
    {
        RbNode::<K, V>::find_in(&self.root, key)
    }

    /// True iff the key is in the tree.
    pub fn in_tree(&self, key: K) -> (r: bool)
        requires
            self.wf(),
        ensures
            r == self@.dom().contains(key),
    {
        RbNode::<K, V>::find_in(&self.root, key).is_some()
    }

    /// Looks a key up, reporting an absent key as `NotFound`.
    pub fn find(&self, key: K) -> (r: Result<V, RbError>)
        requires
            self.wf(),
        ensures
            match r {
                Result::Ok(v) => self@.dom().contains(key) && v == self@[key],
                Result::Err(e) => e == RbError::NotFound && !self@.dom().contains(key),
            },
    {
        match RbNode::<K, V>::find_in(&self.root, key) {
            Option::Some((_, v, _)) => Result::Ok(v),
            Option::None => Result::Err(RbError::NotFound),
        }
    }
}

impl<K: Key, V: Value> RbNode<K, V> {
    /// Walks a branch in symmetric order, appending each pair.
    fn inorder_collect(link: &Option<Box<RbNode<K, V>>>, out: &mut Vec<(K, V)>)
        ensures
            final(out)@ == old(out)@ + Self::inorder_spec(*link),
        decreases *link,
    {
        match link {
            Option::None => {
                proof {
                    assert(out@ =~= out@ + Self::inorder_spec(*link));
                }
            },
            Option::Some(node) => {
                let ghost pre = out@;
                Self::inorder_collect(&node.left, out);
                out.push((node.key, node.val));
                Self::inorder_collect(&node.right, out);
                proof {
                    assert(out@ =~= pre + Self::inorder_spec(*link));
                }
            },
        }
    }

    /// Walks a branch in preorder, appending each pair.
    fn preorder_collect(link: &Option<Box<RbNode<K, V>>>, out: &mut Vec<(K, V)>)
        ensures
            final(out)@ == old(out)@ + Self::preorder_spec(*link),
        decreases *link,
    {
        match link {
            Option::None => {
                proof {
                    assert(out@ =~= out@ + Self::preorder_spec(*link));
                }
            },
            Option::Some(node) => {
                let ghost pre = out@;
                out.push((node.key, node.val));
                Self::preorder_collect(&node.left, out);
                Self::preorder_collect(&node.right, out);
                proof {
                    assert(out@ =~= pre + Self::preorder_spec(*link));
                }
            },
        }
    }

    /// Walks a branch in postorder, appending each pair.
    fn postorder_collect(link: &Option<Box<RbNode<K, V>>>, out: &mut Vec<(K, V)>)
        ensures
            final(out)@ == old(out)@ + Self::postorder_spec(*link),
        decreases *link,
    {
        match link {
            Option::None => {
                proof {
                    assert(out@ =~= out@ + Self::postorder_spec(*link));
                }
            },
            Option::Some(node) => {
                let ghost pre = out@;
                Self::postorder_collect(&node.left, out);
                Self::postorder_collect(&node.right, out);
                out.push((node.key, node.val));
                proof {
                    assert(out@ =~= pre + Self::postorder_spec(*link));
                }
            },
        }
    }
}

impl<K: Key, V: Value> RbTree<K, V> {
    /// Inserts a pair; an existing key has its value overwritten, a new key
    /// grows the tree by one. All red-black invariants are preserved.
    pub fn insert(&mut self, key: K, value: V)
        requires
            old(self).wf(),
            old(self).spec_size() < usize::MAX,
        ensures
            final(self).wf(),
            final(self)@ == old(self)@.insert(key, value),
            final(self).spec_size() == old(self).spec_size() + (if old(self)@.dom().contains(key) {
                0int
            } else {
                1int
            }),
    {
        let present = RbNode::<K, V>::find_in(&self.root, key).is_some();
        let root_taken = self.root.take();
        let new_root = RbNode::<K, V>::ins(root_taken, key, value);
        let mut boxed = match new_root {
            Option::Some(b) => b,
            Option::None => {
                proof {
                    assert(false);
                }
                unreached()
            },
        };
        let ghost b0 = boxed;
        boxed.color = Color::BLACK;
        proof {
            RbNode::<K, V>::lemma_color_blind(boxed, b0);
            RbNode::<K, V>::lemma_unfold(b0);
            RbNode::<K, V>::lemma_unfold(boxed);
            RbNode::<K, V>::lemma_map_finite(old(self).root);
            if old(self)@.dom().contains(key) {
                assert(old(self)@.insert(key, value).dom() =~= old(self)@.dom());
            } else {
                assert(old(self)@.insert(key, value).dom() =~= old(self)@.dom().insert(key));
            }
        }
        self.root = Option::Some(boxed);
        if !present {
            self.size = self.size + 1;
        }
    }

    /// Removes a key and hands back its pair; an absent key is reported as
    /// `NotFound` and leaves the tree untouched. All red-black invariants are
    /// preserved.
    pub fn delete(&mut self, key: K) -> (r: Result<(K, V), RbError>)
        requires
            old(self).wf(),
        ensures
            final(self).wf(),
            match r {
                Result::Ok(p) => old(self)@.dom().contains(key) && p.0 == key && p.1 == old(
                    self,
                )@[key] && final(self)@ == old(self)@.remove(key) && final(self).spec_size() + 1
                    == old(self).spec_size(),
                Result::Err(e) => e == RbError::NotFound && !old(self)@.dom().contains(key)
                    && *final(self) == *old(self),
            },
    {
        let root_taken = self.root.take();
        let ghost r0 = root_taken;
        let (new_root, removed, _) = RbNode::<K, V>::del(root_taken, key);
        self.root = new_root;
        match removed {
            Option::Some((k, v)) => {
                proof {
                    RbNode::<K, V>::lemma_map_finite(r0);
                    assert(RbNode::<K, V>::opt_as_map(r0).remove(key).dom()
                        =~= RbNode::<K, V>::opt_as_map(r0).dom().remove(key));
                }
                self.size = self.size - 1;
                Result::Ok((k, v))
            },
            Option::None => Result::Err(RbError::NotFound),
        }
    }

    /// Rule: the root is black (an empty tree counts as black).
    pub closed spec fn spec_root_black(self) -> bool {
        RbNode::<K, V>::opt_color(self.root) == Color::BLACK
    }

    /// Rule: no red node has a red child.
    pub closed spec fn spec_no_red_red(self) -> bool {
        RbNode::<K, V>::no_red_red(self.root)
    }

    /// Rule: every path from a node to a leaf passes the same number of
    /// black nodes.
    pub closed spec fn spec_bh_ok(self) -> bool {
        RbNode::<K, V>::bh_ok(self.root)
    }

    /// The red-black rules the validator checks.
    pub open spec fn rules_hold(self) -> bool {
        self.spec_root_black() && self.spec_no_red_red() && self.spec_bh_ok()
    }

    /// The depth of the tree.
    pub closed spec fn spec_height(self) -> nat {
        RbNode::<K, V>::height(self.root)
    }

    /// A well-formed tree passes the validator's rules, and is shallow
    /// enough for the validator's arithmetic.
    pub proof fn lemma_wf_valid(self)
        requires
            self.wf(),
        ensures
            self.rules_hold(),
            self.spec_height() <= self.spec_size(),
            self.spec_height() <= usize::MAX,
    {
        self.lemma_size_consistency();
        RbNode::<K, V>::lemma_height_le_inorder(self.root);
    }

    /// Size consistency: the size counter equals the length of the in-order
    /// sequence.
    pub proof fn lemma_size_consistency(self)
        requires
            self.wf(),
        ensures
            self.inorder_view().len() == self.spec_size(),
            self.inorder_view().len() == self@.dom().len(),
            self.spec_size() == self@.dom().len(),
    {
        RbNode::<K, V>::lemma_inorder_props(self.root);
    }

    /// Order preservation: the in-order sequence of a well-formed tree is
    /// strictly ascending in its keys.
    pub proof fn lemma_inorder_sorted(self)
        requires
            self.wf(),
        ensures
            RbNode::<K, V>::keys_strictly_sorted(self.inorder_view()),
    {
        RbNode::<K, V>::lemma_inorder_props(self.root);
    }

    /// The in-order sequence lists exactly the entries of the map view.
    pub proof fn lemma_inorder_entries(self)
        requires
            self.wf(),
        ensures
            forall|i: int|
                0 <= i < self.inorder_view().len() ==> self@.dom().contains(
                    (#[trigger] self.inorder_view()[i]).0,
                ) && self@[self.inorder_view()[i].0] == self.inorder_view()[i].1,
    {
        RbNode::<K, V>::lemma_inorder_props(self.root);
    }

    /// Black-height stability: a well-formed tree with `n` keys has black
    /// height at most `log2(n + 1)`, stated as `pow2(bh) <= n + 1`.
    pub proof fn lemma_black_height_bound(self)
        requires
            self.wf(),
        ensures
            pow2(self.black_height()) <= self.spec_size() + 1,
    {
        RbNode::<K, V>::lemma_bh_size(self.root);
    }

    /// Balance: the depth of a well-formed tree is at most twice its black
    /// height; with `lemma_black_height_bound` the tree of `n` keys is at
    /// most `2 * log2(n + 1)` deep and never degenerates into a chain.
    pub proof fn lemma_height_bound(self)
        requires
            self.wf(),
        ensures
            self.spec_height() <= 2 * self.black_height(),
    {
        RbNode::<K, V>::lemma_height_le_bh(self.root);
    }

    /// Round trip: inserting a pair makes it the one `find` reports for its
    /// key, until the key is written again or deleted.
    pub proof fn lemma_round_trip(pre: Self, post: Self, key: K, value: V)
        requires
            post@ == pre@.insert(key, value),
        ensures
            post@.dom().contains(key),
            post@[key] == value,
    {
    }

    /// Deletion completeness: after a successful delete the key is neither
    /// found nor listed by the in-order traversal.
    pub proof fn lemma_deletion_complete(pre: Self, post: Self, key: K)
        requires
            post.wf(),
            post@ == pre@.remove(key),
        ensures
            !post@.dom().contains(key),
            forall|i: int|
                0 <= i < post.inorder_view().len() ==> (#[trigger] post.inorder_view()[i]).0
                    != key,
    {
        RbNode::<K, V>::lemma_inorder_props(post.root);
    }

    /// Checks the red-black rules, reporting only whether all hold.
    pub fn is_valid_tree(&self) -> (r: bool)
        ensures
            self.spec_height() <= usize::MAX ==> r == self.rules_hold(),
    {
        match self.validate() {
            Result::Ok(_) => true,
            Result::Err(_) => false,
        }
    }

    /// Checks the red-black rules in order and reports the first broken one,
    /// or the root's black height when all hold.
    pub fn validate(&self) -> (r: Result<usize, RbError>)
        ensures
            self.spec_height() <= usize::MAX ==> match r {
                Result::Ok(h) => self.rules_hold() && h == self.black_height(),
                Result::Err(e) => {
                    &&& !self.rules_hold()
                    &&& (e == RbError::RootNotBlack <==> !self.spec_root_black())
                    &&& (e == RbError::RedRedViolation <==> self.spec_root_black()
                        && !self.spec_no_red_red())
                    &&& (e == RbError::BlackHeightMismatch <==> self.spec_root_black()
                        && self.spec_no_red_red() && !self.spec_bh_ok())
                },
            },
    {
        let root_black = !RbNode::<K, V>::is_red(&self.root);
        let (red_ok, bh_ok, h) = RbNode::<K, V>::validate_in(&self.root);
        if !root_black {
            Result::Err(RbError::RootNotBlack)
        } else if !red_ok {
            Result::Err(RbError::RedRedViolation)
        } else if !bh_ok {
            Result::Err(RbError::BlackHeightMismatch)
        } else {
            Result::Ok(h)
        }
    }

    /// The key-value pairs in ascending key order.
    pub fn inorder_traversal(&self) -> (r: Vec<(K, V)>)
        ensures
            r@ == self.inorder_view(),
    {
        let mut out: Vec<(K, V)> = Vec::new();
        RbNode::<K, V>::inorder_collect(&self.root, &mut out);
        proof {
            assert(out@ =~= self.inorder_view());
        }
        out
    }

    /// The keys in ascending order.
    pub fn inorder_key_traversal(&self) -> (r: Vec<K>)
        ensures
            r@ == self.inorder_view().map_values(|p: (K, V)| p.0),
    {
        let pairs = self.inorder_traversal();
        let mut out: Vec<K> = Vec::new();
        let mut i: usize = 0;
        while i < pairs.len()
            invariant
                i <= pairs.len(),
                pairs@ == self.inorder_view(),
                out@ == pairs@.take(i as int).map_values(|p: (K, V)| p.0),
            decreases pairs.len() - i,
        {
            out.push(pairs[i].0);
            i = i + 1;
            proof {
                assert(out@ =~= pairs@.take(i as int).map_values(|p: (K, V)| p.0));
            }
        }
        proof {
            assert(pairs@.take(pairs@.len() as int) =~= pairs@);
        }
        out
    }

    /// The values in ascending order of their keys.
    pub fn inorder_val_traversal(&self) -> (r: Vec<V>)
        ensures
            r@ == self.inorder_view().map_values(|p: (K, V)| p.1),
    {
        let pairs = self.inorder_traversal();
        let mut out: Vec<V> = Vec::new();
        let mut i: usize = 0;
        while i < pairs.len()
            invariant
                i <= pairs.len(),
                pairs@ == self.inorder_view(),
                out@ == pairs@.take(i as int).map_values(|p: (K, V)| p.1),
            decreases pairs.len() - i,
        {
            out.push(pairs[i].1);
            i = i + 1;
            proof {
                assert(out@ =~= pairs@.take(i as int).map_values(|p: (K, V)| p.1));
            }
        }
        proof {
            assert(pairs@.take(pairs@.len() as int) =~= pairs@);
        }
        out
    }

    /// The binary-search ordering alone, without the color rules: what the
    /// purely structural rotations preserve.
    pub closed spec fn bst_ordered(self) -> bool {
        RbNode::<K, V>::opt_ordered(self.root)
    }

    /// A well-formed tree is in particular search-ordered.
    pub proof fn lemma_wf_ordered(self)
        requires
            self.wf(),
        ensures
            self.bst_ordered(),
    {
    }

    /// Rotates left at the node holding `key`: the right child is promoted
    /// and the inner subtree re-hung, exactly as `rot_left_spec` describes;
    /// no color changes (the fix-up procedures recolor around their
    /// rotations). A missing key or a nil right child leaves the tree
    /// untouched.
    pub fn rotate_left(&mut self, key: K)
        requires
            old(self).bst_ordered(),
        ensures
            final(self).spec_root() == RbNode::<K, V>::rot_left_spec(
                old(self).spec_root(),
                key,
            ),
            final(self).bst_ordered(),
            final(self)@ == old(self)@,
            final(self).spec_size() == old(self).spec_size(),
    {
        let root = self.root.take();
        self.root = RbNode::<K, V>::rot_left_at(root, key);
    }

    /// Rotates right at the node holding `key`: the left child is promoted
    /// and the inner subtree re-hung, exactly as `rot_right_spec` describes;
    /// no color changes. A missing key or a nil left child leaves the tree
    /// untouched.
    pub fn rotate_right(&mut self, key: K)
        requires
            old(self).bst_ordered(),
        ensures
            final(self).spec_root() == RbNode::<K, V>::rot_right_spec(
                old(self).spec_root(),
                key,
            ),
            final(self).bst_ordered(),
            final(self)@ == old(self)@,
            final(self).spec_size() == old(self).spec_size(),
    {
        let root = self.root.take();
        self.root = RbNode::<K, V>::rot_right_at(root, key);
    }

    /// The smallest entry of the subtree rooted where the search for `key`
    /// ends: the in-order first entry at or below that node.
    pub fn succesor(&self, key: K) -> (r: Option<(K, V)>)
        requires
            self.wf(),
        ensures
            match r {
                Option::Some(p) => RbNode::<K, V>::subtree_at(self.spec_root(), key) is Some
                    && RbNode::<K, V>::opt_as_map(
                    RbNode::<K, V>::subtree_at(self.spec_root(), key),
                ).dom().contains(p.0) && RbNode::<K, V>::opt_as_map(
                    RbNode::<K, V>::subtree_at(self.spec_root(), key),
                )[p.0] == p.1 && RbNode::<K, V>::all_gt(
                    RbNode::<K, V>::opt_as_map(
                        RbNode::<K, V>::subtree_at(self.spec_root(), key),
                    ).remove(p.0),
                    p.0,
                ),
                Option::None => RbNode::<K, V>::subtree_at(self.spec_root(), key) is None,
            },
    {
        RbNode::<K, V>::succ_in(&self.root, key)
    }

    /// The entry that would replace the node holding `key` if it were
    /// removed: the smallest entry of its right subtree when both children
    /// exist, the lone child's entry when one exists, nothing for a leaf or
    /// an absent key.
    pub fn replace(&self, key: K) -> (r: Option<(K, V)>)
        requires
            self.wf(),
        ensures
            match RbNode::<K, V>::subtree_at(self.spec_root(), key) {
                Option::None => r is None,
                Option::Some(n) => match (n.left, n.right) {
                    (Option::None, Option::None) => r is None,
                    (Option::Some(l), Option::None) => r == RbNode::<K, V>::opt_entry(n.left),
                    (Option::None, Option::Some(rc)) => r == RbNode::<K, V>::opt_entry(n.right),
                    (Option::Some(l), Option::Some(rc)) => r is Some && RbNode::<
                        K,
                        V,
                    >::opt_as_map(n.right).dom().contains(r.unwrap().0) && RbNode::<
                        K,
                        V,
                    >::opt_as_map(n.right)[r.unwrap().0] == r.unwrap().1 && RbNode::<
                        K,
                        V,
                    >::all_gt(
                        RbNode::<K, V>::opt_as_map(n.right).remove(r.unwrap().0),
                        r.unwrap().0,
                    ),
                },
            },
    {
        RbNode::<K, V>::replace_in(&self.root, key)
    }

    /// The sibling of the node holding `key`, as its key-value pair.
    pub fn get_sibling(&self, key: K) -> (r: Option<(K, V)>)
        ensures
            r == RbNode::<K, V>::sibling_at(self.spec_root(), key),
    {
        RbNode::<K, V>::sibling_in(&self.root, key)
    }

    /// The uncle of the node holding `key`, as its key-value pair.
    pub fn get_uncle(&self, key: K) -> (r: Option<(K, V)>)
        ensures
            r == RbNode::<K, V>::uncle_at(self.spec_root(), key),
    {
        RbNode::<K, V>::uncle_in(&self.root, key)
    }

    /// True iff the node holding `key` exists and has a red child.
    pub fn has_red_child(&self, key: K) -> (r: bool)
        ensures
            r == (match RbNode::<K, V>::subtree_at(self.spec_root(), key) {
                Option::Some(n) => RbNode::<K, V>::opt_color(n.left) == Color::RED
                    || RbNode::<K, V>::opt_color(n.right) == Color::RED,
                Option::None => false,
            }),
    {
        RbNode::<K, V>::has_red_child_in(&self.root, key)
    }

    /// The key-value pairs in preorder: each node before its subtrees.
    pub fn preorder_traversal(&self) -> (r: Vec<(K, V)>)
        ensures
            r@ == RbNode::<K, V>::preorder_spec(self.spec_root()),
    {
        let mut out: Vec<(K, V)> = Vec::new();
        RbNode::<K, V>::preorder_collect(&self.root, &mut out);
        proof {
            assert(out@ =~= RbNode::<K, V>::preorder_spec(self.root));
        }
        out
    }

    /// The root branch, exposed for traversal specifications.
    pub closed spec fn spec_root(self) -> Option<Box<RbNode<K, V>>> {
        self.root
    }

    /// The key-value pairs in postorder: each node after its subtrees.
    pub fn postorder_traversal(&self) -> (r: Vec<(K, V)>)
        ensures
            r@ == RbNode::<K, V>::postorder_spec(self.spec_root()),
    {
        let mut out: Vec<(K, V)> = Vec::new();
        RbNode::<K, V>::postorder_collect(&self.root, &mut out);
        proof {
            assert(out@ =~= RbNode::<K, V>::postorder_spec(self.root));
        }
        out
    }
}

impl RbTree<i32, i32> {
    /// A sample tree of seven even keys, shaped by one deletion.
    pub fn get_tree1() -> (t: RbTree<i32, i32>)
        ensures
            t.wf(),
            t.spec_size() == 7,
            t@ == Map::<i32, i32>::empty().insert(2, 2).insert(4, 4).insert(6, 6).insert(
                8,
                8,
            ).insert(10, 10).insert(12, 12).insert(14, 14),
    {
        let mut tree = RbTree::<i32, i32>::new();
        tree.insert(2, 2);
        tree.insert(4, 4);
        tree.insert(6, 6);
        tree.insert(8, 8);
        tree.insert(10, 10);
        tree.insert(12, 12);
        tree.insert(14, 14);
        tree.insert(16, 16);
        let _ = tree.delete(16);
        proof {
            assert(tree@ =~= Map::<i32, i32>::empty().insert(2, 2).insert(4, 4).insert(
                6,
                6,
            ).insert(8, 8).insert(10, 10).insert(12, 12).insert(14, 14));
        }
        tree
    }

    /// A sample tree of ten even keys inserted in ascending order.
    pub fn get_tree2() -> (t: RbTree<i32, i32>)
        ensures
            t.wf(),
            t.spec_size() == 10,
            t@ == Map::<i32, i32>::empty().insert(2, 2).insert(4, 4).insert(6, 6).insert(
                8,
                8,
            ).insert(10, 10).insert(12, 12).insert(14, 14).insert(16, 16).insert(18, 18).insert(
                20,
                20,
            ),
    {
        let mut tree = RbTree::<i32, i32>::new();
        tree.insert(2, 2);
        tree.insert(4, 4);
        tree.insert(6, 6);
        tree.insert(8, 8);
        tree.insert(10, 10);
        tree.insert(12, 12);
        tree.insert(14, 14);
        tree.insert(16, 16);
        tree.insert(18, 18);
        tree.insert(20, 20);
        tree
    }

    /// A sample tree of ten even keys inserted in descending order.
    pub fn get_tree3() -> (t: RbTree<i32, i32>)
        ensures
            t.wf(),
            t.spec_size() == 10,
            t@ == Map::<i32, i32>::empty().insert(2, 2).insert(4, 4).insert(6, 6).insert(
                8,
                8,
            ).insert(10, 10).insert(12, 12).insert(14, 14).insert(16, 16).insert(18, 18).insert(
                20,
                20,
            ),
    {
        let mut tree = RbTree::<i32, i32>::new();
        tree.insert(20, 20);
        tree.insert(18, 18);
        tree.insert(16, 16);
        tree.insert(14, 14);
        tree.insert(12, 12);
        tree.insert(10, 10);
        tree.insert(8, 8);
        tree.insert(6, 6);
        tree.insert(4, 4);
        tree.insert(2, 2);
        proof {
            assert(tree@ =~= Map::<i32, i32>::empty().insert(2, 2).insert(4, 4).insert(
                6,
                6,
            ).insert(8, 8).insert(10, 10).insert(12, 12).insert(14, 14).insert(16, 16).insert(
                18,
                18,
            ).insert(20, 20));
        }
        tree
    }
}

impl<K: Key, V: Value> View for RbTree<K, V> {
    type V = Map<K, V>;

    open spec fn view(&self) -> Map<K, V> {
        self.as_map()
    }
}

} // verus!
