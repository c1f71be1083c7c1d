//! Ghost model of the node graph.
//!
//! A [`Shape`] is a mathematical binary tree carrying, for every node, the
//! arena index it lives at together with its key and value.  The predicate
//! [`mirrors`] ties a shape to the arena: it says that following the child
//! links from a given slot reproduces exactly the shape, and that every
//! node's parent link points back at the slot it hangs under.  All tree
//! operations are specified and proved against this model.

use vstd::prelude::*;

use crate::node::TreeNode;

verus! {

/// The mathematical tree a well-formed arena spells out.
pub ghost enum Shape<V> {
    Nil,
    Node { idx: int, key: i64, value: V, left: Box<Shape<V>>, right: Box<Shape<V>> },
}

/// `lo < k < hi`, where a missing bound is no bound.
pub open spec fn in_range(k: i64, lo: Option<i64>, hi: Option<i64>) -> bool {
    &&& (match lo {
        Option::None => true,
        Option::Some(l) => l < k,
    })
    &&& (match hi {
        Option::None => true,
        Option::Some(h) => k < h,
    })
}

impl<V> Shape<V> {
    /// A node with the given slot, pair and subtrees.
    pub open spec fn branch(idx: int, key: i64, value: V, left: Shape<V>, right: Shape<V>) -> Shape<
        V,
    > {
        Shape::Node { idx, key, value, left: Box::new(left), right: Box::new(right) }
    }

    /// Number of nodes.
    pub open spec fn count(self) -> nat
        decreases self,
    {
        match self {
            Shape::Nil => 0,
            Shape::Node { left, right, .. } => left.count() + right.count() + 1,
        }
    }

    /// The arena indices of the nodes, in in-order.
    pub open spec fn idx_seq(self) -> Seq<int>
        decreases self,
    {
        match self {
            Shape::Nil => Seq::empty(),
            Shape::Node { idx, left, right, .. } => left.idx_seq() + seq![idx] + right.idx_seq(),
        }
    }

    /// The key/value pairs of the nodes, in in-order.
    pub open spec fn pair_seq(self) -> Seq<(i64, V)>
        decreases self,
    {
        match self {
            Shape::Nil => Seq::empty(),
            Shape::Node { key, value, left, right, .. } => left.pair_seq() + seq![(key, value)]
                + right.pair_seq(),
        }
    }

    /// Does some node sit at arena index `i`?
    pub open spec fn has_idx(self, i: int) -> bool
        decreases self,
    {
        match self {
            Shape::Nil => false,
            Shape::Node { idx, left, right, .. } => i == idx || left.has_idx(i) || right.has_idx(
                i,
            ),
        }
    }

    /// No arena index occurs twice.
    pub open spec fn distinct(self) -> bool
        decreases self,
    {
        match self {
            Shape::Nil => true,
            Shape::Node { idx, left, right, .. } => {
                &&& left.distinct()
                &&& right.distinct()
                &&& !left.has_idx(idx)
                &&& !right.has_idx(idx)
                &&& forall|i: int| #[trigger] left.has_idx(i) ==> !right.has_idx(i)
            },
        }
    }

    /// Binary-search-tree order, with all keys strictly inside `(lo, hi)`.
    pub open spec fn bst_in(self, lo: Option<i64>, hi: Option<i64>) -> bool
        decreases self,
    {
        match self {
            Shape::Nil => true,
            Shape::Node { key, left, right, .. } => {
                &&& in_range(key, lo, hi)
                &&& left.bst_in(lo, Option::Some(key))
                &&& right.bst_in(Option::Some(key), hi)
            },
        }
    }

    /// The shape after hanging `l` off the leftmost empty slot: `l`'s
    /// nodes come before all of `self`'s in in-order.  This is how
    /// deletion reattaches the left subtree of a removed node below the
    /// leftmost descendant of its right subtree.
    pub open spec fn attach_leftmost(self, l: Shape<V>) -> Shape<V>
        decreases self,
    {
        match self {
            Shape::Nil => l,
            Shape::Node { idx, key, value, left, right } => Shape::Node {
                idx,
                key,
                value,
                left: Box::new(left.attach_leftmost(l)),
                right,
            },
        }
    }

    /// What insertion does to the tree, as a function of the shape: the
    /// descent from the root compares keys; an equal key replaces the
    /// value in place; otherwise the new node, in slot `i`, hangs at the
    /// empty child slot where the descent ends.
    pub open spec fn spec_insert(self, i: int, key: i64, value: V) -> Shape<V>
        decreases self,
    {
        match self {
            Shape::Nil => Shape::branch(i, key, value, Shape::Nil, Shape::Nil),
            Shape::Node { idx, key: k, value: v, left, right } => if key == k {
                Shape::Node { idx, key: k, value, left, right }
            } else if key < k {
                Shape::Node {
                    idx,
                    key: k,
                    value: v,
                    left: Box::new(left.spec_insert(i, key, value)),
                    right,
                }
            } else {
                Shape::Node {
                    idx,
                    key: k,
                    value: v,
                    left,
                    right: Box::new(right.spec_insert(i, key, value)),
                }
            },
        }
    }

    /// What deletion does to the tree, as a function of the shape: the
    /// node holding `key` is cut out; a missing child lets the other one
    /// be promoted into its place, and with both children present the
    /// right child takes the place while the left subtree is reattached
    /// under its leftmost descendant.
    pub open spec fn spec_delete(self, key: i64) -> Shape<V>
        decreases self,
    {
        match self {
            Shape::Nil => Shape::Nil,
            Shape::Node { idx, key: k, value: v, left, right } => if key < k {
                Shape::Node {
                    idx,
                    key: k,
                    value: v,
                    left: Box::new(left.spec_delete(key)),
                    right,
                }
            } else if k < key {
                Shape::Node {
                    idx,
                    key: k,
                    value: v,
                    left,
                    right: Box::new(right.spec_delete(key)),
                }
            } else if *left is Nil {
                *right
            } else if *right is Nil {
                *left
            } else {
                right.attach_leftmost(*left)
            },
        }
    }

    /// The subtree rooted at the node in slot `i` (the whole tree when
    /// `i` is the root's slot).
    pub open spec fn sub_at(self, i: int) -> Shape<V>
        decreases self,
    {
        match self {
            Shape::Nil => self,
            Shape::Node { idx, left, right, .. } => if idx == i {
                self
            } else if left.has_idx(i) {
                left.sub_at(i)
            } else {
                right.sub_at(i)
            },
        }
    }

    /// Where the in-order walk of the subtree of slot `i` begins within
    /// the walk of the whole tree.
    pub open spec fn off_of(self, i: int) -> int
        decreases self,
    {
        match self {
            Shape::Nil => 0,
            Shape::Node { idx, left, right, .. } => if idx == i {
                0
            } else if left.has_idx(i) {
                left.off_of(i)
            } else {
                left.count() + 1 + right.off_of(i)
            },
        }
    }

    /// The slot of the parent of the node in slot `i`; `None` for the
    /// root.
    pub open spec fn parent_of(self, i: int) -> Option<int>
        decreases self,
    {
        match self {
            Shape::Nil => Option::None,
            Shape::Node { idx, left, right, .. } => if idx == i {
                Option::None
            } else if left.has_idx(i) {
                if (*left)->idx == i {
                    Option::Some(idx)
                } else {
                    left.parent_of(i)
                }
            } else {
                if (*right)->idx == i {
                    Option::Some(idx)
                } else {
                    right.parent_of(i)
                }
            },
        }
    }

    /// The finite map from live keys to their values.
    pub open spec fn as_map(self) -> Map<i64, V>
        decreases self,
    {
        match self {
            Shape::Nil => Map::empty(),
            Shape::Node { key, value, left, right, .. } => left.as_map().union_prefer_right(
                right.as_map(),
            ).insert(key, value),
        }
    }
}

/// Following the child links of `nodes` from the slot named by `link`
/// spells out exactly the shape `s`, every node's parent field points at
/// the slot it hangs under (`parent` for the top of `s`), and every index
/// on the way is a live slot of the arena.
pub open(crate) spec fn mirrors<V>(
    s: Shape<V>,
    nodes: Seq<Option<TreeNode<V>>>,
    link: Option<usize>,
    parent: Option<usize>,
) -> bool
    decreases s,
{
    match s {
        Shape::Nil => link is None,
        Shape::Node { idx, key, value, left, right } => {
            &&& link is Some
            &&& link.unwrap() as int == idx
            &&& 0 <= idx < nodes.len()
            &&& nodes[idx] is Some
            &&& nodes[idx].unwrap().key == key
            &&& nodes[idx].unwrap().value == value
            &&& nodes[idx].unwrap().parent == parent
            &&& mirrors(*left, nodes, nodes[idx].unwrap().left, link)
            &&& mirrors(*right, nodes, nodes[idx].unwrap().right, link)
        },
    }
}

/// What holds of the empty shape.
pub proof fn lemma_nil<V>(nodes: Seq<Option<TreeNode<V>>>, parent: Option<usize>)
    ensures
        mirrors(Shape::<V>::Nil, nodes, Option::None, parent),
        Shape::<V>::Nil.count() == 0,
        Shape::<V>::Nil.distinct(),
        Shape::<V>::Nil.as_map() == Map::<i64, V>::empty(),
        Shape::<V>::Nil.idx_seq() == Seq::<int>::empty(),
        Shape::<V>::Nil.pair_seq() == Seq::<(i64, V)>::empty(),
        forall|lo: Option<i64>, hi: Option<i64>| Shape::<V>::Nil.bst_in(lo, hi),
        forall|i: int| !Shape::<V>::Nil.has_idx(i),
{
}

/// What holds of a leaf: a single node with no children.
pub proof fn lemma_leaf<V>(idx: int, key: i64, value: V)
    ensures
        Shape::branch(idx, key, value, Shape::Nil, Shape::Nil).count() == 1,
        Shape::branch(idx, key, value, Shape::Nil, Shape::Nil).distinct(),
        Shape::branch(idx, key, value, Shape::Nil, Shape::Nil).as_map() == Map::<i64,
            V>::empty().insert(key, value),
        Shape::branch(idx, key, value, Shape::Nil, Shape::Nil).idx_seq() =~= seq![idx],
        Shape::branch(idx, key, value, Shape::Nil, Shape::Nil).pair_seq() =~= seq![(key, value)],
        forall|lo: Option<i64>, hi: Option<i64>|
            in_range(key, lo, hi) ==> #[trigger] Shape::branch(
                idx,
                key,
                value,
                Shape::Nil,
                Shape::Nil,
            ).bst_in(lo, hi),
        forall|i: int|
            #[trigger] Shape::branch(idx, key, value, Shape::Nil, Shape::Nil).has_idx(i) <==> i
                == idx,
{
    let leaf = Shape::branch(idx, key, value, Shape::Nil, Shape::Nil);
    assert(Shape::<V>::Nil.count() == 0);
    assert(Shape::<V>::Nil.distinct());
    assert(Shape::<V>::Nil.as_map() =~= Map::<i64, V>::empty());
    assert(Shape::<V>::Nil.idx_seq() =~= Seq::<int>::empty());
    assert(Shape::<V>::Nil.pair_seq() =~= Seq::<(i64, V)>::empty());
    assert(leaf.as_map() =~= Map::<i64, V>::empty().insert(key, value));
    assert(leaf.idx_seq() =~= seq![idx]);
    assert(leaf.pair_seq() =~= seq![(key, value)]);
    assert forall|lo: Option<i64>, hi: Option<i64>| in_range(key, lo, hi) implies #[trigger] leaf
        .bst_in(lo, hi) by {
        assert(Shape::<V>::Nil.bst_in(lo, Option::Some(key)));
        assert(Shape::<V>::Nil.bst_in(Option::Some(key), hi));
    }
    assert forall|i: int| #[trigger] leaf.has_idx(i) <==> i == idx by {
        assert(!Shape::<V>::Nil.has_idx(i));
    }
}

/// The in-order sequences are as long as the node count.
pub proof fn lemma_seq_lens<V>(s: Shape<V>)
    ensures
        s.idx_seq().len() == s.count(),
        s.pair_seq().len() == s.count(),
    decreases s,
{
    match s {
        Shape::Nil => {},
        Shape::Node { left, right, .. } => {
            lemma_seq_lens(*left);
            lemma_seq_lens(*right);
        },
    }
}

/// `mirrors` only looks at the slots the shape occupies: it survives any
/// change to the rest of the arena, including growth.
pub proof fn lemma_mirrors_frame<V>(
    s: Shape<V>,
    n1: Seq<Option<TreeNode<V>>>,
    n2: Seq<Option<TreeNode<V>>>,
    link: Option<usize>,
    parent: Option<usize>,
)
    requires
        mirrors(s, n1, link, parent),
        n1.len() <= n2.len(),
        forall|i: int| #[trigger] s.has_idx(i) ==> n2[i] == n1[i],
    ensures
        mirrors(s, n2, link, parent),
    decreases s,
{
    match s {
        Shape::Nil => {},
        Shape::Node { idx, left, right, .. } => {
            assert(s.has_idx(idx));
            assert(forall|i: int| #[trigger] left.has_idx(i) ==> s.has_idx(i));
            assert(forall|i: int| #[trigger] right.has_idx(i) ==> s.has_idx(i));
            lemma_mirrors_frame(*left, n1, n2, n1[idx].unwrap().left, link);
            lemma_mirrors_frame(*right, n1, n2, n1[idx].unwrap().right, link);
        },
    }
}

/// Every index a matching shape occupies is a live slot of the arena.
pub proof fn lemma_mirrors_in_bounds<V>(
    s: Shape<V>,
    nodes: Seq<Option<TreeNode<V>>>,
    link: Option<usize>,
    parent: Option<usize>,
)
    requires
        mirrors(s, nodes, link, parent),
    ensures
        forall|i: int| #[trigger] s.has_idx(i) ==> 0 <= i < nodes.len() && nodes[i] is Some,
    decreases s,
{
    match s {
        Shape::Nil => {
            assert(forall|i: int| !s.has_idx(i));
        },
        Shape::Node { idx, left, right, .. } => {
            lemma_mirrors_in_bounds(*left, nodes, nodes[idx].unwrap().left, link);
            lemma_mirrors_in_bounds(*right, nodes, nodes[idx].unwrap().right, link);
            assert forall|i: int| #[trigger] s.has_idx(i) implies 0 <= i < nodes.len() && nodes[i]
                is Some by {
                if i == idx {
                } else if left.has_idx(i) {
                } else {
                    assert(right.has_idx(i));
                }
            }
        },
    }
}

/// In a matching arena, the in-order position `j` is held by the slot
/// `idx_seq()[j]`, and that slot carries the pair `pair_seq()[j]`.
pub(crate) proof fn lemma_mirrors_ord<V>(
    s: Shape<V>,
    nodes: Seq<Option<TreeNode<V>>>,
    link: Option<usize>,
    parent: Option<usize>,
)
    requires
        mirrors(s, nodes, link, parent),
    ensures
        s.idx_seq().len() == s.count(),
        s.pair_seq().len() == s.count(),
        forall|j: int|
            0 <= j < s.count() ==> 0 <= #[trigger] s.idx_seq()[j] < nodes.len() && nodes[s.idx_seq()[j]] is Some
                && nodes[s.idx_seq()[j]].unwrap().key == s.pair_seq()[j].0
                && nodes[s.idx_seq()[j]].unwrap().value == s.pair_seq()[j].1,
    decreases s,
{
    lemma_seq_lens(s);
    match s {
        Shape::Nil => {},
        Shape::Node { idx, left, right, .. } => {
            lemma_seq_lens(*left);
            lemma_seq_lens(*right);
            lemma_mirrors_ord(*left, nodes, nodes[idx].unwrap().left, link);
            lemma_mirrors_ord(*right, nodes, nodes[idx].unwrap().right, link);
            assert forall|j: int| 0 <= j < s.count() implies 0 <= #[trigger] s.idx_seq()[j]
                < nodes.len() && nodes[s.idx_seq()[j]] is Some && nodes[s.idx_seq()[j]].unwrap().key
                == s.pair_seq()[j].0 && nodes[s.idx_seq()[j]].unwrap().value == s.pair_seq()[j].1 by {
                let lc = left.count() as int;
                if j < lc {
                    assert(s.idx_seq()[j] == left.idx_seq()[j]);
                    assert(s.pair_seq()[j] == left.pair_seq()[j]);
                } else if j == lc {
                    assert(s.idx_seq()[j] == idx);
                } else {
                    assert(s.idx_seq()[j] == right.idx_seq()[j - lc - 1]);
                    assert(s.pair_seq()[j] == right.pair_seq()[j - lc - 1]);
                }
            }
        },
    }
}

/// Loosening the bounds keeps a tree in search order.
pub proof fn lemma_bst_widen<V>(
    s: Shape<V>,
    lo1: Option<i64>,
    hi1: Option<i64>,
    lo2: Option<i64>,
    hi2: Option<i64>,
)
    requires
        s.bst_in(lo1, hi1),
        lo2 is Some ==> lo1 is Some && lo2.unwrap() <= lo1.unwrap(),
        hi2 is Some ==> hi1 is Some && hi1.unwrap() <= hi2.unwrap(),
    ensures
        s.bst_in(lo2, hi2),
    decreases s,
{
    match s {
        Shape::Nil => {},
        Shape::Node { key, left, right, .. } => {
            lemma_bst_widen(*left, lo1, Option::Some(key), lo2, Option::Some(key));
            lemma_bst_widen(*right, Option::Some(key), hi1, Option::Some(key), hi2);
        },
    }
}

/// What `attach_leftmost` does to the counts, sequences, slots and map:
/// the attached tree comes first in in-order, and the map is the union.
pub proof fn lemma_attach_props<V>(r: Shape<V>, l: Shape<V>)
    ensures
        r.attach_leftmost(l).count() == r.count() + l.count(),
        r.attach_leftmost(l).idx_seq() =~= l.idx_seq() + r.idx_seq(),
        r.attach_leftmost(l).pair_seq() =~= l.pair_seq() + r.pair_seq(),
        r.attach_leftmost(l).as_map() =~= l.as_map().union_prefer_right(r.as_map()),
        forall|i: int|
            #[trigger] r.attach_leftmost(l).has_idx(i) <==> r.has_idx(i) || l.has_idx(i),
    decreases r,
{
    match r {
        Shape::Nil => {
            assert(r.attach_leftmost(l) == l);
            assert(r.as_map() =~= Map::<i64, V>::empty());
            assert(r.attach_leftmost(l).as_map() =~= l.as_map().union_prefer_right(r.as_map()));
            assert(r.idx_seq() =~= Seq::<int>::empty());
            assert(r.pair_seq() =~= Seq::<(i64, V)>::empty());
            assert forall|i: int|
                #[trigger] r.attach_leftmost(l).has_idx(i) <==> r.has_idx(i) || l.has_idx(i) by {
                assert(!r.has_idx(i));
            }
        },
        Shape::Node { idx, key, value, left, right } => {
            lemma_attach_props(*left, l);
            assert(r.attach_leftmost(l).as_map() =~= l.as_map().union_prefer_right(r.as_map()));
            assert(r.attach_leftmost(l).idx_seq() =~= l.idx_seq() + r.idx_seq());
            assert(r.attach_leftmost(l).pair_seq() =~= l.pair_seq() + r.pair_seq());
            assert forall|i: int|
                #[trigger] r.attach_leftmost(l).has_idx(i) <==> r.has_idx(i) || l.has_idx(i) by {
                assert(r.attach_leftmost(l).has_idx(i) == (i == idx || left.attach_leftmost(
                    l,
                ).has_idx(i) || right.has_idx(i)));
                assert(r.has_idx(i) == (i == idx || left.has_idx(i) || right.has_idx(i)));
            }
        },
    }
}

/// Attaching below the leftmost slot keeps the indices distinct, provided
/// the two trees share none.
pub proof fn lemma_attach_distinct<V>(r: Shape<V>, l: Shape<V>)
    requires
        r.distinct(),
        l.distinct(),
        forall|i: int| #[trigger] l.has_idx(i) ==> !r.has_idx(i),
    ensures
        r.attach_leftmost(l).distinct(),
    decreases r,
{
    match r {
        Shape::Nil => {},
        Shape::Node { idx, left, right, .. } => {
            assert forall|i: int| #[trigger] l.has_idx(i) implies !(*left).has_idx(i) by {
                assert(r.has_idx(i) == (i == idx || left.has_idx(i) || right.has_idx(i)));
            }
            lemma_attach_distinct(*left, l);
            lemma_attach_props(*left, l);
            assert(!left.attach_leftmost(l).has_idx(idx));
            assert forall|i: int| #[trigger] left.attach_leftmost(l).has_idx(i) implies !right
                .has_idx(i) by {
                if l.has_idx(i) {
                    assert(!r.has_idx(i));
                }
            }
        },
    }
}

/// Attaching below the leftmost slot keeps search order when every key of
/// the attached tree is below `k` and every key of the host is above it.
pub proof fn lemma_attach_bst<V>(r: Shape<V>, l: Shape<V>, k: i64, lo: Option<i64>, hi: Option<
    i64,
>)
    requires
        l.bst_in(lo, Option::Some(k)),
        r.bst_in(Option::Some(k), hi),
        in_range(k, lo, hi),
    ensures
        r.attach_leftmost(l).bst_in(lo, hi),
    decreases r,
{
    match r {
        Shape::Nil => {
            lemma_bst_widen(l, lo, Option::Some(k), lo, hi);
        },
        Shape::Node { key, left, right, .. } => {
            lemma_attach_bst(*left, l, k, lo, Option::Some(key));
        },
    }
}

/// After the two-child rewiring, the arena spells out the reattached
/// shape.  `r` is the right subtree of the removed node as it stood in
/// the old arena `n0`, rooted at slot `ri`; `s_idx` is its leftmost slot.
/// In the new arena `n2`, the left subtree `l` hangs at slot `li` under
/// `s_idx`, the slot `s_idx` gained `li` as its left child, and `ri` was
/// given the removed node's parent `pn`; all other slots of `r` stand as
/// before.
pub(crate) proof fn lemma_attach_mirrors<V>(
    r: Shape<V>,
    l: Shape<V>,
    n0: Seq<Option<TreeNode<V>>>,
    n2: Seq<Option<TreeNode<V>>>,
    ri: usize,
    s_idx: usize,
    li: usize,
    po: Option<usize>,
    pn: Option<usize>,
)
    requires
        mirrors(r, n0, Option::Some(ri), po),
        r.distinct(),
        mirrors(l, n2, Option::Some(li), Option::Some(s_idx)),
        s_idx as int == r.idx_seq()[0],
        n0.len() <= n2.len(),
        forall|j: int|
            #[trigger] r.has_idx(j) && j != s_idx as int && j != ri as int ==> n2[j] == n0[j],
        n2[s_idx as int] is Some,
        n2[s_idx as int].unwrap().key == n0[s_idx as int].unwrap().key,
        n2[s_idx as int].unwrap().value == n0[s_idx as int].unwrap().value,
        n2[s_idx as int].unwrap().right == n0[s_idx as int].unwrap().right,
        n2[s_idx as int].unwrap().left == Option::Some(li),
        s_idx != ri ==> n2[s_idx as int].unwrap().parent == n0[s_idx as int].unwrap().parent,
        n2[ri as int] is Some,
        n2[ri as int].unwrap().key == n0[ri as int].unwrap().key,
        n2[ri as int].unwrap().value == n0[ri as int].unwrap().value,
        n2[ri as int].unwrap().right == n0[ri as int].unwrap().right,
        n2[ri as int].unwrap().parent == pn,
        s_idx != ri ==> n2[ri as int].unwrap().left == n0[ri as int].unwrap().left,
    ensures
        mirrors(r.attach_leftmost(l), n2, Option::Some(ri), pn),
    decreases r,
{
    match r {
        Shape::Nil => {},
        Shape::Node { idx, left, right, .. } => {
            lemma_seq_lens(*left);
            if *left is Node {
                assert(r.idx_seq()[0] == (*left).idx_seq()[0]);
                lemma_idx_seq_has(*left, 0);
                assert((*left).has_idx(s_idx as int));
                assert(s_idx != ri);
            } else {
                assert((*left).idx_seq() =~= Seq::<int>::empty());
                assert(r.idx_seq()[0] == idx);
                assert(s_idx == ri);
            }
            assert forall|j: int| #[trigger] right.has_idx(j) implies n2[j] == n0[j] by {
                assert(r.has_idx(j));
                assert(j != idx);
                if *left is Node {
                    assert((*left).has_idx(s_idx as int));
                    assert(j != s_idx as int);
                } else {
                    assert(j != s_idx as int);
                }
            }
            lemma_mirrors_frame(*right, n0, n2, n0[idx].unwrap().right, Option::Some(ri));
            match *left {
                Shape::Nil => {
                    assert((*left).attach_leftmost(l) == l);
                    assert(mirrors(l, n2, Option::Some(li), Option::Some(ri)));
                },
                Shape::Node { .. } => {
                    assert(mirrors(*left, n0, n0[idx].unwrap().left, Option::Some(ri)));
                    assert(n0[idx].unwrap().left is Some);
                    let l_root = n0[idx].unwrap().left.unwrap();
                    assert(mirrors(*left, n0, Option::Some(l_root), Option::Some(ri)));
                    assert((*left).has_idx(l_root as int));
                    assert(l_root as int != idx);
                    assert(r.has_idx(l_root as int));
                    assert forall|j: int|
                        #[trigger] (*left).has_idx(j) && j != s_idx as int && j != l_root as int
                        implies n2[j] == n0[j] by {
                        assert(r.has_idx(j));
                    }
                    assert(n2[l_root as int].unwrap().parent == Option::Some(ri)) by {
                        if l_root != s_idx {
                            assert((*left).has_idx(l_root as int));
                            assert(r.has_idx(l_root as int));
                            assert(l_root as int != ri as int);
                            assert(n2[l_root as int] == n0[l_root as int]);
                        }
                    }
                    lemma_attach_mirrors(
                        *left,
                        l,
                        n0,
                        n2,
                        l_root,
                        s_idx,
                        li,
                        Option::Some(ri),
                        Option::Some(ri),
                    );
                },
            }
        },
    }
}

/// Each in-order position names an index the shape holds.
pub proof fn lemma_idx_seq_has<V>(s: Shape<V>, j: int)
    requires
        0 <= j < s.idx_seq().len(),
    ensures
        s.has_idx(s.idx_seq()[j]),
    decreases s,
{
    match s {
        Shape::Nil => {},
        Shape::Node { idx, left, right, .. } => {
            lemma_seq_lens(*left);
            lemma_seq_lens(*right);
            let lc = left.idx_seq().len() as int;
            if j < lc {
                lemma_idx_seq_has(*left, j);
            } else if j == lc {
            } else {
                lemma_idx_seq_has(*right, j - lc - 1);
            }
        },
    }
}

/// With distinct slots, the in-order walk names each slot once.
pub proof fn lemma_idx_seq_no_dup<V>(s: Shape<V>)
    requires
        s.distinct(),
    ensures
        forall|a: int, b: int|
            0 <= a < b < s.idx_seq().len() ==> #[trigger] s.idx_seq()[a] != #[trigger] s.idx_seq()[b],
    decreases s,
{
    match s {
        Shape::Nil => {},
        Shape::Node { idx, left, right, .. } => {
            lemma_seq_lens(*left);
            lemma_seq_lens(*right);
            lemma_idx_seq_no_dup(*left);
            lemma_idx_seq_no_dup(*right);
            let lc = left.idx_seq().len() as int;
            assert forall|a: int, b: int| 0 <= a < b < s.idx_seq().len() implies s.idx_seq()[a]
                != s.idx_seq()[b] by {
                if b < lc {
                    assert(s.idx_seq()[a] == left.idx_seq()[a]);
                    assert(s.idx_seq()[b] == left.idx_seq()[b]);
                } else if a > lc {
                    assert(s.idx_seq()[a] == right.idx_seq()[a - lc - 1]);
                    assert(s.idx_seq()[b] == right.idx_seq()[b - lc - 1]);
                } else if a < lc && b == lc {
                    lemma_idx_seq_has(*left, a);
                    assert(s.idx_seq()[a] == left.idx_seq()[a]);
                } else if a < lc && b > lc {
                    lemma_idx_seq_has(*left, a);
                    lemma_idx_seq_has(*right, b - lc - 1);
                    assert(s.idx_seq()[a] == left.idx_seq()[a]);
                    assert(s.idx_seq()[b] == right.idx_seq()[b - lc - 1]);
                } else {
                    assert(a == lc && b > lc);
                    lemma_idx_seq_has(*right, b - lc - 1);
                    assert(s.idx_seq()[b] == right.idx_seq()[b - lc - 1]);
                }
            }
        },
    }
}

/// Navigation from a slot: the subtree hanging there, its stretch of the
/// in-order walk, its mirror in the arena, and — through `parent_of` —
/// which side of its parent it hangs on and how the two walks align.
pub(crate) proof fn lemma_nav<V>(
    s: Shape<V>,
    nodes: Seq<Option<TreeNode<V>>>,
    link: Option<usize>,
    pp: Option<usize>,
    lo: Option<i64>,
    hi: Option<i64>,
    i: int,
)
    requires
        mirrors(s, nodes, link, pp),
        s.distinct(),
        s.bst_in(lo, hi),
        s.has_idx(i),
    ensures
        s.sub_at(i) is Node,
        s.sub_at(i)->idx == i,
        s.sub_at(i).distinct(),
        s.sub_at(i).bst_in(Option::None, Option::None),
        0 <= s.off_of(i),
        s.off_of(i) + s.sub_at(i).count() <= s.count(),
        s.idx_seq().subrange(s.off_of(i), s.off_of(i) + s.sub_at(i).count() as int) == s.sub_at(
            i,
        ).idx_seq(),
        0 <= i < nodes.len(),
        mirrors(
            s.sub_at(i),
            nodes,
            Option::Some(i as usize),
            match s.parent_of(i) {
                Option::None => pp,
                Option::Some(p) => Option::Some(p as usize),
            },
        ),
        s.parent_of(i) is None ==> s.sub_at(i) == s && s.off_of(i) == 0,
        s.parent_of(i) matches Option::Some(p) ==> s.has_idx(p) && s.sub_at(p) is Node
            && s.sub_at(p)->idx == p && ((*s.sub_at(p)->left == s.sub_at(i) && s.off_of(i)
            == s.off_of(p) && s.sub_at(i)->key < s.sub_at(p)->key) || (*s.sub_at(p)->right
            == s.sub_at(i) && s.off_of(i) == s.off_of(p) + (*s.sub_at(p)->left).count() + 1
            && s.sub_at(p)->key < s.sub_at(i)->key)),
    decreases s,
{
    lemma_seq_lens(s);
    match s {
        Shape::Nil => {},
        Shape::Node { idx, key, left, right, .. } => {
            lemma_seq_lens(*left);
            lemma_seq_lens(*right);
            let lc = left.count() as int;
            if idx == i {
                assert(s.idx_seq().subrange(0, s.count() as int) =~= s.idx_seq());
                lemma_bst_widen(s, lo, hi, Option::None, Option::None);
                assert(Option::Some(i as usize) == link);
            } else if left.has_idx(i) {
                lemma_nav(*left, nodes, nodes[idx].unwrap().left, link, lo, Option::Some(key), i);
                assert(s.sub_at(i) == left.sub_at(i));
                assert(s.off_of(i) == left.off_of(i));
                let off = left.off_of(i);
                let cnt = left.sub_at(i).count() as int;
                assert(s.idx_seq().subrange(off, off + cnt) =~= left.idx_seq().subrange(
                    off,
                    off + cnt,
                ));
                if (*left)->idx == i {
                    // `i` is the root of the left child: its parent is this node
                    assert((*left).parent_of(i) is None);
                    assert(left.sub_at(i) == *left);
                    assert(s.parent_of(i) == Option::Some(idx));
                    assert(s.sub_at(idx) == s);
                    assert(s.off_of(idx) == 0);
                    assert((*left).bst_in(lo, Option::Some(key)));
                    assert(s.sub_at(i)->key < key);
                    assert(mirrors(*left, nodes, nodes[idx].unwrap().left, link));
                    assert(nodes[idx].unwrap().left is Some);
                    assert(nodes[idx].unwrap().left.unwrap() as int == i);
                    assert(Option::Some(i as usize) == nodes[idx].unwrap().left);
                } else {
                    assert((*left).parent_of(i) is Some);
                    let p = (*left).parent_of(i).unwrap();
                    assert(s.parent_of(i) == Option::Some(p));
                    assert(p != idx);
                    assert(s.sub_at(p) == left.sub_at(p));
                    assert(s.off_of(p) == left.off_of(p));
                }
            } else {
                assert(right.has_idx(i));
                lemma_nav(*right, nodes, nodes[idx].unwrap().right, link, Option::Some(key), hi, i);
                assert(s.sub_at(i) == right.sub_at(i));
                assert(s.off_of(i) == lc + 1 + right.off_of(i));
                let off = right.off_of(i);
                let cnt = right.sub_at(i).count() as int;
                assert forall|j: int| 0 <= j < cnt implies s.idx_seq()[lc + 1 + off + j]
                    == #[trigger] right.idx_seq()[off + j] by {}
                assert(s.idx_seq().subrange(lc + 1 + off, lc + 1 + off + cnt) =~= right.idx_seq()
                    .subrange(off, off + cnt));
                if (*right)->idx == i {
                    assert((*right).parent_of(i) is None);
                    assert(right.sub_at(i) == *right);
                    assert(s.parent_of(i) == Option::Some(idx));
                    assert(s.sub_at(idx) == s);
                    assert(s.off_of(idx) == 0);
                    assert((*right).bst_in(Option::Some(key), hi));
                    assert(key < s.sub_at(i)->key);
                    assert(s.off_of(i) == s.off_of(idx) + (*s.sub_at(idx)->left).count() + 1);
                    assert(mirrors(*right, nodes, nodes[idx].unwrap().right, link));
                    assert(nodes[idx].unwrap().right is Some);
                    assert(nodes[idx].unwrap().right.unwrap() as int == i);
                    assert(Option::Some(i as usize) == nodes[idx].unwrap().right);
                } else {
                    assert((*right).parent_of(i) is Some);
                    let p = (*right).parent_of(i).unwrap();
                    assert(s.parent_of(i) == Option::Some(p));
                    assert(p != idx);
                    assert(s.sub_at(p) == right.sub_at(p));
                    assert(s.off_of(p) == lc + 1 + right.off_of(p));
                }
            }
        },
    }
}

/// In search order, the in-order walk lists keys strictly ascending, all
/// of them inside the bounds.
pub proof fn lemma_bst_sorted<V>(s: Shape<V>, lo: Option<i64>, hi: Option<i64>)
    requires
        s.bst_in(lo, hi),
    ensures
        forall|a: int, b: int|
            0 <= a < b < s.pair_seq().len() ==> #[trigger] s.pair_seq()[a].0
                < #[trigger] s.pair_seq()[b].0,
        forall|a: int| 0 <= a < s.pair_seq().len() ==> in_range(#[trigger] s.pair_seq()[a].0, lo, hi),
    decreases s,
{
    match s {
        Shape::Nil => {},
        Shape::Node { key, left, right, .. } => {
            lemma_seq_lens(*left);
            lemma_seq_lens(*right);
            lemma_bst_sorted(*left, lo, Option::Some(key));
            lemma_bst_sorted(*right, Option::Some(key), hi);
            let lc = left.pair_seq().len() as int;
            assert forall|a: int| 0 <= a < s.pair_seq().len() implies in_range(
                #[trigger] s.pair_seq()[a].0,
                lo,
                hi,
            ) by {
                if a < lc {
                    assert(s.pair_seq()[a] == left.pair_seq()[a]);
                } else if a == lc {
                } else {
                    assert(s.pair_seq()[a] == right.pair_seq()[a - lc - 1]);
                }
            }
            assert forall|a: int, b: int| 0 <= a < b < s.pair_seq().len() implies s.pair_seq()[a].0
                < s.pair_seq()[b].0 by {
                if a < lc {
                    assert(s.pair_seq()[a] == left.pair_seq()[a]);
                    assert(in_range(left.pair_seq()[a].0, lo, Option::Some(key)));
                }
                if a == lc {
                    assert(s.pair_seq()[a].0 == key);
                }
                if a > lc {
                    assert(s.pair_seq()[a] == right.pair_seq()[a - lc - 1]);
                    assert(in_range(right.pair_seq()[a - lc - 1].0, Option::Some(key), hi));
                }
                if b < lc {
                    assert(s.pair_seq()[b] == left.pair_seq()[b]);
                    assert(in_range(left.pair_seq()[b].0, lo, Option::Some(key)));
                }
                if b == lc {
                    assert(s.pair_seq()[b].0 == key);
                }
                if b > lc {
                    assert(s.pair_seq()[b] == right.pair_seq()[b - lc - 1]);
                    assert(in_range(right.pair_seq()[b - lc - 1].0, Option::Some(key), hi));
                }
            }
        },
    }
}

/// The in-order walk and the map name the same keys, with the same
/// values.
pub proof fn lemma_map_pair_seq<V>(s: Shape<V>, lo: Option<i64>, hi: Option<i64>)
    requires
        s.bst_in(lo, hi),
    ensures
        forall|j: int|
            0 <= j < s.pair_seq().len() ==> s.as_map().contains_key(#[trigger] s.pair_seq()[j].0)
                && s.as_map()[s.pair_seq()[j].0] == s.pair_seq()[j].1,
        forall|k: i64|
            #[trigger] s.as_map().contains_key(k) ==> exists|j: int|
                0 <= j < s.pair_seq().len() && #[trigger] s.pair_seq()[j].0 == k,
    decreases s,
{
    match s {
        Shape::Nil => {},
        Shape::Node { key, value, left, right, .. } => {
            lemma_seq_lens(*left);
            lemma_seq_lens(*right);
            lemma_map_pair_seq(*left, lo, Option::Some(key));
            lemma_map_pair_seq(*right, Option::Some(key), hi);
            lemma_bst_in_dom(*left, lo, Option::Some(key));
            lemma_bst_in_dom(*right, Option::Some(key), hi);
            let lc = left.pair_seq().len() as int;
            assert forall|j: int| 0 <= j < s.pair_seq().len() implies s.as_map().contains_key(
                #[trigger] s.pair_seq()[j].0,
            ) && s.as_map()[s.pair_seq()[j].0] == s.pair_seq()[j].1 by {
                if j < lc {
                    assert(s.pair_seq()[j] == left.pair_seq()[j]);
                    let k = left.pair_seq()[j].0;
                    assert(left.as_map().contains_key(k));
                    assert(k != key);
                    assert(!right.as_map().dom().contains(k));
                } else if j == lc {
                    assert(s.pair_seq()[j] == (key, value));
                } else {
                    assert(s.pair_seq()[j] == right.pair_seq()[j - lc - 1]);
                    let k = right.pair_seq()[j - lc - 1].0;
                    assert(right.as_map().contains_key(k));
                    assert(k != key);
                }
            }
            assert forall|k: i64| #[trigger] s.as_map().contains_key(k) implies exists|j: int|
                0 <= j < s.pair_seq().len() && #[trigger] s.pair_seq()[j].0 == k by {
                if k == key {
                    assert(s.pair_seq()[lc].0 == k);
                } else if right.as_map().contains_key(k) {
                    let j = choose|j: int|
                        0 <= j < right.pair_seq().len() && #[trigger] right.pair_seq()[j].0 == k;
                    assert(s.pair_seq()[lc + 1 + j].0 == k);
                } else {
                    assert(left.as_map().contains_key(k));
                    let j = choose|j: int|
                        0 <= j < left.pair_seq().len() && #[trigger] left.pair_seq()[j].0 == k;
                    assert(s.pair_seq()[j].0 == k);
                }
            }
        },
    }
}

/// Every key of the map lies strictly inside the tree's bounds.
pub proof fn lemma_bst_in_dom<V>(s: Shape<V>, lo: Option<i64>, hi: Option<i64>)
    requires
        s.bst_in(lo, hi),
    ensures
        forall|k: i64| #[trigger] s.as_map().dom().contains(k) ==> in_range(k, lo, hi),
    decreases s,
{
    match s {
        Shape::Nil => {
            assert(s.as_map() =~= Map::<i64, V>::empty());
        },
        Shape::Node { key, left, right, .. } => {
            lemma_bst_in_dom(*left, lo, Option::Some(key));
            lemma_bst_in_dom(*right, Option::Some(key), hi);
            assert forall|k: i64| #[trigger] s.as_map().dom().contains(k) implies in_range(
                k,
                lo,
                hi,
            ) by {
                if k == key {
                } else if left.as_map().dom().contains(k) {
                } else {
                    assert(right.as_map().dom().contains(k));
                }
            }
        },
    }
}

} // verus!
