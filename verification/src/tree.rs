//! The tree handle: an arena of node slots, the root index, and the size
//! counter, together with construction, lookup, insertion and clearing.

use vstd::prelude::*;
use vstd::pervasive::VecAdditionalExecFns;

use crate::node::TreeNode;
use crate::shape::{in_range, lemma_bst_in_dom, lemma_mirrors_frame, lemma_mirrors_in_bounds,
    mirrors, Shape};

verus! {

/// An unbalanced binary search tree mapping `i64` keys to values of type
/// `V`.  Nodes live in the `nodes` arena and link to one another by index;
/// `root` names the top slot and `size` counts the live nodes.
pub struct Tree<V> {
    pub(crate) nodes: Vec<Option<TreeNode<V>>>,
    pub(crate) free: Vec<usize>,
    pub(crate) root: Option<usize>,
    pub(crate) size: usize,
    pub(crate) shape: Ghost<Shape<V>>,
}

impl<V> Tree<V> {
    /// The free list names empty slots, each at most once: deletion
    /// returns a slot here and insertion reuses one before the arena
    /// grows.
    pub open(crate) spec fn free_wf(free: Seq<usize>, nodes: Seq<Option<TreeNode<V>>>) -> bool {
        &&& forall|j: int|
            0 <= j < free.len() ==> (#[trigger] free[j]) < nodes.len() && nodes[free[j] as int]
                is None
        &&& forall|a: int, b: int|
            0 <= a < b < free.len() ==> #[trigger] free[a] != #[trigger] free[b]
    }

    /// Well-formedness: the arena spells out the shape (child links down,
    /// parent links back up), no slot is used twice, keys are in strict
    /// search order, `size` counts the nodes, and every slot is either a
    /// node's or on the free list.
    pub open(crate) spec fn wf(self) -> bool {
        &&& mirrors(self.shape@, self.nodes@, self.root, Option::None)
        &&& self.shape@.distinct()
        &&& self.shape@.bst_in(Option::None, Option::None)
        &&& self.size as nat == self.shape@.count()
        &&& Self::free_wf(self.free@, self.nodes@)
        &&& self.shape@.count() + self.free@.len() == self.nodes@.len()
    }

    /// The tree as a finite map from keys to values.
    pub open(crate) spec fn as_map(self) -> Map<i64, V> {
        self.shape@.as_map()
    }

    /// The key/value pairs in ascending key order: what iteration yields.
    pub open(crate) spec fn pairs(self) -> Seq<(i64, V)> {
        self.shape@.pair_seq()
    }

    /// The number of live nodes.
    pub open(crate) spec fn spec_len(self) -> nat {
        self.shape@.count()
    }

    /// The tree's structure: which slot every node lives in and how the
    /// nodes hang together.  Together with `wf`, it determines every link
    /// in the arena.
    pub open(crate) spec fn shape(self) -> Shape<V> {
        self.shape@
    }

    /// The arena, slot by slot.
    pub open(crate) spec fn slots(self) -> Seq<Option<TreeNode<V>>> {
        self.nodes@
    }

    /// The free list, as specifications see it.
    pub open(crate) spec fn free_slots(self) -> Seq<usize> {
        self.free@
    }

    /// Does a live node occupy arena slot `i`?
    pub open(crate) spec fn live_at(self, i: int) -> bool {
        self.shape@.has_idx(i)
    }

    /// The slot of the root node.
    pub open(crate) spec fn root_link(self) -> Option<usize> {
        self.root
    }

    /// The parent link of the node in slot `i`.
    pub open(crate) spec fn parent_link_of(self, i: int) -> Option<usize> {
        self.nodes@[i].unwrap().parent
    }

    /// The left-child link of the node in slot `i`.
    pub open(crate) spec fn left_link_of(self, i: int) -> Option<usize> {
        self.nodes@[i].unwrap().left
    }

    /// The right-child link of the node in slot `i`.
    pub open(crate) spec fn right_link_of(self, i: int) -> Option<usize> {
        self.nodes@[i].unwrap().right
    }

    /// The empty tree.
    pub fn new() -> (t: Tree<V>)
        ensures
            t.wf(),
            t.as_map() == Map::<i64, V>::empty(),
            t.pairs() == Seq::<(i64, V)>::empty(),
            t.spec_len() == 0,
    {
        Tree {
            nodes: Vec::new(),
            free: Vec::new(),
            root: Option::None,
            size: 0,
            shape: Ghost(Shape::Nil),
        }
    }

    /// How many keys the tree holds.
    pub fn len(&self) -> (n: usize)
        requires
            self.wf(),
        ensures
            n == self.spec_len(),
            n == self.pairs().len(),
    {
        proof {
            crate::shape::lemma_seq_lens(self.shape@);
        }
        self.size
    }

    /// Whether the tree holds no keys at all.
    pub fn is_empty(&self) -> (e: bool)
        requires
            self.wf(),
        ensures
            e <==> self.spec_len() == 0,
            e <==> self.pairs().len() == 0,
    {
        proof {
            crate::shape::lemma_seq_lens(self.shape@);
        }
        self.size == 0
    }

    /// Put a node into an empty slot: the one the free list names last,
    /// or, when that list is empty, a fresh slot pushed onto the arena.
    fn take_slot(&mut self, node: TreeNode<V>) -> (idx: usize)
        requires
            Self::free_wf(old(self).free@, old(self).nodes@),
        ensures
            Self::free_wf(final(self).free@, final(self).nodes@),
            final(self).nodes@.len() + old(self).free@.len() == old(self).nodes@.len() + final(self).free@.len() + 1,
            old(self).nodes@.len() <= final(self).nodes@.len(),
            idx < final(self).nodes@.len(),
            final(self).nodes@[idx as int] == Option::Some(node),
            forall|j: int|
                0 <= j < old(self).nodes@.len() && j != idx ==> final(self).nodes@[j] == old(self).nodes@[j],
            idx < old(self).nodes@.len() ==> old(self).nodes@[idx as int] is None && final(self).nodes@.len() == old(self).nodes@.len(),
            old(self).nodes@.len() <= idx ==> idx == old(self).nodes@.len(),
            final(self).root == old(self).root,
            final(self).size == old(self).size,
            final(self).shape == old(self).shape,
    {
        let popped = self.free.pop();
        match popped {
            Option::Some(idx) => {
                proof {
                    assert(old(self).free@[old(self).free@.len() - 1] == idx);
                    assert(idx < self.nodes@.len() && self.nodes@[idx as int] is None);
                }
                self.nodes.set(idx, Option::Some(node));
                proof {
                    assert forall|j: int| 0 <= j < self.free@.len() implies (
                    #[trigger] self.free@[j]) < self.nodes@.len() && self.nodes@[self.free@[j] as int]
                        is None by {
                        assert(self.free@[j] == old(self).free@[j]);
                        assert(old(self).free@[j] != old(self).free@[old(self).free@.len() - 1]);
                    }
                    assert(forall|a: int, b: int|
                        0 <= a < b < self.free@.len() ==> #[trigger] self.free@[a]
                            != #[trigger] self.free@[b]);
                }
                idx
            },
            Option::None => {
                let idx = self.nodes.len();
                self.nodes.push(Option::Some(node));
                idx
            },
        }
    }

    /// Insert `key` into the non-empty subtree rooted at slot `at`, whose
    /// shape is `sub` and whose keys all lie strictly inside `(lo, hi)`.
    /// Returns the prior value under `key`, if any, and the new shape of
    /// the subtree.  Live slots outside the subtree are not touched; a
    /// created node goes into an empty slot taken off the free list, or
    /// into a fresh one.
    fn insert_at(
        &mut self,
        at: usize,
        key: i64,
        value: V,
        Ghost(sub): Ghost<Shape<V>>,
        Ghost(lo): Ghost<Option<i64>>,
        Ghost(hi): Ghost<Option<i64>>,
        Ghost(parent): Ghost<Option<usize>>,
    ) -> (r: (Option<V>, Ghost<Shape<V>>, Ghost<int>))
        requires
            mirrors(sub, old(self).nodes@, Option::Some(at), parent),
            sub.distinct(),
            sub.bst_in(lo, hi),
            in_range(key, lo, hi),
            Self::free_wf(old(self).free@, old(self).nodes@),
        ensures
            mirrors(r.1@, final(self).nodes@, Option::Some(at), parent),
            sub.as_map().contains_key(key) ==> forall|i: int|
                r.1@ == #[trigger] sub.spec_insert(i, key, value),
            !sub.as_map().contains_key(key) ==> r.1@ == sub.spec_insert(r.2@, key, value)
                && !sub.has_idx(r.2@) && ((0 <= r.2@ < old(self).nodes@.len() && old(
                self,
            ).nodes@[r.2@] is None) || r.2@ == old(self).nodes@.len()),
            r.1@.distinct(),
            r.1@.bst_in(lo, hi),
            r.1@.as_map() == sub.as_map().insert(key, value),
            r.0 == (if sub.as_map().contains_key(key) {
                Option::Some(sub.as_map()[key])
            } else {
                Option::<V>::None
            }),
            sub.as_map().contains_key(key) ==> r.1@.count() == sub.count(),
            !sub.as_map().contains_key(key) ==> r.1@.count() == sub.count() + 1,
            old(self).nodes@.len() <= final(self).nodes@.len(),
            Self::free_wf(final(self).free@, final(self).nodes@),
            sub.as_map().contains_key(key) ==> final(self).free == old(self).free && final(self).nodes@.len() == old(self).nodes@.len(),
            !sub.as_map().contains_key(key) ==> final(self).nodes@.len() + old(self).free@.len()
                == old(self).nodes@.len() + final(self).free@.len() + 1,
            forall|j: int|
                0 <= j < old(self).nodes@.len() && !(#[trigger] sub.has_idx(j)) && old(self).nodes@[j] is Some ==> final(self).nodes@[j] == old(self).nodes@[j],
            forall|j: int|
                #[trigger] r.1@.has_idx(j) ==> sub.has_idx(j) || (0 <= j < old(self).nodes@.len()
                    && old(self).nodes@[j] is None) || old(self).nodes@.len() <= j < final(self).nodes@.len(),
            final(self).root == old(self).root,
            final(self).size == old(self).size,
            final(self).shape == old(self).shape,
        decreases sub,
    {
        let ghost n0 = self.nodes@;
        proof {
            assert(sub is Node);
        }
        let node_key = self.nodes[at].as_ref().unwrap().key;
        let ghost f0 = self.free@;
        proof {
            lemma_mirrors_in_bounds(sub, n0, Option::Some(at), parent);
            lemma_mirrors_in_bounds(*sub->left, n0, n0[at as int].unwrap().left,
                Option::Some(at));
            lemma_mirrors_in_bounds(*sub->right, n0, n0[at as int].unwrap().right,
                Option::Some(at));
            assert(sub.has_idx(at as int));
        }
        if key == node_key {
            let TreeNode { key: nk, value: old_value, left: nl, right: nr, parent: np } =
                self.nodes[at].take().unwrap();
            self.nodes.set(
                at,
                Option::Some(TreeNode { key: nk, value, left: nl, right: nr, parent: np }),
            );
            let ghost s2 = Shape::branch(at as int, node_key, value, *sub->left, *sub->right);
            proof {
                assert(forall|j: int| 0 <= j < n0.len() && j != at ==> self.nodes@[j] == n0[j]);
                lemma_mirrors_frame(*sub->left, n0, self.nodes@, nl, Option::Some(at));
                lemma_mirrors_frame(*sub->right, n0, self.nodes@, nr, Option::Some(at));
                assert(s2.as_map() =~= sub.as_map().insert(key, value));
                assert forall|j: int|
                    0 <= j < n0.len() && !(#[trigger] sub.has_idx(j)) implies self.nodes@[j]
                    == n0[j] by {
                    assert(j != at);
                }
                assert forall|j: int| #[trigger] s2.has_idx(j) implies sub.has_idx(j) by {}
                assert forall|j: int| 0 <= j < self.free@.len() implies (
                #[trigger] self.free@[j]) < self.nodes@.len() && self.nodes@[self.free@[j] as int]
                    is None by {
                    assert(n0[self.free@[j] as int] is None);
                    assert(self.free@[j] != at);
                }
                assert forall|i: int| s2 == #[trigger] sub.spec_insert(i, key, value) by {}
            }
            (Option::Some(old_value), Ghost(s2), Ghost(0))
        } else if key < node_key {
            let node_left = self.nodes[at].as_ref().unwrap().left;
            proof {
                lemma_bst_in_dom(*sub->right, Option::Some(node_key), hi);
            }
            match node_left {
                Option::None => {
                    proof {
                        assert(mirrors(*sub->left, n0, Option::None, Option::Some(at)));
                        assert(*sub->left is Nil);
                    }
                    let new_idx = self.take_slot(
                        TreeNode {
                            key,
                            value,
                            left: Option::None,
                            right: Option::None,
                            parent: Option::Some(at),
                        },
                    );
                    let ghost n_a = self.nodes@;
                    proof {
                        assert(n0[at as int] is Some);
                        assert(at != new_idx);
                        assert(n_a[at as int] == n0[at as int]);
                    }
                    let TreeNode { key: nk, value: nv, left: _, right: nr, parent: np } =
                        self.nodes[at].take().unwrap();
                    self.nodes.set(
                        at,
                        Option::Some(
                            TreeNode {
                                key: nk,
                                value: nv,
                                left: Option::Some(new_idx),
                                right: nr,
                                parent: np,
                            },
                        ),
                    );
                    let ghost leaf = Shape::branch(new_idx as int, key, value, Shape::Nil,
                        Shape::Nil);
                    let ghost s2 = Shape::branch(at as int, node_key, sub->value, leaf,
                        *sub->right);
                    proof {
                        crate::shape::lemma_nil::<V>(self.nodes@, Option::Some(new_idx));
                        crate::shape::lemma_leaf::<V>(new_idx as int, key, value);
                        assert(mirrors(leaf, self.nodes@, Option::Some(new_idx),
                            Option::Some(at)));
                        assert(forall|j: int|
                            0 <= j < n0.len() && j != at && j != new_idx ==> self.nodes@[j]
                                == n0[j]);
                        assert(!(*sub->right).has_idx(new_idx as int));
                        assert forall|j: int| #[trigger] (*sub->right).has_idx(j) implies self
                            .nodes@[j] == n0[j] by {
                            assert(n0[j] is Some);
                            assert(j != at && j != new_idx);
                        }
                        lemma_mirrors_frame(*sub->right, n0, self.nodes@, nr, Option::Some(at));
                        assert(mirrors(s2, self.nodes@, Option::Some(at), parent));
                        assert((*sub->left).as_map() == Map::<i64, V>::empty());
                        assert(!(*sub->right).as_map().dom().contains(key));
                        assert(!sub.as_map().contains_key(key));
                        assert(s2.as_map() =~= sub.as_map().insert(key, value));
                        assert(leaf.bst_in(lo, Option::Some(node_key)));
                        assert(s2.bst_in(lo, hi));
                        assert(!sub.has_idx(new_idx as int));
                        assert forall|j: int|
                            0 <= j < n0.len() && !(#[trigger] sub.has_idx(j)) && n0[j] is Some
                            implies self.nodes@[j] == n0[j] by {
                            assert(j != at && j != new_idx);
                        }
                        assert forall|j: int| #[trigger] s2.has_idx(j) implies sub.has_idx(j) || (
                        0 <= j < n0.len() && n0[j] is None) || n0.len() <= j
                            < self.nodes@.len() by {
                            if j == at {
                                assert(sub.has_idx(j));
                            } else if leaf.has_idx(j) {
                                assert(j == new_idx);
                            } else {
                                assert((*sub->right).has_idx(j));
                                assert(sub.has_idx(j));
                            }
                        }
                        assert forall|j: int| 0 <= j < self.free@.len() implies (
                        #[trigger] self.free@[j]) < self.nodes@.len() && self.nodes@[self.free@[j] as int]
                            is None by {
                            assert(n_a[self.free@[j] as int] is None);
                            assert(self.free@[j] != at);
                        }
                        assert((*sub->left).spec_insert(new_idx as int, key, value) == leaf);
                        assert(s2 == sub.spec_insert(new_idx as int, key, value));
                    }
                    (Option::None, Ghost(s2), Ghost(new_idx as int))
                },
                Option::Some(l) => {
                    let (res, g, gi) = self.insert_at(
                        l,
                        key,
                        value,
                        Ghost(*sub->left),
                        Ghost(lo),
                        Ghost(Option::Some(node_key)),
                        Ghost(Option::Some(at)),
                    );
                    let ghost s2 = Shape::branch(at as int, node_key, sub->value, g@,
                        *sub->right);
                    proof {
                        lemma_bst_in_dom(*sub->left, lo, Option::Some(node_key));
                        assert(!(*sub->left).has_idx(at as int));
                        assert(n0[at as int] is Some);
                        assert(self.nodes@[at as int] == n0[at as int]);
                        assert forall|j: int| #[trigger] (*sub->right).has_idx(j) implies self
                            .nodes@[j] == n0[j] by {
                            assert(!(*sub->left).has_idx(j));
                            assert(n0[j] is Some);
                        }
                        lemma_mirrors_frame(
                            *sub->right,
                            n0,
                            self.nodes@,
                            n0[at as int].unwrap().right,
                            Option::Some(at),
                        );
                        assert(mirrors(s2, self.nodes@, Option::Some(at), parent));
                        assert(!(*sub->right).as_map().dom().contains(key));
                        assert(g@.as_map() == (*sub->left).as_map().insert(key, value));
                        assert(s2.as_map() =~= sub.as_map().insert(key, value));
                        assert(sub.as_map().contains_key(key) <==> (*sub->left).as_map()
                            .contains_key(key));
                        assert(sub.as_map().contains_key(key) ==> sub.as_map()[key] == (
                        *sub->left).as_map()[key]);
                        assert forall|j: int|
                            0 <= j < n0.len() && !(#[trigger] sub.has_idx(j)) && n0[j] is Some
                            implies self.nodes@[j] == n0[j] by {
                            assert(!(*sub->left).has_idx(j));
                        }
                        assert forall|j: int| #[trigger] s2.has_idx(j) implies sub.has_idx(j) || (
                        0 <= j < n0.len() && n0[j] is None) || n0.len() <= j
                            < self.nodes@.len() by {
                            if j == at {
                                assert(sub.has_idx(j));
                            } else if g@.has_idx(j) {
                                if (*sub->left).has_idx(j) {
                                    assert(sub.has_idx(j));
                                }
                            } else {
                                assert((*sub->right).has_idx(j));
                                assert(sub.has_idx(j));
                            }
                        }
                        if sub.as_map().contains_key(key) {
                            assert forall|i: int| s2 == #[trigger] sub.spec_insert(
                                i,
                                key,
                                value,
                            ) by {
                                assert(g@ == (*sub->left).spec_insert(i, key, value));
                            }
                        } else {
                            assert(g@ == (*sub->left).spec_insert(gi@, key, value));
                            assert(s2 == sub.spec_insert(gi@, key, value));
                            assert(!sub.has_idx(gi@));
                        }
                    }
                    (res, Ghost(s2), gi)
                },
            }
        } else {
            let node_right = self.nodes[at].as_ref().unwrap().right;
            proof {
                lemma_bst_in_dom(*sub->left, lo, Option::Some(node_key));
            }
            match node_right {
                Option::None => {
                    proof {
                        assert(mirrors(*sub->right, n0, Option::None, Option::Some(at)));
                        assert(*sub->right is Nil);
                    }
                    let new_idx = self.take_slot(
                        TreeNode {
                            key,
                            value,
                            left: Option::None,
                            right: Option::None,
                            parent: Option::Some(at),
                        },
                    );
                    let ghost n_a = self.nodes@;
                    proof {
                        assert(n0[at as int] is Some);
                        assert(at != new_idx);
                        assert(n_a[at as int] == n0[at as int]);
                    }
                    let TreeNode { key: nk, value: nv, left: nl, right: _, parent: np } =
                        self.nodes[at].take().unwrap();
                    self.nodes.set(
                        at,
                        Option::Some(
                            TreeNode {
                                key: nk,
                                value: nv,
                                left: nl,
                                right: Option::Some(new_idx),
                                parent: np,
                            },
                        ),
                    );
                    let ghost leaf = Shape::branch(new_idx as int, key, value, Shape::Nil,
                        Shape::Nil);
                    let ghost s2 = Shape::branch(at as int, node_key, sub->value, *sub->left,
                        leaf);
                    proof {
                        crate::shape::lemma_nil::<V>(self.nodes@, Option::Some(new_idx));
                        crate::shape::lemma_leaf::<V>(new_idx as int, key, value);
                        assert(mirrors(leaf, self.nodes@, Option::Some(new_idx),
                            Option::Some(at)));
                        assert(forall|j: int|
                            0 <= j < n0.len() && j != at && j != new_idx ==> self.nodes@[j]
                                == n0[j]);
                        assert(!(*sub->left).has_idx(new_idx as int));
                        assert forall|j: int| #[trigger] (*sub->left).has_idx(j) implies self
                            .nodes@[j] == n0[j] by {
                            assert(n0[j] is Some);
                            assert(j != at && j != new_idx);
                        }
                        lemma_mirrors_frame(*sub->left, n0, self.nodes@, nl, Option::Some(at));
                        assert(mirrors(s2, self.nodes@, Option::Some(at), parent));
                        assert((*sub->right).as_map() == Map::<i64, V>::empty());
                        assert(!(*sub->left).as_map().dom().contains(key));
                        assert(!sub.as_map().contains_key(key));
                        assert(s2.as_map() =~= sub.as_map().insert(key, value));
                        assert(leaf.bst_in(Option::Some(node_key), hi));
                        assert(s2.bst_in(lo, hi));
                        assert(!sub.has_idx(new_idx as int));
                        assert forall|j: int|
                            0 <= j < n0.len() && !(#[trigger] sub.has_idx(j)) && n0[j] is Some
                            implies self.nodes@[j] == n0[j] by {
                            assert(j != at && j != new_idx);
                        }
                        assert forall|j: int| #[trigger] s2.has_idx(j) implies sub.has_idx(j) || (
                        0 <= j < n0.len() && n0[j] is None) || n0.len() <= j
                            < self.nodes@.len() by {
                            if j == at {
                                assert(sub.has_idx(j));
                            } else if leaf.has_idx(j) {
                                assert(j == new_idx);
                            } else {
                                assert((*sub->left).has_idx(j));
                                assert(sub.has_idx(j));
                            }
                        }
                        assert forall|j: int| 0 <= j < self.free@.len() implies (
                        #[trigger] self.free@[j]) < self.nodes@.len() && self.nodes@[self.free@[j] as int]
                            is None by {
                            assert(n_a[self.free@[j] as int] is None);
                            assert(self.free@[j] != at);
                        }
                        assert((*sub->right).spec_insert(new_idx as int, key, value) == leaf);
                        assert(s2 == sub.spec_insert(new_idx as int, key, value));
                    }
                    (Option::None, Ghost(s2), Ghost(new_idx as int))
                },
                Option::Some(rl) => {
                    let (res, g, gi) = self.insert_at(
                        rl,
                        key,
                        value,
                        Ghost(*sub->right),
                        Ghost(Option::Some(node_key)),
                        Ghost(hi),
                        Ghost(Option::Some(at)),
                    );
                    let ghost s2 = Shape::branch(at as int, node_key, sub->value, *sub->left,
                        g@);
                    proof {
                        lemma_bst_in_dom(*sub->right, Option::Some(node_key), hi);
                        assert(!(*sub->right).has_idx(at as int));
                        assert(n0[at as int] is Some);
                        assert(self.nodes@[at as int] == n0[at as int]);
                        assert forall|j: int| #[trigger] (*sub->left).has_idx(j) implies self
                            .nodes@[j] == n0[j] by {
                            assert(!(*sub->right).has_idx(j));
                            assert(n0[j] is Some);
                        }
                        lemma_mirrors_frame(
                            *sub->left,
                            n0,
                            self.nodes@,
                            n0[at as int].unwrap().left,
                            Option::Some(at),
                        );
                        assert(mirrors(s2, self.nodes@, Option::Some(at), parent));
                        assert(!(*sub->left).as_map().dom().contains(key));
                        assert(g@.as_map() == (*sub->right).as_map().insert(key, value));
                        assert(s2.as_map() =~= sub.as_map().insert(key, value));
                        assert(sub.as_map().contains_key(key) <==> (*sub->right).as_map()
                            .contains_key(key));
                        assert(sub.as_map().contains_key(key) ==> sub.as_map()[key] == (
                        *sub->right).as_map()[key]);
                        assert forall|j: int|
                            0 <= j < n0.len() && !(#[trigger] sub.has_idx(j)) && n0[j] is Some
                            implies self.nodes@[j] == n0[j] by {
                            assert(!(*sub->right).has_idx(j));
                        }
                        assert forall|j: int| #[trigger] s2.has_idx(j) implies sub.has_idx(j) || (
                        0 <= j < n0.len() && n0[j] is None) || n0.len() <= j
                            < self.nodes@.len() by {
                            if j == at {
                                assert(sub.has_idx(j));
                            } else if g@.has_idx(j) {
                                if (*sub->right).has_idx(j) {
                                    assert(sub.has_idx(j));
                                }
                            } else {
                                assert((*sub->left).has_idx(j));
                                assert(sub.has_idx(j));
                            }
                        }
                        if sub.as_map().contains_key(key) {
                            assert forall|i: int| s2 == #[trigger] sub.spec_insert(
                                i,
                                key,
                                value,
                            ) by {
                                assert(g@ == (*sub->right).spec_insert(i, key, value));
                            }
                        } else {
                            assert(g@ == (*sub->right).spec_insert(gi@, key, value));
                            assert(s2 == sub.spec_insert(gi@, key, value));
                            assert(!sub.has_idx(gi@));
                        }
                    }
                    (res, Ghost(s2), gi)
                },
            }
        }
    }

    /// Search for `key` in the subtree rooted at slot `at`, whose shape is
    /// `sub` and whose keys all lie strictly inside `(lo, hi)`.
    fn find_at(
        &self,
        at: usize,
        key: i64,
        Ghost(sub): Ghost<Shape<V>>,
        Ghost(lo): Ghost<Option<i64>>,
        Ghost(hi): Ghost<Option<i64>>,
        Ghost(parent): Ghost<Option<usize>>,
    ) -> (r: Option<&TreeNode<V>>)
        requires
            mirrors(sub, self.nodes@, Option::Some(at), parent),
            sub.bst_in(lo, hi),
            in_range(key, lo, hi),
        ensures
            sub.as_map().contains_key(key) ==> r is Some && r.unwrap().key == key
                && r.unwrap().value == sub.as_map()[key],
            !sub.as_map().contains_key(key) ==> r is None,
        decreases sub,
    {
        proof {
            assert(sub is Node);
            lemma_bst_in_dom(*sub->left, lo, Option::Some(sub->key));
            lemma_bst_in_dom(*sub->right, Option::Some(sub->key), hi);
        }
        let node = self.nodes[at].as_ref().unwrap();
        if key == node.key {
            proof {
                assert(!(*sub->left).as_map().dom().contains(key));
                assert(!(*sub->right).as_map().dom().contains(key));
            }
            Option::Some(node)
        } else if key < node.key {
            proof {
                assert(!(*sub->right).as_map().dom().contains(key));
            }
            match node.left {
                Option::None => {
                    proof {
                        assert(mirrors(*sub->left, self.nodes@, Option::None, Option::Some(at)));
                        assert(*sub->left is Nil);
                        assert((*sub->left).as_map() =~= Map::<i64, V>::empty());
                        assert(!sub.as_map().contains_key(key));
                    }
                    Option::None
                },
                Option::Some(l) => self.find_at(
                    l,
                    key,
                    Ghost(*sub->left),
                    Ghost(lo),
                    Ghost(Option::Some(node.key)),
                    Ghost(Option::Some(at)),
                ),
            }
        } else {
            proof {
                assert(!(*sub->left).as_map().dom().contains(key));
            }
            match node.right {
                Option::None => {
                    proof {
                        assert(mirrors(*sub->right, self.nodes@, Option::None, Option::Some(at)));
                        assert(*sub->right is Nil);
                        assert((*sub->right).as_map() =~= Map::<i64, V>::empty());
                        assert(!sub.as_map().contains_key(key));
                    }
                    Option::None
                },
                Option::Some(rl) => self.find_at(
                    rl,
                    key,
                    Ghost(*sub->right),
                    Ghost(Option::Some(node.key)),
                    Ghost(hi),
                    Ghost(Option::Some(at)),
                ),
            }
        }
    }

    /// Look `key` up.  Returns a handle to the node holding it, or `None`
    /// when the key is absent; the tree is not changed.
    pub fn find_node(&self, f: &i64) -> (r: Option<&TreeNode<V>>)
        requires
            self.wf(),
        ensures
            self.as_map().contains_key(*f) ==> r is Some && r.unwrap().spec_key() == *f
                && r.unwrap().spec_value() == self.as_map()[*f],
            !self.as_map().contains_key(*f) ==> r is None,
    {
        match self.root {
            Option::None => {
                proof {
                    assert(self.shape@ is Nil);
                    assert(self.as_map() =~= Map::<i64, V>::empty());
                }
                Option::None
            },
            Option::Some(ri) => self.find_at(
                ri,
                *f,
                Ghost(self.shape@),
                Ghost(Option::None),
                Ghost(Option::None),
                Ghost(Option::None),
            ),
        }
    }

    /// The slot of the leftmost node of the subtree rooted at slot `at`:
    /// the first in-order position.
    pub(crate) fn leftmost_at(
        &self,
        at: usize,
        Ghost(sub): Ghost<Shape<V>>,
        Ghost(parent): Ghost<Option<usize>>,
    ) -> (i: usize)
        requires
            mirrors(sub, self.nodes@, Option::Some(at), parent),
        ensures
            sub.idx_seq().len() > 0,
            i as int == sub.idx_seq()[0],
            0 <= i < self.nodes@.len() && self.nodes@[i as int] is Some && self.nodes@[i as int]
                .unwrap().left is None,
        decreases sub,
    {
        proof {
            assert(sub is Node);
        }
        let node_left = self.nodes[at].as_ref().unwrap().left;
        match node_left {
            Option::None => {
                proof {
                    assert(mirrors(*sub->left, self.nodes@, Option::None, Option::Some(at)));
                    assert(*sub->left is Nil);
                    assert((*sub->left).idx_seq() =~= Seq::<int>::empty());
                    assert(sub.idx_seq()[0] == at as int);
                }
                at
            },
            Option::Some(l) => {
                let i = self.leftmost_at(l, Ghost(*sub->left), Ghost(Option::Some(at)));
                proof {
                    assert(sub.idx_seq()[0] == (*sub->left).idx_seq()[0]);
                }
                i
            },
        }
    }

    /// The node with the smallest key, or `None` when the tree is empty.
    /// The tree is not changed.
    pub fn least_node(&self) -> (r: Option<&TreeNode<V>>)
        requires
            self.wf(),
        ensures
            self.spec_len() == 0 ==> r is None,
            self.spec_len() > 0 ==> r is Some && r.unwrap().spec_key() == self.pairs()[0].0
                && r.unwrap().spec_value() == self.pairs()[0].1,
            self.spec_len() > 0 ==> forall|k: i64|
                #[trigger] self.as_map().contains_key(k) ==> r.unwrap().spec_key() <= k,
            self.spec_len() > 0 ==> r.unwrap().spec_left() is None,
    {
        match self.root {
            Option::None => {
                proof {
                    assert(self.shape@ is Nil);
                }
                Option::None
            },
            Option::Some(ri) => {
                let i = self.leftmost_at(ri, Ghost(self.shape@), Ghost(Option::None));
                proof {
                    crate::shape::lemma_mirrors_ord(
                        self.shape@,
                        self.nodes@,
                        self.root,
                        Option::None,
                    );
                    assert(self.shape@.idx_seq()[0] == i as int);
                    crate::shape::lemma_bst_sorted(self.shape@, Option::None, Option::None);
                    crate::shape::lemma_map_pair_seq(self.shape@, Option::None, Option::None);
                    assert forall|k: i64| #[trigger] self.as_map().contains_key(k) implies self
                        .pairs()[0].0 <= k by {
                        let j = choose|j: int|
                            0 <= j < self.shape@.pair_seq().len() && #[trigger] self.shape@
                                .pair_seq()[j].0 == k;
                        if j > 0 {
                            assert(self.pairs()[0].0 < self.pairs()[j].0);
                        }
                    }
                }
                Option::Some(self.nodes[i].as_ref().unwrap())
            },
        }
    }

    /// Map `key` to `value`.  Returns the value previously under `key`
    /// (leaving the node count unchanged), or `None` if the key is new, in
    /// which case a node is created and the count grows by one.  The new
    /// node hangs, in some unoccupied slot, at the empty child position
    /// where the key's descent from the root ends: the final shape is
    /// `spec_insert` of the old one.
    pub fn insert(&mut self, key: i64, value: V) -> (prior: Option<V>)
        requires
            old(self).wf(),
        ensures
            final(self).wf(),
            final(self).as_map() == old(self).as_map().insert(key, value),
            prior == (if old(self).as_map().contains_key(key) {
                Option::Some(old(self).as_map()[key])
            } else {
                Option::<V>::None
            }),
            old(self).as_map().contains_key(key) ==> final(self).spec_len() == old(self).spec_len(),
            !old(self).as_map().contains_key(key) ==> final(self).spec_len() == old(self).spec_len() + 1,
            exists|i: int|
                final(self).shape() == #[trigger] old(self).shape().spec_insert(i, key, value)
                    && !old(self).shape().has_idx(i),
    {
        match self.root {
            Option::None => {
                proof {
                    assert(self.shape@ is Nil);
                }
                let new_idx = self.take_slot(
                    TreeNode {
                        key,
                        value,
                        left: Option::None,
                        right: Option::None,
                        parent: Option::None,
                    },
                );
                self.root = Option::Some(new_idx);
                self.size = 1;
                self.shape = Ghost(
                    Shape::branch(new_idx as int, key, value, Shape::Nil, Shape::Nil),
                );
                proof {
                    crate::shape::lemma_nil::<V>(self.nodes@, Option::Some(new_idx));
                    crate::shape::lemma_leaf::<V>(new_idx as int, key, value);
                    assert(mirrors(self.shape@, self.nodes@, self.root, Option::None));
                    assert(self.shape@.distinct());
                    assert(in_range(key, Option::None, Option::None));
                    assert(self.shape@.bst_in(Option::None, Option::None));
                    assert(self.shape@.count() == 1);
                    assert(self.shape@.count() + self.free@.len() == self.nodes@.len());
                    assert(self.as_map() =~= old(self).as_map().insert(key, value));
                    assert(self.shape() == old(self).shape().spec_insert(
                        new_idx as int,
                        key,
                        value,
                    ));
                    assert(!old(self).shape().has_idx(new_idx as int));
                }
                Option::None
            },
            Option::Some(root_idx) => {
                let ghost s0 = self.shape@;
                let ghost n0 = self.nodes@;
                let (res, g, gi) = self.insert_at(
                    root_idx,
                    key,
                    value,
                    Ghost(self.shape@),
                    Ghost(Option::None),
                    Ghost(Option::None),
                    Ghost(Option::None),
                );
                self.shape = g;
                proof {
                    lemma_mirrors_in_bounds(s0, n0, Option::Some(root_idx), Option::None);
                    if s0.as_map().contains_key(key) {
                        // the replaced value sits in an existing node: any
                        // unoccupied slot witnesses the placement clause
                        let w = n0.len() as int;
                        assert(!s0.has_idx(w));
                        assert(self.shape() == s0.spec_insert(w, key, value));
                    } else {
                        assert(self.shape() == s0.spec_insert(gi@, key, value));
                        assert(!s0.has_idx(gi@));
                    }
                }
                if res.is_none() {
                    let n_len = self.nodes.len();
                    proof {
                        assert(self.shape@.count() + self.free@.len() == n_len);
                        assert(self.shape@.count() <= n_len);
                    }
                    self.size = self.size + 1;
                }
                res
            },
        }
    }

    /// Drop every node and reset to the empty tree.
    pub fn clear(&mut self)
        ensures
            final(self).wf(),
            final(self).as_map() == Map::<i64, V>::empty(),
            final(self).pairs() == Seq::<(i64, V)>::empty(),
            final(self).spec_len() == 0,
    {
        *self = Tree::new();
    }
}

} // verus!
