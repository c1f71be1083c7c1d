//! Deletion.  The removed node's neighbours are rewired locally: a node
//! with at most one child is bypassed; a node with two children is
//! replaced by its right child, and its left subtree is reattached under
//! the leftmost descendant of that right child (the in-order successor).
//! That successor may be the right child itself, which the code must
//! notice before it rewires the same slot twice.

use vstd::prelude::*;
use vstd::pervasive::VecAdditionalExecFns;

use crate::node::TreeNode;
use crate::shape::{in_range, lemma_attach_bst, lemma_attach_distinct, lemma_attach_mirrors,
    lemma_attach_props, lemma_bst_in_dom, lemma_bst_widen, lemma_idx_seq_has, lemma_mirrors_frame,
    lemma_mirrors_in_bounds, mirrors, Shape};
use crate::tree::Tree;

verus! {

impl<V> Tree<V> {
    /// Remove `key` from the subtree rooted at slot `at`, whose shape is
    /// `sub` and whose keys all lie strictly inside `(lo, hi)`.  Returns
    /// the detached node (if the key was there), the new root link of the
    /// subtree — which the caller stores in its child slot — and the new
    /// shape.  Slots outside the subtree are not touched, and none are
    /// added; the freed slot is emptied and put on the free list.
    fn delete_at(
        &mut self,
        at: usize,
        key: &i64,
        Ghost(sub): Ghost<Shape<V>>,
        Ghost(lo): Ghost<Option<i64>>,
        Ghost(hi): Ghost<Option<i64>>,
        Ghost(parent): Ghost<Option<usize>>,
    ) -> (r: (Option<TreeNode<V>>, Option<usize>, Ghost<Shape<V>>))
        requires
            mirrors(sub, old(self).nodes@, Option::Some(at), parent),
            sub.distinct(),
            sub.bst_in(lo, hi),
            in_range(*key, lo, hi),
            Tree::<V>::free_wf(old(self).free@, old(self).nodes@),
        ensures
            Tree::<V>::free_wf(final(self).free@, final(self).nodes@),
            sub.as_map().contains_key(*key) ==> final(self).free@.len() == old(self).free@.len()
                + 1,
            !sub.as_map().contains_key(*key) ==> final(self).free == old(self).free,
            mirrors(r.2@, final(self).nodes@, r.1, parent),
            r.2@ == sub.spec_delete(*key),
            r.2@.distinct(),
            r.2@.bst_in(lo, hi),
            r.2@.as_map() == sub.as_map().remove(*key),
            sub.as_map().contains_key(*key) ==> r.0 is Some && r.0.unwrap().key == *key
                && r.0.unwrap().value == sub.as_map()[*key] && r.2@.count() + 1 == sub.count(),
            !sub.as_map().contains_key(*key) ==> r.0 is None && r.2@ == sub && r.1
                == Option::Some(at) && final(self).nodes@ == old(self).nodes@,
            final(self).nodes@.len() == old(self).nodes@.len(),
            forall|j: int|
                0 <= j < old(self).nodes@.len() && !(#[trigger] sub.has_idx(j))
                    ==> final(self).nodes@[j] == old(self).nodes@[j],
            forall|j: int| #[trigger] r.2@.has_idx(j) ==> sub.has_idx(j),
            final(self).root == old(self).root,
            final(self).size == old(self).size,
            final(self).shape == old(self).shape,
        decreases sub,
    {
        let ghost n0 = self.nodes@;
        let ghost f0 = self.free@;
        proof {
            assert(sub is Node);
            lemma_mirrors_in_bounds(sub, n0, Option::Some(at), parent);
            lemma_mirrors_in_bounds(*sub->left, n0, n0[at as int].unwrap().left,
                Option::Some(at));
            lemma_mirrors_in_bounds(*sub->right, n0, n0[at as int].unwrap().right,
                Option::Some(at));
            assert(sub.has_idx(at as int));
            lemma_bst_in_dom(*sub->left, lo, Option::Some(sub->key));
            lemma_bst_in_dom(*sub->right, Option::Some(sub->key), hi);
        }
        let node_key = self.nodes[at].as_ref().unwrap().key;
        if *key < node_key {
            let node_left = self.nodes[at].as_ref().unwrap().left;
            match node_left {
                Option::None => {
                    proof {
                        assert(mirrors(*sub->left, n0, Option::None, Option::Some(at)));
                        assert(*sub->left is Nil);
                        assert((*sub->left).as_map() =~= Map::<i64, V>::empty());
                        assert(!(*sub->right).as_map().dom().contains(*key));
                        assert(!sub.as_map().contains_key(*key));
                        assert(sub.as_map().remove(*key) =~= sub.as_map());
                    }
                    (Option::None, Option::Some(at), Ghost(sub))
                },
                Option::Some(l) => {
                    let (removed, newlink, g) = self.delete_at(
                        l,
                        key,
                        Ghost(*sub->left),
                        Ghost(lo),
                        Ghost(Option::Some(node_key)),
                        Ghost(Option::Some(at)),
                    );
                    let ghost n1 = self.nodes@;
                    proof {
                        assert(!(*sub->left).has_idx(at as int));
                        assert(self.nodes@[at as int] == n0[at as int]);
                    }
                    let TreeNode { key: nk, value: nv, left: _, right: nr, parent: np } =
                        self.nodes[at].take().unwrap();
                    self.nodes.set(
                        at,
                        Option::Some(
                            TreeNode { key: nk, value: nv, left: newlink, right: nr, parent: np },
                        ),
                    );
                    let ghost s2 = Shape::branch(at as int, node_key, sub->value, g@,
                        *sub->right);
                    proof {
                        assert forall|j: int| #[trigger] g@.has_idx(j) implies self.nodes@[j]
                            == n1[j] by {
                            assert((*sub->left).has_idx(j));
                        }
                        lemma_mirrors_frame(g@, n1, self.nodes@, newlink, Option::Some(at));
                        assert forall|j: int| #[trigger] (*sub->right).has_idx(j) implies self
                            .nodes@[j] == n0[j] by {
                            assert(!(*sub->left).has_idx(j));
                            assert(n1[j] == n0[j]);
                        }
                        lemma_mirrors_frame(*sub->right, n0, self.nodes@, nr, Option::Some(at));
                        assert(mirrors(s2, self.nodes@, Option::Some(at), parent));
                        assert(!(*sub->right).as_map().dom().contains(*key));
                        assert(s2.as_map() =~= sub.as_map().remove(*key));
                        assert(sub.as_map().contains_key(*key) <==> (*sub->left).as_map()
                            .contains_key(*key));
                        assert(sub.as_map().contains_key(*key) ==> sub.as_map()[*key] == (
                        *sub->left).as_map()[*key]);
                        if !sub.as_map().contains_key(*key) {
                            assert(g@ == *sub->left);
                            assert(s2 == sub);
                        }
                        assert forall|j: int|
                            0 <= j < n0.len() && !(#[trigger] sub.has_idx(j)) implies self
                            .nodes@[j] == n0[j] by {
                            assert(!(*sub->left).has_idx(j));
                            assert(j != at);
                        }
                        assert forall|j: int| #[trigger] s2.has_idx(j) implies sub.has_idx(j) by {
                            if j == at {
                            } else if g@.has_idx(j) {
                                assert((*sub->left).has_idx(j));
                            } else {
                                assert((*sub->right).has_idx(j));
                            }
                        }
                        assert forall|j: int|
                            0 <= j < self.free@.len() implies (#[trigger] self.free@[j])
                            < self.nodes@.len() && self.nodes@[self.free@[j] as int] is None by {
                            assert(n1[self.free@[j] as int] is None);
                            assert(self.free@[j] != at);
                        }
                    }
                    (removed, Option::Some(at), Ghost(s2))
                },
            }
        } else if node_key < *key {
            let node_right = self.nodes[at].as_ref().unwrap().right;
            match node_right {
                Option::None => {
                    proof {
                        assert(mirrors(*sub->right, n0, Option::None, Option::Some(at)));
                        assert(*sub->right is Nil);
                        assert((*sub->right).as_map() =~= Map::<i64, V>::empty());
                        assert(!(*sub->left).as_map().dom().contains(*key));
                        assert(!sub.as_map().contains_key(*key));
                        assert(sub.as_map().remove(*key) =~= sub.as_map());
                    }
                    (Option::None, Option::Some(at), Ghost(sub))
                },
                Option::Some(rl) => {
                    let (removed, newlink, g) = self.delete_at(
                        rl,
                        key,
                        Ghost(*sub->right),
                        Ghost(Option::Some(node_key)),
                        Ghost(hi),
                        Ghost(Option::Some(at)),
                    );
                    let ghost n1 = self.nodes@;
                    proof {
                        assert(!(*sub->right).has_idx(at as int));
                        assert(self.nodes@[at as int] == n0[at as int]);
                    }
                    let TreeNode { key: nk, value: nv, left: nl, right: _, parent: np } =
                        self.nodes[at].take().unwrap();
                    self.nodes.set(
                        at,
                        Option::Some(
                            TreeNode { key: nk, value: nv, left: nl, right: newlink, parent: np },
                        ),
                    );
                    let ghost s2 = Shape::branch(at as int, node_key, sub->value, *sub->left,
                        g@);
                    proof {
                        assert forall|j: int| #[trigger] g@.has_idx(j) implies self.nodes@[j]
                            == n1[j] by {
                            assert((*sub->right).has_idx(j));
                        }
                        lemma_mirrors_frame(g@, n1, self.nodes@, newlink, Option::Some(at));
                        assert forall|j: int| #[trigger] (*sub->left).has_idx(j) implies self
                            .nodes@[j] == n0[j] by {
                            assert(!(*sub->right).has_idx(j));
                            assert(n1[j] == n0[j]);
                        }
                        lemma_mirrors_frame(*sub->left, n0, self.nodes@, nl, Option::Some(at));
                        assert(mirrors(s2, self.nodes@, Option::Some(at), parent));
                        assert(!(*sub->left).as_map().dom().contains(*key));
                        assert(s2.as_map() =~= sub.as_map().remove(*key));
                        assert(sub.as_map().contains_key(*key) <==> (*sub->right).as_map()
                            .contains_key(*key));
                        assert(sub.as_map().contains_key(*key) ==> sub.as_map()[*key] == (
                        *sub->right).as_map()[*key]);
                        if !sub.as_map().contains_key(*key) {
                            assert(g@ == *sub->right);
                            assert(s2 == sub);
                        }
                        assert forall|j: int|
                            0 <= j < n0.len() && !(#[trigger] sub.has_idx(j)) implies self
                            .nodes@[j] == n0[j] by {
                            assert(!(*sub->right).has_idx(j));
                            assert(j != at);
                        }
                        assert forall|j: int| #[trigger] s2.has_idx(j) implies sub.has_idx(j) by {
                            if j == at {
                            } else if g@.has_idx(j) {
                                assert((*sub->right).has_idx(j));
                            } else {
                                assert((*sub->left).has_idx(j));
                            }
                        }
                        assert forall|j: int|
                            0 <= j < self.free@.len() implies (#[trigger] self.free@[j])
                            < self.nodes@.len() && self.nodes@[self.free@[j] as int] is None by {
                            assert(n1[self.free@[j] as int] is None);
                            assert(self.free@[j] != at);
                        }
                    }
                    (removed, Option::Some(at), Ghost(s2))
                },
            }
        } else {
            // node_key == *key: this is the node to detach.
            let node_left = self.nodes[at].as_ref().unwrap().left;
            let node_right = self.nodes[at].as_ref().unwrap().right;
            proof {
                assert(sub.as_map().contains_key(*key));
                assert(sub.as_map()[*key] == sub->value);
                assert(!(*sub->left).as_map().dom().contains(*key));
                assert(!(*sub->right).as_map().dom().contains(*key));
            }
            match (node_left, node_right) {
                (Option::None, Option::None) => {
                    proof {
                        assert(mirrors(*sub->left, n0, Option::None, Option::Some(at)));
                        assert(mirrors(*sub->right, n0, Option::None, Option::Some(at)));
                        assert(*sub->left is Nil);
                        assert(*sub->right is Nil);
                    }
                    let node = self.nodes[at].take().unwrap();
                    self.free.push(at);
                    proof {
                        crate::shape::lemma_nil::<V>(self.nodes@, parent);
                        assert((*sub->left).as_map() =~= Map::<i64, V>::empty());
                        assert((*sub->right).as_map() =~= Map::<i64, V>::empty());
                        assert(Shape::<V>::Nil.as_map() =~= sub.as_map().remove(*key));
                        assert((*sub->left).count() == 0);
                        assert((*sub->right).count() == 0);
                        assert(sub.count() == 1);
                        assert forall|j: int|
                            0 <= j < self.free@.len() implies (#[trigger] self.free@[j])
                            < self.nodes@.len() && self.nodes@[self.free@[j] as int] is None by {
                            if j < f0.len() {
                                assert(self.free@[j] == f0[j]);
                                assert(n0[f0[j] as int] is None);
                                assert(f0[j] != at);
                            } else {
                                assert(self.free@[j] == at);
                            }
                        }
                        assert forall|a: int, b: int|
                            0 <= a < b < self.free@.len() implies #[trigger] self.free@[a]
                            != #[trigger] self.free@[b] by {
                            if b < f0.len() {
                                assert(self.free@[a] == f0[a] && self.free@[b] == f0[b]);
                            } else {
                                assert(self.free@[b] == at);
                                assert(n0[f0[a] as int] is None);
                                assert(f0[a] != at);
                            }
                        }
                    }
                    (Option::Some(node), Option::None, Ghost(Shape::<V>::Nil))
                },
                (Option::Some(li), Option::None) => {
                    proof {
                        assert(mirrors(*sub->right, n0, Option::None, Option::Some(at)));
                        assert(*sub->right is Nil);
                        assert((*sub->right).as_map() =~= Map::<i64, V>::empty());
                        assert(mirrors(*sub->left, n0, Option::Some(li), Option::Some(at)));
                        assert((*sub->left).has_idx(li as int));
                        assert(!(*sub->left).has_idx(at as int));
                    }
                    let node = self.nodes[at].take().unwrap();
                    self.free.push(at);
                    let TreeNode { key: lk, value: lv, left: ll, right: lr, parent: _ } =
                        self.nodes[li].take().unwrap();
                    self.nodes.set(
                        li,
                        Option::Some(
                            TreeNode {
                                key: lk,
                                value: lv,
                                left: ll,
                                right: lr,
                                parent: node.parent,
                            },
                        ),
                    );
                    let ghost s2 = *sub->left;
                    proof {
                        assert(forall|j: int|
                            0 <= j < n0.len() && j != at && j != li ==> self.nodes@[j] == n0[j]);
                        assert((*sub->left).distinct());
                        assert(!(*(*sub->left)->left).has_idx(li as int));
                        assert(!(*(*sub->left)->right).has_idx(li as int));
                        assert forall|j: int| #[trigger] (*s2->left).has_idx(j) implies self
                            .nodes@[j] == n0[j] by {
                            assert((*sub->left).has_idx(j));
                            assert(j != at && j != li);
                        }
                        assert forall|j: int| #[trigger] (*s2->right).has_idx(j) implies self
                            .nodes@[j] == n0[j] by {
                            assert((*sub->left).has_idx(j));
                            assert(j != at && j != li);
                        }
                        lemma_mirrors_frame(*s2->left, n0, self.nodes@, ll, Option::Some(li));
                        lemma_mirrors_frame(*s2->right, n0, self.nodes@, lr, Option::Some(li));
                        assert(mirrors(s2, self.nodes@, Option::Some(li), parent));
                        lemma_bst_widen(s2, lo, Option::Some(node_key), lo, hi);
                        assert((*sub->right).count() == 0);
                        assert(s2.count() + 1 == sub.count());
                        assert(s2.as_map() =~= sub.as_map().remove(*key));
                        assert forall|j: int|
                            0 <= j < n0.len() && !(#[trigger] sub.has_idx(j)) implies self
                            .nodes@[j] == n0[j] by {
                            assert(!(*sub->left).has_idx(j));
                            assert(j != at && j != li);
                        }
                        assert forall|j: int| #[trigger] s2.has_idx(j) implies sub.has_idx(j)
                            by {}
                        assert forall|j: int|
                            0 <= j < self.free@.len() implies (#[trigger] self.free@[j])
                            < self.nodes@.len() && self.nodes@[self.free@[j] as int] is None by {
                            if j < f0.len() {
                                assert(self.free@[j] == f0[j]);
                                assert(n0[f0[j] as int] is None);
                                assert(f0[j] != at);
                                assert(f0[j] != li);
                            } else {
                                assert(self.free@[j] == at);
                            }
                        }
                        assert forall|a: int, b: int|
                            0 <= a < b < self.free@.len() implies #[trigger] self.free@[a]
                            != #[trigger] self.free@[b] by {
                            if b < f0.len() {
                                assert(self.free@[a] == f0[a] && self.free@[b] == f0[b]);
                            } else {
                                assert(self.free@[b] == at);
                                assert(n0[f0[a] as int] is None);
                                assert(f0[a] != at);
                                assert(f0[a] != li);
                            }
                        }
                    }
                    (Option::Some(node), Option::Some(li), Ghost(s2))
                },
                (Option::None, Option::Some(ri)) => {
                    proof {
                        assert(mirrors(*sub->left, n0, Option::None, Option::Some(at)));
                        assert(*sub->left is Nil);
                        assert((*sub->left).as_map() =~= Map::<i64, V>::empty());
                        assert(mirrors(*sub->right, n0, Option::Some(ri), Option::Some(at)));
                        assert((*sub->right).has_idx(ri as int));
                        assert(!(*sub->right).has_idx(at as int));
                    }
                    let node = self.nodes[at].take().unwrap();
                    self.free.push(at);
                    let TreeNode { key: rk, value: rv, left: rl, right: rr, parent: _ } =
                        self.nodes[ri].take().unwrap();
                    self.nodes.set(
                        ri,
                        Option::Some(
                            TreeNode {
                                key: rk,
                                value: rv,
                                left: rl,
                                right: rr,
                                parent: node.parent,
                            },
                        ),
                    );
                    let ghost s2 = *sub->right;
                    proof {
                        assert(forall|j: int|
                            0 <= j < n0.len() && j != at && j != ri ==> self.nodes@[j] == n0[j]);
                        assert((*sub->right).distinct());
                        assert(!(*(*sub->right)->left).has_idx(ri as int));
                        assert(!(*(*sub->right)->right).has_idx(ri as int));
                        assert forall|j: int| #[trigger] (*s2->left).has_idx(j) implies self
                            .nodes@[j] == n0[j] by {
                            assert((*sub->right).has_idx(j));
                            assert(j != at && j != ri);
                        }
                        assert forall|j: int| #[trigger] (*s2->right).has_idx(j) implies self
                            .nodes@[j] == n0[j] by {
                            assert((*sub->right).has_idx(j));
                            assert(j != at && j != ri);
                        }
                        lemma_mirrors_frame(*s2->left, n0, self.nodes@, rl, Option::Some(ri));
                        lemma_mirrors_frame(*s2->right, n0, self.nodes@, rr, Option::Some(ri));
                        assert(mirrors(s2, self.nodes@, Option::Some(ri), parent));
                        lemma_bst_widen(s2, Option::Some(node_key), hi, lo, hi);
                        assert((*sub->left).count() == 0);
                        assert(s2.count() + 1 == sub.count());
                        assert(s2.as_map() =~= sub.as_map().remove(*key));
                        assert forall|j: int|
                            0 <= j < n0.len() && !(#[trigger] sub.has_idx(j)) implies self
                            .nodes@[j] == n0[j] by {
                            assert(!(*sub->right).has_idx(j));
                            assert(j != at && j != ri);
                        }
                        assert forall|j: int| #[trigger] s2.has_idx(j) implies sub.has_idx(j)
                            by {}
                        assert forall|j: int|
                            0 <= j < self.free@.len() implies (#[trigger] self.free@[j])
                            < self.nodes@.len() && self.nodes@[self.free@[j] as int] is None by {
                            if j < f0.len() {
                                assert(self.free@[j] == f0[j]);
                                assert(n0[f0[j] as int] is None);
                                assert(f0[j] != at);
                                assert(f0[j] != ri);
                            } else {
                                assert(self.free@[j] == at);
                            }
                        }
                        assert forall|a: int, b: int|
                            0 <= a < b < self.free@.len() implies #[trigger] self.free@[a]
                            != #[trigger] self.free@[b] by {
                            if b < f0.len() {
                                assert(self.free@[a] == f0[a] && self.free@[b] == f0[b]);
                            } else {
                                assert(self.free@[b] == at);
                                assert(n0[f0[a] as int] is None);
                                assert(f0[a] != at);
                                assert(f0[a] != ri);
                            }
                        }
                    }
                    (Option::Some(node), Option::Some(ri), Ghost(s2))
                },
                (Option::Some(li), Option::Some(ri)) => {
                    proof {
                        assert(mirrors(*sub->left, n0, Option::Some(li), Option::Some(at)));
                        assert(mirrors(*sub->right, n0, Option::Some(ri), Option::Some(at)));
                        assert((*sub->left).has_idx(li as int));
                        assert((*sub->right).has_idx(ri as int));
                        assert(!(*sub->left).has_idx(at as int));
                        assert(!(*sub->right).has_idx(at as int));
                        crate::shape::lemma_seq_lens(*sub->right);
                    }
                    let s_idx = self.leftmost_at(ri, Ghost(*sub->right), Ghost(Option::Some(at)));
                    proof {
                        lemma_idx_seq_has(*sub->right, 0);
                        assert((*sub->right).has_idx(s_idx as int));
                        assert(!(*sub->left).has_idx(s_idx as int));
                    }
                    let node = self.nodes[at].take().unwrap();
                    self.free.push(at);
                    let TreeNode { key: lk, value: lv, left: ll, right: lr, parent: _ } =
                        self.nodes[li].take().unwrap();
                    self.nodes.set(
                        li,
                        Option::Some(
                            TreeNode {
                                key: lk,
                                value: lv,
                                left: ll,
                                right: lr,
                                parent: Option::Some(s_idx),
                            },
                        ),
                    );
                    if s_idx == ri {
                        let TreeNode { key: rk, value: rv, left: _, right: rr, parent: _ } =
                            self.nodes[ri].take().unwrap();
                        self.nodes.set(
                            ri,
                            Option::Some(
                                TreeNode {
                                    key: rk,
                                    value: rv,
                                    left: Option::Some(li),
                                    right: rr,
                                    parent: node.parent,
                                },
                            ),
                        );
                    } else {
                        let TreeNode { key: sk, value: sv, left: _, right: sr, parent: sp } =
                            self.nodes[s_idx].take().unwrap();
                        self.nodes.set(
                            s_idx,
                            Option::Some(
                                TreeNode {
                                    key: sk,
                                    value: sv,
                                    left: Option::Some(li),
                                    right: sr,
                                    parent: sp,
                                },
                            ),
                        );
                        let TreeNode { key: rk, value: rv, left: rl2, right: rr, parent: _ } =
                            self.nodes[ri].take().unwrap();
                        self.nodes.set(
                            ri,
                            Option::Some(
                                TreeNode {
                                    key: rk,
                                    value: rv,
                                    left: rl2,
                                    right: rr,
                                    parent: node.parent,
                                },
                            ),
                        );
                    }
                    let ghost s2 = (*sub->right).attach_leftmost(*sub->left);
                    proof {
                        let n2 = self.nodes@;
                        // the left subtree still stands, under its new parent
                        assert(forall|j: int|
                            0 <= j < n0.len() && j != at && j != li && j != s_idx && j != ri
                                ==> n2[j] == n0[j]);
                        assert((*sub->left).distinct());
                        assert(!(*(*sub->left)->left).has_idx(li as int));
                        assert(!(*(*sub->left)->right).has_idx(li as int));
                        assert forall|j: int| #[trigger] (*(*sub->left)->left).has_idx(j) implies
                            n2[j] == n0[j] by {
                            assert((*sub->left).has_idx(j));
                            assert(!(*sub->right).has_idx(j));
                            assert(j != at && j != li && j != s_idx && j != ri);
                        }
                        assert forall|j: int| #[trigger] (*(*sub->left)->right).has_idx(j) implies
                            n2[j] == n0[j] by {
                            assert((*sub->left).has_idx(j));
                            assert(!(*sub->right).has_idx(j));
                            assert(j != at && j != li && j != s_idx && j != ri);
                        }
                        lemma_mirrors_frame(*(*sub->left)->left, n0, n2, ll, Option::Some(li));
                        lemma_mirrors_frame(*(*sub->left)->right, n0, n2, lr, Option::Some(li));
                        assert(mirrors(*sub->left, n2, Option::Some(li), Option::Some(s_idx)));
                        assert forall|j: int|
                            #[trigger] (*sub->right).has_idx(j) && j != s_idx as int && j
                                != ri as int implies n2[j] == n0[j] by {
                            assert(!(*sub->left).has_idx(j));
                            assert(j != at && j != li);
                        }
                        lemma_attach_mirrors(
                            *sub->right,
                            *sub->left,
                            n0,
                            n2,
                            ri,
                            s_idx,
                            li,
                            Option::Some(at),
                            parent,
                        );
                        lemma_attach_props(*sub->right, *sub->left);
                        lemma_attach_distinct(*sub->right, *sub->left);
                        lemma_attach_bst(*sub->right, *sub->left, node_key, lo, hi);
                        assert(s2.count() + 1 == sub.count());
                        assert(s2.as_map() =~= sub.as_map().remove(*key));
                        assert forall|j: int|
                            0 <= j < n0.len() && !(#[trigger] sub.has_idx(j)) implies self
                            .nodes@[j] == n0[j] by {
                            assert(!(*sub->left).has_idx(j));
                            assert(!(*sub->right).has_idx(j));
                            assert(j != at && j != li && j != s_idx && j != ri);
                        }
                        assert forall|j: int| #[trigger] s2.has_idx(j) implies sub.has_idx(j) by {
                            assert((*sub->right).has_idx(j) || (*sub->left).has_idx(j));
                        }
                        assert forall|j: int|
                            0 <= j < self.free@.len() implies (#[trigger] self.free@[j])
                            < self.nodes@.len() && self.nodes@[self.free@[j] as int] is None by {
                            if j < f0.len() {
                                assert(self.free@[j] == f0[j]);
                                assert(n0[f0[j] as int] is None);
                                assert(f0[j] != at);
                                assert(f0[j] != li);
                                assert(f0[j] != s_idx);
                                assert(f0[j] != ri);
                            } else {
                                assert(self.free@[j] == at);
                            }
                        }
                        assert forall|a: int, b: int|
                            0 <= a < b < self.free@.len() implies #[trigger] self.free@[a]
                            != #[trigger] self.free@[b] by {
                            if b < f0.len() {
                                assert(self.free@[a] == f0[a] && self.free@[b] == f0[b]);
                            } else {
                                assert(self.free@[b] == at);
                                assert(n0[f0[a] as int] is None);
                                assert(f0[a] != at);
                                assert(f0[a] != li);
                                assert(f0[a] != s_idx);
                                assert(f0[a] != ri);
                            }
                        }
                    }
                    (Option::Some(node), Option::Some(ri), Ghost(s2))
                },
            }
        }
    }

    /// Remove `key`.  Returns the detached node — only its key and value
    /// are meaningful — or `None` when the key is absent, in which case
    /// the tree is unchanged, slot for slot.  The final shape is
    /// `spec_delete` of the old one: a node with at most one child is
    /// bypassed, and a node with two is replaced by its right child with
    /// the left subtree reattached under that child's leftmost
    /// descendant.
    pub fn delete(&mut self, key: &i64) -> (removed: Option<TreeNode<V>>)
        requires
            old(self).wf(),
        ensures
            final(self).wf(),
            final(self).as_map() == old(self).as_map().remove(*key),
            old(self).as_map().contains_key(*key) ==> removed is Some
                && removed.unwrap().spec_key() == *key && removed.unwrap().spec_value() == old(self).as_map()[*key] && final(self).spec_len() + 1 == old(self).spec_len(),
            !old(self).as_map().contains_key(*key) ==> removed is None && final(self).spec_len()
                == old(self).spec_len(),
            final(self).shape() == old(self).shape().spec_delete(*key),
            !old(self).as_map().contains_key(*key) ==> final(self).shape() == old(self).shape()
                && final(self).slots() == old(self).slots() && final(self).root_link() == old(self).root_link() && final(self).free_slots() == old(self).free_slots(),
    {
        match self.root {
            Option::None => {
                proof {
                    assert(self.shape@ is Nil);
                    assert(self.as_map() =~= Map::<i64, V>::empty());
                    assert(self.as_map().remove(*key) =~= self.as_map());
                    assert(self.shape@.spec_delete(*key) == self.shape@);
                }
                Option::None
            },
            Option::Some(ri) => {
                let (removed, newlink, g) = self.delete_at(
                    ri,
                    key,
                    Ghost(self.shape@),
                    Ghost(Option::None),
                    Ghost(Option::None),
                    Ghost(Option::None),
                );
                self.root = newlink;
                self.shape = g;
                if removed.is_some() {
                    self.size = self.size - 1;
                }
                removed
            },
        }
    }
}

} // verus!
