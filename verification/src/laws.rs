//! The laws of the container, stated once over the views that the
//! operations' contracts use: in-order sortedness, size agreement, key
//! uniqueness, the find/insert round trip, absence after deletion, parent
//! consistency, how the arena links follow the shape, and what a cleared
//! tree admits.

use vstd::prelude::*;

use crate::shape::{lemma_bst_sorted, lemma_map_pair_seq, lemma_mirrors_in_bounds, lemma_nav,
    lemma_seq_lens, mirrors};
use crate::tree::Tree;

verus! {

/// BST order: on any well-formed tree — and every operation returns one —
/// the in-order walk, which is what iteration yields, lists keys in
/// strictly ascending order.
pub proof fn lemma_in_order_sorted<V>(t: Tree<V>)
    requires
        t.wf(),
    ensures
        forall|a: int, b: int|
            0 <= a < b < t.pairs().len() ==> #[trigger] t.pairs()[a].0 < #[trigger] t.pairs()[b].0,
{
    lemma_bst_sorted(t.shape@, Option::None, Option::None);
}

/// Size agreement: `len` returns `spec_len`, and the pairs that
/// iteration yields are exactly that many.
pub proof fn lemma_size_agreement<V>(t: Tree<V>)
    requires
        t.wf(),
    ensures
        t.spec_len() == t.pairs().len(),
{
    lemma_seq_lens(t.shape@);
}

/// The in-order walk and the map agree: every yielded pair is an entry
/// of the map, and every key of the map is yielded somewhere.
pub proof fn lemma_pairs_map_agree<V>(t: Tree<V>)
    requires
        t.wf(),
    ensures
        forall|j: int|
            0 <= j < t.pairs().len() ==> t.as_map().contains_key(#[trigger] t.pairs()[j].0)
                && t.as_map()[t.pairs()[j].0] == t.pairs()[j].1,
        forall|k: i64|
            #[trigger] t.as_map().contains_key(k) ==> exists|j: int|
                0 <= j < t.pairs().len() && #[trigger] t.pairs()[j].0 == k,
{
    lemma_map_pair_seq(t.shape@, Option::None, Option::None);
    assert forall|k: i64| #[trigger] t.as_map().contains_key(k) implies exists|j: int|
        0 <= j < t.pairs().len() && #[trigger] t.pairs()[j].0 == k by {
        let j = choose|j: int|
            0 <= j < t.shape@.pair_seq().len() && #[trigger] t.shape@.pair_seq()[j].0 == k;
        assert(t.pairs()[j].0 == k);
    }
}

/// Uniqueness: a key the tree holds occupies exactly one in-order
/// position.  Together with `insert`'s contract — which returns the prior
/// value on an equal key and leaves the count unchanged — inserting a key
/// twice leaves one node under it.
pub proof fn lemma_key_unique<V>(t: Tree<V>, k: i64)
    requires
        t.wf(),
        t.as_map().contains_key(k),
    ensures
        exists|j: int| 0 <= j < t.pairs().len() && #[trigger] t.pairs()[j].0 == k,
        forall|a: int, b: int|
            0 <= a < t.pairs().len() && 0 <= b < t.pairs().len() && #[trigger] t.pairs()[a].0 == k
                && #[trigger] t.pairs()[b].0 == k ==> a == b,
{
    lemma_map_pair_seq(t.shape@, Option::None, Option::None);
    lemma_bst_sorted(t.shape@, Option::None, Option::None);
    let j = choose|j: int|
        0 <= j < t.shape@.pair_seq().len() && #[trigger] t.shape@.pair_seq()[j].0 == k;
    assert(t.pairs()[j].0 == k);
}

/// Replace on equal: a second insert of the same key leaves the map a
/// single insert would leave, and finds the first value in place — by
/// `insert`'s contract, the second call returns it.
pub proof fn lemma_insert_twice<V>(m: Map<i64, V>, k: i64, v1: V, v2: V)
    ensures
        m.insert(k, v1).insert(k, v2) == m.insert(k, v2),
        m.insert(k, v1).contains_key(k),
        m.insert(k, v1)[k] == v1,
{
    assert(m.insert(k, v1).insert(k, v2) =~= m.insert(k, v2));
}

/// Round trip: a tree that `insert(k, v)` left — its map is the old map
/// with `k` bound to `v` — holds `v` under `k`, so `find`'s contract
/// yields a handle with value `v`; inserts and deletions of other keys
/// leave the entry alone.
pub proof fn lemma_round_trip<V>(m: Map<i64, V>, k: i64, v: V, k2: i64, v2: V)
    requires
        k2 != k,
    ensures
        m.insert(k, v).contains_key(k) && m.insert(k, v)[k] == v,
        m.insert(k, v).insert(k2, v2).contains_key(k) && m.insert(k, v).insert(k2, v2)[k] == v,
        m.insert(k, v).remove(k2).contains_key(k) && m.insert(k, v).remove(k2)[k] == v,
{
}

/// Deletion absence: a tree that `delete(&k)` left — its map is the old
/// map without `k` — does not hold `k`, so `find`'s contract returns
/// `None`.
pub proof fn lemma_deletion_absence<V>(t1: Tree<V>, t2: Tree<V>, k: i64)
    requires
        t2.as_map() == t1.as_map().remove(k),
    ensures
        !t2.as_map().contains_key(k),
{
}

/// Parent consistency: a well-formed tree with a live node has a root;
/// the root's parent link is empty, and every other node's parent link
/// names a live node of which it is exactly one of the two children.
pub proof fn lemma_parent_consistency<V>(t: Tree<V>, i: int)
    requires
        t.wf(),
        t.live_at(i),
    ensures
        t.root_link() is Some,
        t.shape() is Node && t.root_link().unwrap() as int == t.shape()->idx,
        i == t.root_link().unwrap() as int ==> t.parent_link_of(i) is None,
        i != t.root_link().unwrap() as int ==> t.parent_link_of(i) is Some && t.live_at(
            t.parent_link_of(i).unwrap() as int,
        ) && ((t.left_link_of(t.parent_link_of(i).unwrap() as int) == Option::Some(i as usize)) != (
        t.right_link_of(t.parent_link_of(i).unwrap() as int) == Option::Some(i as usize))),
{
    let s = t.shape@;
    let n = t.nodes@;
    assert(s is Node);
    lemma_mirrors_in_bounds(s, n, t.root, Option::None);
    lemma_nav(s, n, t.root, Option::None, Option::None, Option::None, i);
    assert(mirrors(
        s.sub_at(i),
        n,
        Option::Some(i as usize),
        match s.parent_of(i) {
            Option::None => Option::<usize>::None,
            Option::Some(q) => Option::Some(q as usize),
        },
    ));
    match s.parent_of(i) {
        Option::None => {
            assert(s.sub_at(i) == s);
            assert(i == s->idx);
            assert(t.root.unwrap() as int == i);
            assert(n[i].unwrap().parent == Option::<usize>::None);
        },
        Option::Some(p) => {
            assert(i != s->idx);
            assert(t.root.unwrap() as int != i);
            assert(s.has_idx(p));
            assert(0 <= p < n.len());
            assert(n[i].unwrap().parent == Option::Some(p as usize));
            lemma_nav(s, n, t.root, Option::None, Option::None, Option::None, p);
            let psub = s.sub_at(p);
            assert(mirrors(
                psub,
                n,
                Option::Some(p as usize),
                match s.parent_of(p) {
                    Option::None => Option::<usize>::None,
                    Option::Some(g) => Option::Some(g as usize),
                },
            ));
            assert(mirrors(*psub->left, n, n[p].unwrap().left, Option::Some(p as usize)));
            assert(mirrors(*psub->right, n, n[p].unwrap().right, Option::Some(p as usize)));
            assert(psub.distinct());
            if *psub->left == s.sub_at(i) {
                assert((*psub->left)->idx == i);
                assert((*psub->left).has_idx(i));
                assert(n[p].unwrap().left is Some && n[p].unwrap().left.unwrap() as int == i);
                assert(n[p].unwrap().left == Option::Some(i as usize));
                assert(!(*psub->right).has_idx(i));
                if n[p].unwrap().right == Option::Some(i as usize) {
                    assert(mirrors(*psub->right, n, Option::Some(i as usize), Option::Some(
                        p as usize,
                    )));
                    assert(*psub->right is Node && (*psub->right)->idx == i);
                    assert((*psub->right).has_idx(i));
                    assert(false);
                }
            } else {
                assert(*psub->right == s.sub_at(i));
                assert((*psub->right)->idx == i);
                assert((*psub->right).has_idx(i));
                assert(n[p].unwrap().right is Some && n[p].unwrap().right.unwrap() as int == i);
                assert(n[p].unwrap().right == Option::Some(i as usize));
                assert(!(*psub->left).has_idx(i));
                if n[p].unwrap().left == Option::Some(i as usize) {
                    assert(mirrors(*psub->left, n, Option::Some(i as usize), Option::Some(
                        p as usize,
                    )));
                    assert(*psub->left is Node && (*psub->left)->idx == i);
                    assert((*psub->left).has_idx(i));
                    assert(false);
                }
            }
        },
    }
}

/// The links follow the shape: the node in slot `i` carries the key and
/// value of the subtree `shape().sub_at(i)` it roots; its child links
/// name exactly the roots of that subtree's children, and its parent
/// link names `shape().parent_of(i)`.  With `insert`'s and `delete`'s
/// shape clauses this pins every link an operation leaves behind.
pub proof fn lemma_links_follow_shape<V>(t: Tree<V>, i: int)
    requires
        t.wf(),
        t.live_at(i),
    ensures
        0 <= i < t.slots().len() && t.slots()[i] is Some,
        t.shape().sub_at(i) is Node && t.shape().sub_at(i)->idx == i,
        t.slots()[i].unwrap().spec_key() == t.shape().sub_at(i)->key,
        t.slots()[i].unwrap().spec_value() == t.shape().sub_at(i)->value,
        t.left_link_of(i) is Some <==> *t.shape().sub_at(i)->left is Node,
        t.left_link_of(i) is Some ==> t.left_link_of(i).unwrap() as int == (*t.shape().sub_at(
            i,
        )->left)->idx,
        t.right_link_of(i) is Some <==> *t.shape().sub_at(i)->right is Node,
        t.right_link_of(i) is Some ==> t.right_link_of(i).unwrap() as int == (*t.shape().sub_at(
            i,
        )->right)->idx,
        t.parent_link_of(i) is Some <==> t.shape().parent_of(i) is Some,
        t.parent_link_of(i) is Some ==> t.parent_link_of(i).unwrap() as int == t.shape().parent_of(
            i,
        ).unwrap(),
{
    let s = t.shape@;
    let n = t.nodes@;
    lemma_mirrors_in_bounds(s, n, t.root, Option::None);
    lemma_nav(s, n, t.root, Option::None, Option::None, Option::None, i);
    let isub = s.sub_at(i);
    assert(mirrors(
        isub,
        n,
        Option::Some(i as usize),
        match s.parent_of(i) {
            Option::None => Option::<usize>::None,
            Option::Some(q) => Option::Some(q as usize),
        },
    ));
    assert(mirrors(*isub->left, n, n[i].unwrap().left, Option::Some(i as usize)));
    assert(mirrors(*isub->right, n, n[i].unwrap().right, Option::Some(i as usize)));
    if *isub->left is Node {
        assert(n[i].unwrap().left is Some && n[i].unwrap().left.unwrap() as int == (
        *isub->left)->idx);
    } else {
        assert(n[i].unwrap().left is None);
    }
    if *isub->right is Node {
        assert(n[i].unwrap().right is Some && n[i].unwrap().right.unwrap() as int == (
        *isub->right)->idx);
    } else {
        assert(n[i].unwrap().right is None);
    }
    match s.parent_of(i) {
        Option::None => {
            assert(n[i].unwrap().parent is None);
        },
        Option::Some(q) => {
            assert(s.has_idx(q));
            assert(0 <= q < n.len());
            assert(n[i].unwrap().parent == Option::Some(q as usize));
            lemma_nav(s, n, t.root, Option::None, Option::None, Option::None, q);
            assert(mirrors(
                s.sub_at(q),
                n,
                Option::Some(q as usize),
                match s.parent_of(q) {
                    Option::None => Option::<usize>::None,
                    Option::Some(g) => Option::Some(g as usize),
                },
            ));
            assert(s.sub_at(q)->idx == q);
            assert((q as usize) as int == q);
        },
    }
}

/// Idempotent clear: `clear` needs nothing of the tree and always leaves
/// the empty well-formed tree, so clearing twice leaves a tree of length
/// zero, and — the map being empty — `insert`'s contract then returns
/// `None` for every key.
pub proof fn lemma_clear_idempotent<V>(t: Tree<V>, k: i64)
    requires
        t.as_map() == Map::<i64, V>::empty(),
        t.spec_len() == 0,
    ensures
        t.spec_len() == 0,
        !t.as_map().contains_key(k),
{
}

} // verus!
