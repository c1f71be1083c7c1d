//! The in-order cursor.  It owns the tree it was made from and walks it
//! in ascending key order without a stack: the successor of a node with a
//! right child is the leftmost descendant of that child; otherwise it is
//! the first ancestor reached by climbing out of a right subtree.

use vstd::prelude::*;

use crate::node::TreeNode;
use crate::shape::{lemma_idx_seq_has, lemma_idx_seq_no_dup, lemma_mirrors_ord, lemma_nav,
    lemma_seq_lens, mirrors};
use crate::tree::Tree;

verus! {

/// A one-shot forward cursor over the nodes of a tree, in ascending key
/// order.  It consumes the tree; each node is yielded exactly once.
pub struct TreeNodeIterator<V> {
    pub(crate) tree: Tree<V>,
    pub(crate) current: Option<usize>,
    pub(crate) pos: Ghost<int>,
}

impl<V> Tree<V> {
    /// Climb the parent links from slot `t`, whose subtree holds exactly
    /// the in-order positions before `pos1`, to the node at position
    /// `pos1`: the first ancestor reached out of a left child.  `None`
    /// when the walk is over.
    fn climb_from(&self, t: usize, Ghost(pos1): Ghost<int>) -> (r: Option<usize>)
        requires
            self.wf(),
            self.shape@.has_idx(t as int),
            self.shape@.off_of(t as int) + self.shape@.sub_at(t as int).count() == pos1,
        ensures
            pos1 <= self.shape@.count(),
            pos1 < self.shape@.count() ==> r is Some && r.unwrap() as int
                == self.shape@.idx_seq()[pos1],
            pos1 == self.shape@.count() ==> r is None,
        decreases self.shape@.count() - self.shape@.sub_at(t as int).count(),
    {
        let ghost s = self.shape@;
        let ghost n = self.nodes@;
        let arena_len = self.nodes.len();
        proof {
            assert(n.len() == arena_len);
            lemma_seq_lens(s);
            crate::shape::lemma_mirrors_in_bounds(s, n, self.root, Option::None);
            lemma_nav(s, n, self.root, Option::None, Option::None, Option::None, t as int);
            assert(mirrors(
                s.sub_at(t as int),
                n,
                Option::Some(t),
                match s.parent_of(t as int) {
                    Option::None => Option::<usize>::None,
                    Option::Some(q) => Option::Some(q as usize),
                },
            ));
            assert(n[t as int].unwrap().key == s.sub_at(t as int)->key);
        }
        let node_parent = self.nodes[t].as_ref().unwrap().parent;
        match node_parent {
            Option::None => {
                proof {
                    assert(s.parent_of(t as int) is None);
                    assert(s.sub_at(t as int) == s && s.off_of(t as int) == 0);
                }
                Option::None
            },
            Option::Some(p) => {
                proof {
                    assert(s.parent_of(t as int) is Some);
                    let q = s.parent_of(t as int).unwrap();
                    assert(s.has_idx(q));
                    assert(0 <= q < n.len());
                    assert(mirrors(s.sub_at(t as int), n, Option::Some(t), Option::Some(
                        q as usize,
                    )));
                    assert(s.sub_at(t as int)->idx == t as int);
                    assert(n[t as int].unwrap().parent == Option::Some(q as usize));
                    assert(p == q as usize);
                    assert(q == p as int);
                    lemma_nav(s, n, self.root, Option::None, Option::None, Option::None, q);
                    assert(mirrors(
                        s.sub_at(q),
                        n,
                        Option::Some(q as usize),
                        match s.parent_of(q) {
                            Option::None => Option::<usize>::None,
                            Option::Some(g) => Option::Some(g as usize),
                        },
                    ));
                    assert(n[q].unwrap().key == s.sub_at(q)->key);
                    lemma_seq_lens(*s.sub_at(q)->left);
                }
                let tk = self.nodes[t].as_ref().unwrap().key;
                let pk = self.nodes[p].as_ref().unwrap().key;
                if tk < pk {
                    proof {
                        let q = p as int;
                        let psub = s.sub_at(q);
                        assert(*psub->left == s.sub_at(t as int) && s.off_of(t as int)
                            == s.off_of(q));
                        let lcp = (*psub->left).count() as int;
                        assert(psub.idx_seq()[lcp] == q);
                        assert(s.idx_seq().subrange(
                            s.off_of(q),
                            s.off_of(q) + psub.count() as int,
                        ) == psub.idx_seq());
                        assert(s.idx_seq()[s.off_of(q) + lcp] == psub.idx_seq()[lcp]);
                        assert(pos1 == s.off_of(q) + lcp);
                        assert(s.idx_seq()[pos1] == q);
                        assert(pos1 < s.count());
                    }
                    Option::Some(p)
                } else {
                    proof {
                        let q = p as int;
                        let psub = s.sub_at(q);
                        assert(*psub->right == s.sub_at(t as int));
                        assert(s.off_of(t as int) == s.off_of(q) + (*psub->left).count() + 1);
                        assert(s.off_of(q) + psub.count() == pos1);
                        assert(psub.count() > s.sub_at(t as int).count());
                    }
                    self.climb_from(p, Ghost(pos1))
                }
            },
        }
    }

    /// Surrender the tree to a cursor seeded at its least node.  The
    /// cursor will yield exactly the tree's pairs, in ascending key
    /// order.
    pub fn iter_node(self) -> (c: TreeNodeIterator<V>)
        requires
            self.wf(),
        ensures
            c.wf(),
            c.remaining() == self.pairs(),
            c.tree() == self,
    {
        proof {
            lemma_seq_lens(self.shape@);
            assert(self.shape@.pair_seq().skip(0) =~= self.shape@.pair_seq());
        }
        match self.root {
            Option::None => {
                proof {
                    assert(self.shape@ is Nil);
                }
                TreeNodeIterator { tree: self, current: Option::None, pos: Ghost(0) }
            },
            Option::Some(ri) => {
                let i = self.leftmost_at(ri, Ghost(self.shape@), Ghost(Option::None));
                TreeNodeIterator { tree: self, current: Option::Some(i), pos: Ghost(0) }
            },
        }
    }
}

impl<V> TreeNodeIterator<V> {
    /// The cursor stands at in-order position `pos` of the tree it owns,
    /// or one past the end with no current node.
    pub open(crate) spec fn wf(self) -> bool {
        &&& self.tree.wf()
        &&& 0 <= self.pos@ <= self.tree.shape@.count()
        &&& self.pos@ < self.tree.shape@.count() ==> self.current is Some
            && self.current.unwrap() as int == self.tree.shape@.idx_seq()[self.pos@]
        &&& self.pos@ == self.tree.shape@.count() ==> self.current is None
    }

    /// The key/value pairs not yet yielded, in ascending key order.
    pub open(crate) spec fn remaining(self) -> Seq<(i64, V)> {
        self.tree.shape@.pair_seq().skip(self.pos@)
    }

    /// The tree the cursor owns and walks; advancing never changes it.
    pub open(crate) spec fn tree(self) -> Tree<V> {
        self.tree
    }

    /// A handle to the node that `next` would yield, without advancing.
    pub fn peek(&self) -> (r: Option<&TreeNode<V>>)
        requires
            self.wf(),
        ensures
            self.remaining().len() > 0 ==> r is Some && r.unwrap().spec_key()
                == self.remaining()[0].0 && r.unwrap().spec_value() == self.remaining()[0].1,
            self.remaining().len() == 0 ==> r is None,
    {
        proof {
            lemma_seq_lens(self.tree.shape@);
            lemma_mirrors_ord(self.tree.shape@, self.tree.nodes@, self.tree.root, Option::None);
        }
        match self.current {
            Option::None => Option::None,
            Option::Some(cur) => Option::Some(self.tree.nodes[cur].as_ref().unwrap()),
        }
    }

    /// Step past the current node: seek the leftmost node of the right
    /// subtree, or climb until an ancestor is entered from its left
    /// child.
    fn find_next(&mut self, cur: usize)
        requires
            old(self).wf(),
            old(self).pos@ < old(self).tree.shape@.count(),
            old(self).current == Option::Some(cur),
        ensures
            final(self).wf(),
            final(self).tree == old(self).tree,
            final(self).pos@ == old(self).pos@ + 1,
    {
        let ghost s = self.tree.shape@;
        let ghost n = self.tree.nodes@;
        let ghost pos = self.pos@;
        let ghost csub = s.sub_at(cur as int);
        let ghost off = s.off_of(cur as int);
        let ghost lc = (*csub->left).count() as int;
        proof {
            lemma_seq_lens(s);
            lemma_idx_seq_has(s, pos);
            lemma_nav(s, n, self.tree.root, Option::None, Option::None, Option::None, cur as int);
            lemma_idx_seq_no_dup(s);
            lemma_seq_lens(*csub->left);
            lemma_seq_lens(*csub->right);
            assert(mirrors(
                csub,
                n,
                Option::Some(cur),
                match s.parent_of(cur as int) {
                    Option::None => Option::<usize>::None,
                    Option::Some(q) => Option::Some(q as usize),
                },
            ));
            // the cursor's position is where this slot's subtree puts its root
            assert(csub.idx_seq()[lc] == cur as int);
            assert(s.idx_seq().subrange(off, off + csub.count() as int) == csub.idx_seq());
            assert(s.idx_seq()[off + lc] == csub.idx_seq()[lc]);
            assert(pos == off + lc);
        }
        let node_right = self.tree.nodes[cur].as_ref().unwrap().right;
        match node_right {
            Option::Some(ri) => {
                proof {
                    assert(mirrors(*csub->right, n, Option::Some(ri), Option::Some(cur)));
                }
                let nxt = self.tree.leftmost_at(ri, Ghost(*csub->right), Ghost(Option::Some(cur)));
                proof {
                    assert(csub.idx_seq()[lc + 1] == (*csub->right).idx_seq()[0]);
                    assert(s.idx_seq()[pos + 1] == csub.idx_seq()[lc + 1]);
                    assert(pos + 1 < s.count());
                }
                self.current = Option::Some(nxt);
                self.pos = Ghost(pos + 1);
            },
            Option::None => {
                proof {
                    assert(mirrors(*csub->right, n, Option::None, Option::Some(cur)));
                    assert(*csub->right is Nil);
                    assert((*csub->right).count() == 0);
                    assert(off + csub.count() == pos + 1);
                }
                let nxt = self.tree.climb_from(cur, Ghost(pos + 1));
                self.current = nxt;
                self.pos = Ghost(pos + 1);
            },
        }
    }

    /// Yield the key of the current node and advance to its in-order
    /// successor; `None` once every node has been yielded.
    pub fn next(&mut self) -> (r: Option<i64>)
        requires
            old(self).wf(),
        ensures
            final(self).wf(),
            final(self).tree() == old(self).tree(),
            old(self).remaining().len() > 0 ==> r == Option::Some(old(self).remaining()[0].0)
                && final(self).remaining() == old(self).remaining().skip(1),
            old(self).remaining().len() == 0 ==> r is None && *final(self) == *old(self),
    {
        proof {
            lemma_seq_lens(self.tree.shape@);
        }
        match self.current {
            Option::None => Option::None,
            Option::Some(cur) => {
                proof {
                    lemma_mirrors_ord(
                        self.tree.shape@,
                        self.tree.nodes@,
                        self.tree.root,
                        Option::None,
                    );
                }
                let k = self.tree.nodes[cur].as_ref().unwrap().key;
                self.find_next(cur);
                proof {
                    assert(self.remaining() =~= old(self).remaining().skip(1));
                }
                Option::Some(k)
            },
        }
    }
}

} // verus!
