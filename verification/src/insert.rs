//! Insertion: the descent under upgradable latches, and the splits that carry
//! an overflow from a leaf up to the root.

use crate::keys::{ascending, lower_bound, with_key};
use crate::latch::{LatchState, LatchType, NodeLatch};
use crate::model::{lemma_keys_ascend, lemma_root_covers, lemma_route, lemma_wf_loosen, lemma_wf_tighten, Meta, Model};
use crate::node::{BTreeNode, Node, NodeInner};
use crate::order::total_order;
use crate::steps::{lemma_put_key, lemma_split_child, lemma_split_root};
use crate::tree::{Tree, TreeError};
use vstd::prelude::*;

verus! {

/// From `m0` to `m1` the tree has only grown: the nodes of `m0` are recorded
/// as they were, and those above level `level` are what they were.
pub open spec fn grown<T: Ord>(m0: Model<T>, m1: Model<T>, level: nat) -> bool {
    &&& m1.nodes.len() >= m0.nodes.len()
    &&& m1.root == m0.root
    &&& m1.min_ord == m0.min_ord
    &&& m1.clock == m0.clock
    &&& m1.levels.len() == m0.levels.len()
    &&& forall|i: int| 0 <= i < m0.nodes.len() ==> #[trigger] m1.metas[i] == m0.metas[i]
    &&& forall|i: int|
        0 <= i < m0.nodes.len() && m0.metas[i].level > level ==> #[trigger] m1.nodes[i]
            == m0.nodes[i]
}

/// From `l0` to `l1` the latch of node `at` has been given up, or, if `kept`,
/// has become exclusive; nodes made since are not latched, and all other
/// latches are as they were.
pub open spec fn settled(l0: Seq<LatchState>, l1: Seq<LatchState>, at: int, kept: bool) -> bool {
    &&& l1.len() >= l0.len()
    &&& forall|i: int| 0 <= i < l0.len() && i != at ==> #[trigger] l1[i] == l0[i]
    &&& forall|i: int| l0.len() <= i < l1.len() ==> #[trigger] l1[i] == LatchState::idle()
    &&& l1[at] == if kept {
        LatchState::sole(LatchType::Excl)
    } else {
        LatchState::idle()
    }
}

impl<T: Ord + Copy> Tree<T> {
    /// Cuts node `c`, which holds one key too many, in two: makes its right
    /// sibling, moves the upper half there and links the sibling to it. Gives
    /// back the separator and the handle of the sibling.
    pub(crate) fn cut(&mut self, c: usize) -> (r: (T, usize))
        requires
            old(self).tidy(),
            c < old(self).model().nodes.len(),
            old(self).model().nodes[c as int].keys.len() == 2 * old(
                self,
            ).model().nodes[c as int].min_ord + 1,
            old(self).model().nodes[c as int].min_ord >= 1,
            !old(self).model().nodes[c as int].is_leaf() ==> old(
                self,
            ).model().nodes[c as int].children.len() == old(self).model().nodes[c as int].keys.len()
                + 1,
            old(self).latches()[c as int].exclusive,
        ensures
            final(self).model() == old(self).model().cut_node(c as int),
            r.0 == old(self).model().nodes[c as int].pivot(),
            r.1 == old(self).model().nodes.len(),
            old(self).model().nodes.len() < usize::MAX,
            final(self).latches() == old(self).latches().push(LatchState::idle()),
            final(self).tidy(),
    {
        let ghost m0 = self.model();
        let ghost n0 = m0.nodes[c as int];
        proof {
            self.lemma_open();
        }
        let fresh = self.nodes.len();
        let mo = self.nodes[c].inner.min_ord;
        let count = self.nodes[c].inner.keys.len();
        let leaf = self.nodes[c].inner.children.len() == 0;
        let upper_keys = self.nodes[c].inner.keys.split_off(mo + 1);
        let pivot = if leaf {
            upper_keys[0]
        } else {
            self.nodes[c].inner.keys.pop().unwrap()
        };
        let upper_children = if leaf {
            Vec::new()
        } else {
            self.nodes[c].inner.children.split_off(mo + 1)
        };
        let sibling = Node {
            latch: NodeLatch::new(),
            inner: NodeInner {
                min_ord: mo,
                root: false,
                keys: upper_keys,
                children: upper_children,
                right_link: self.nodes[c].inner.right_link,
                out_link: self.nodes[c].inner.out_link,
                low_key: Some(pivot),
                high_key: self.nodes[c].inner.high_key,
            },
        };
        self.nodes[c].inner.root = false;
        self.nodes[c].inner.right_link = Some(fresh);
        self.nodes[c].inner.high_key = Some(pivot);
        self.nodes.push(sibling);
        let total = self.nodes.len();
        proof {
            let l = m0.metas[c as int].level as int;
            self.metas@ = m0.metas.push(
                Meta { level: l as nat, live: true, retired_at: 0 },
            );
            self.levels@ = m0.levels.update(l, m0.levels[l].insert(m0.place(c as int) + 1, fresh as int));
            self.lemma_open();
            let m1 = self.model();
            let want = m0.cut_node(c as int);
            assert(m1.nodes[c as int].keys =~= n0.lower_half(fresh).keys);
            assert(m1.nodes[c as int].children =~= n0.lower_half(fresh).children);
            assert(m1.nodes[c as int] == n0.lower_half(fresh));
            assert(m1.nodes[fresh as int].keys =~= n0.upper_half().keys);
            assert(m1.nodes[fresh as int].children =~= n0.upper_half().children);
            assert(m1.nodes[fresh as int] == n0.upper_half());
            assert(m1.nodes =~= want.nodes);
            assert(self.latches() =~= old(self).latches().push(LatchState::idle()));
        }
        (pivot, fresh)
    }

    /// Splits child `j` of node `p`, which holds one key too many. The child
    /// is cut and linked to its new sibling under its own exclusive latch;
    /// once that latch is given up, `p` turns its upgradable latch into the
    /// exclusive one and takes the separator and the sibling in.
    pub(crate) fn split_child(&mut self, p: usize, j: usize)
        requires
            total_order::<T>(),
            old(self).tidy(),
            old(self).model().live(p as int),
            old(self).model().metas[p as int].level > 0,
            j < old(self).model().nodes[p as int].children.len(),
            old(self).model().wf(Some(old(self).model().nodes[p as int].children[j as int] as int)),
            old(self).model().nodes[old(self).model().nodes[p as int].children[j as int] as int].keys.len()
                == 2 * old(self).model().min_ord + 1,
            old(self).latches()[old(self).model().nodes[p as int].children[j as int] as int]
                == LatchState::sole(LatchType::Excl),
            old(self).latches()[p as int] == LatchState::sole(LatchType::Upgradable),
        ensures
            final(self).model() == old(self).model().split_child(p as int, j as int),
            final(self).model().wf(Some(p as int)),
            forall|k: T| final(self)@.contains(k) <==> old(self)@.contains(k),
            final(self).tidy(),
            final(self).latches() == old(self).latches().update(
                old(self).model().nodes[p as int].children[j as int] as int,
                LatchState::idle(),
            ).update(p as int, LatchState::sole(LatchType::Excl)).push(LatchState::idle()),
    {
        let ghost m0 = self.model();
        proof {
            self.lemma_open();
            assert(m0.node_ok(p as int, Some(m0.nodes[p as int].children[j as int] as int)));
            assert(m0.child_ok(p as int, j as int));
            assert(m0.node_ok(
                m0.nodes[p as int].children[j as int] as int,
                Some(m0.nodes[p as int].children[j as int] as int),
            ));
        }
        let c = self.nodes[p].inner.children[j];
        proof {
            assert(c == m0.nodes[p as int].children[j as int]);
            assert(m0.nodes[c as int].min_ord == m0.min_ord);
        }
        let (pivot, fresh) = self.cut(c);
        self.unlatch(c, LatchType::Excl);
        self.upgrade(p);
        proof {
            self.lemma_open();
            assert(self.model() == m0.cut_node(c as int));
            assert(self.model().nodes[p as int] == m0.nodes[p as int]);
            assert(self.nodes@[p as int].inner@ == m0.nodes[p as int]);
        }
        let ghost l1 = self.latches();
        let width = self.nodes[p].inner.children.len();
        self.nodes[p].inner.keys.insert(j, pivot);
        self.nodes[p].inner.children.insert(j + 1, fresh);
        proof {
            self.lemma_open();
            let m2 = self.model();
            let want = m0.split_child(p as int, j as int);
            assert(m2.nodes[p as int] == want.nodes[p as int]);
            assert(m2.nodes =~= want.nodes);
            lemma_split_child(m0, p as int, j as int);
            old(self).lemma_open();
            assert(self.latches() =~= l1);
            assert(self.latches() =~= old(self).latches().update(
                c as int,
                LatchState::idle(),
            ).update(p as int, LatchState::sole(LatchType::Excl)).push(LatchState::idle()));
        }
    }

    /// Splits the root, which holds one key too many: cuts it in two under
    /// its exclusive latch, gives that latch up, and puts a new root above
    /// the halves.
    pub(crate) fn split_root(&mut self)
        requires
            total_order::<T>(),
            old(self).tidy(),
            old(self).model().wf(Some(old(self).model().root)),
            old(self).model().nodes[old(self).model().root].keys.len() == 2 * old(
                self,
            ).model().min_ord + 1,
            old(self).latches()[old(self).model().root] == LatchState::sole(LatchType::Excl),
        ensures
            final(self).model() == old(self).model().split_root(),
            final(self).model().wf(None),
            forall|k: T| final(self)@.contains(k) <==> old(self)@.contains(k),
            final(self).tidy(),
            final(self).latches() == old(self).latches().update(
                old(self).model().root,
                LatchState::idle(),
            ).push(LatchState::idle()).push(LatchState::idle()),
    {
        let ghost m0 = self.model();
        proof {
            self.lemma_open();
            lemma_root_covers(m0, Some(m0.root), arbitrary());
            assert(m0.node_ok(m0.root, Some(m0.root)));
        }
        let c = self.root;
        proof {
            assert(c == m0.root);
            assert(m0.nodes[c as int].min_ord == m0.min_ord);
        }
        let (pivot, fresh) = self.cut(c);
        self.unlatch(c, LatchType::Excl);
        proof {
            self.lemma_open();
            assert(self.model() == m0.cut_node(c as int));
            assert(self.nodes@[c as int].inner@ == self.model().nodes[c as int]);
        }
        let ghost l1 = self.latches();
        let top = self.nodes.len();
        let mut keys: Vec<T> = Vec::new();
        keys.push(pivot);
        let mut children: Vec<usize> = Vec::new();
        children.push(c);
        children.push(fresh);
        let above = Node {
            latch: NodeLatch::new(),
            inner: NodeInner {
                min_ord: self.nodes[c].inner.min_ord,
                root: true,
                keys,
                children,
                right_link: None,
                out_link: None,
                low_key: None,
                high_key: None,
            },
        };
        self.nodes.push(above);
        self.root = top;
        let total = self.nodes.len();
        proof {
            let m1 = m0.cut_node(c as int);
            self.metas@ = m1.metas.push(
                Meta { level: m0.metas[c as int].level + 1, live: true, retired_at: 0 },
            );
            self.levels@ = m1.levels.push(seq![top as int]);
            self.lemma_open();
            let m2 = self.model();
            let want = m0.split_root();
            assert(m2.nodes[top as int].keys =~= want.nodes[top as int].keys);
            assert(m2.nodes[top as int].children =~= want.nodes[top as int].children);
            assert(m2.nodes[top as int] == want.nodes[top as int]);
            assert(m2.nodes =~= want.nodes);
            lemma_split_root(m0);
            old(self).lemma_open();
            assert(self.latches() =~= l1.push(LatchState::idle()));
            assert(self.latches() =~= old(self).latches().update(
                c as int,
                LatchState::idle(),
            ).push(LatchState::idle()).push(LatchState::idle()));
        }
    }
}

impl<T: Ord + Copy> Tree<T> {
    /// Inserts `key` below node `at`, which covers it and which the caller
    /// has latched upgradable. Says whether the key was new, and whether `at`
    /// now holds one key too many. In that case `at` is left latched
    /// exclusively for the caller to split; else its latch is given up.
    pub(crate) fn insert_at(&mut self, at: usize, key: T) -> (r: (bool, bool))
        requires
            total_order::<T>(),
            old(self).tidy(),
            old(self).model().wf(None),
            old(self).model().live(at as int),
            old(self).model().covers(at as int, key),
            old(self).latches()[at as int] == LatchState::sole(LatchType::Upgradable),
            forall|i: int|
                0 <= i < old(self).latches().len() && old(self).model().metas[i].level < old(
                    self,
                ).model().metas[at as int].level ==> (#[trigger] old(self).latches()[i]).is_free(),
        ensures
            final(self).tidy(),
            final(self).model().wf(Some(at as int)),
            !r.1 ==> final(self).model().wf(None),
            r.1 == (final(self).model().nodes[at as int].keys.len() == 2 * old(
                self,
            ).model().min_ord + 1),
            r.0 == !old(self)@.contains(key),
            !r.0 ==> final(self).model() == old(self).model(),
            final(self).model() == old(self).model().planted(at as int, key),
            forall|k: T| final(self)@.contains(k) <==> (old(self)@.contains(k) || k == key),
            grown(old(self).model(), final(self).model(), old(self).model().metas[at as int].level),
            settled(old(self).latches(), final(self).latches(), at as int, r.1),
        decreases old(self).model().metas[at as int].level,
    {
        let ghost m0 = self.model();
        let ghost l0 = self.latches();
        proof {
            self.lemma_open();
            assert(m0.node_ok(at as int, None));
        }
        if self.nodes[at].inner.children.len() == 0 {
            proof {
                crate::model::lemma_leaf_decides(m0, None, at as int, key);
            }
            if self.nodes[at].has_key(&key) {
                self.unlatch(at, LatchType::Upgradable);
                proof {
                    lemma_wf_loosen(m0, Some(at as int));
                }
                return (false, false);
            }
            self.upgrade(at);
            proof {
                self.lemma_open();
                assert(self.latches()[at as int] == self.nodes@[at as int].latch@);
            }
            let full = self.nodes[at].would_overflow();
            let p = lower_bound(&self.nodes[at].inner.keys, &key);
            self.nodes[at].inner.keys.insert(p, key);
            proof {
                self.lemma_open();
                let m1 = self.model();
                let want = m0.put_key(at as int, key);
                assert(m1.nodes[at as int] == want.nodes[at as int]);
                assert(m1.nodes =~= want.nodes);
                lemma_put_key(m0, at as int, key);
                assert(self.latches() =~= l0.update(at as int, LatchState::sole(LatchType::Excl)));
            }
            if full {
                return (true, true);
            }
            self.unlatch(at, LatchType::Excl);
            proof {
                lemma_wf_tighten(self.model(), at as int);
            }
            return (true, false);
        }
        proof {
            lemma_route(m0, None, at as int, key);
        }
        let j = self.nodes[at].child_slot(&key);
        let c = self.nodes[at].inner.children[j];
        proof {
            m0.lemma_settle_stays(c as int, key);
        }
        self.latch(c, LatchType::Upgradable);
        proof {
            assert forall|i: int|
                0 <= i < self.latches().len() && i != c && m0.passes(
                    c as int,
                    key,
                    i,
                ) implies (#[trigger] self.latches()[i]).admits(LatchType::Upgradable) by {
                m0.lemma_passes_level(c as int, key, i);
                assert(l0[i].is_free());
            }
        }
        let child = self.move_right(c, &key, LatchType::Upgradable);
        proof {
            assert(self.latches() =~= l0.update(c as int, LatchState::sole(LatchType::Upgradable)));
        }
        let (fresh, over) = self.insert_at(child, key);
        let ghost m1 = self.model();
        let ghost l1 = self.latches();
        proof {
            self.lemma_open();
            assert(m1.nodes[at as int] == m0.nodes[at as int]);
            assert(m1.metas[at as int] == m0.metas[at as int]);
            assert(m1.metas[c as int] == m0.metas[c as int]);
            assert(l1[at as int] == l0[at as int]);
            assert(self.latches()[at as int] == self.nodes@[at as int].latch@);
            if !fresh {
                assert(m0.node_ok(c as int, None));
            }
            assert(m1.node_ok(c as int, Some(c as int)));
            assert(m0.child_ok(at as int, j as int));
        }
        if !over {
            self.unlatch(at, LatchType::Upgradable);
            proof {
                lemma_wf_loosen(m1, Some(at as int));
            }
            return (fresh, false);
        }
        let full = self.nodes[at].would_overflow();
        self.split_child(at, j);
        proof {
            self.lemma_open();
            let m2 = self.model();
            assert(m2 == m1.split_child(at as int, j as int));
            assert forall|i: int| 0 <= i < m0.nodes.len() implies #[trigger] m2.metas[i]
                == m0.metas[i] by {
                assert(m1.metas[i] == m0.metas[i]);
            }
            assert forall|i: int|
                0 <= i < m0.nodes.len() && m0.metas[i].level
                    > m0.metas[at as int].level implies #[trigger] m2.nodes[i] == m0.nodes[i] by {
                assert(m1.nodes[i] == m0.nodes[i]);
            }
        }
        if full {
            return (fresh, true);
        }
        self.unlatch(at, LatchType::Excl);
        proof {
            lemma_wf_tighten(self.model(), at as int);
        }
        (fresh, false)
    }

    /// Inserts `key`. A key that the tree holds already is refused with
    /// `DuplicateKey`, and the tree is left as it is.
    ///
    /// The descent takes upgradable latches. The leaf that covers the key
    /// turns its latch into the exclusive one and takes the key in. A node
    /// that then holds more than twice the minimum order of keys is split:
    /// the lower `min_ord + 1` keys of a leaf, or `min_ord` keys of an
    /// internal node, stay, the upper `min_ord` keys move to a new right
    /// sibling, and the separator goes to the parent, which may have to be
    /// split in turn. When the root is split the tree grows by a level.
    pub fn insert(&mut self, key: T) -> (r: Result<(), TreeError>)
        requires
            old(self).wf(),
        ensures
            final(self).wf(),
            ascending(final(self)@),
            old(self)@.contains(key) <==> r == Err::<(), TreeError>(TreeError::DuplicateKey),
            !old(self)@.contains(key) <==> r == Ok::<(), TreeError>(()),
            final(self)@ == with_key(old(self)@, key),
            final(self)@.to_set() == old(self)@.to_set().insert(key),
            final(self).model() == old(self).model().inserted(key),
            r.is_err() ==> final(self).model() == old(self).model(),
    {
        let ghost m0 = self.model();
        let ghost l0 = self.latches();
        let root = self.root;
        proof {
            self.lemma_open();
            lemma_root_covers(m0, None, key);
            m0.lemma_settle_stays(root as int, key);
            lemma_keys_ascend(m0, None);
        }
        self.latch(root, LatchType::Upgradable);
        let top = self.move_right(root, &key, LatchType::Upgradable);
        proof {
            assert(self.latches() =~= l0.update(
                root as int,
                LatchState::sole(LatchType::Upgradable),
            ));
        }
        let (fresh, over) = self.insert_at(top, key);
        proof {
            if !fresh {
                assert(m0.node_ok(root as int, None));
            }
            assert(self.model().node_ok(root as int, Some(root as int)));
        }
        if over {
            proof {
                self.lemma_open();
            }
            self.split_root();
        }
        proof {
            self.lemma_open();
            lemma_keys_ascend(self.model(), None);
            assert(self@.to_set() =~= old(self)@.to_set().insert(key));
            crate::keys::lemma_with_key(old(self)@, key);
            crate::keys::lemma_ascending_same(self@, with_key(old(self)@, key));
        }
        if fresh {
            Ok(())
        } else {
            Err(TreeError::DuplicateKey)
        }
    }
}

} // verus!
