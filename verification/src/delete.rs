//! Deletion: the descent under upgradable latches, and the mending that
//! carries an underflow from a leaf up to the root.

use crate::effect::above_kept;
use crate::insert::settled;
use crate::keys::{ascending, lower_bound, without_key};
use crate::latch::{LatchState, LatchType};
use crate::merge::{can_merge, lemma_collapse_root, lemma_merge};
use crate::model::{lemma_keys_ascend, lemma_root_covers, lemma_route, lemma_wf_loosen, lemma_wf_tighten, Meta};
use crate::node::BTreeNode;
use crate::order::total_order;
use crate::rotate::{can_pass_left, can_pass_right, lemma_pass_left, lemma_pass_right};
use crate::steps::lemma_take_key;
use crate::tree::Tree;
use vstd::prelude::*;

verus! {

impl<T: Ord + Copy> Tree<T> {
    /// Merges child `j + 1` of node `p` into child `j`, both latched
    /// exclusively: the left child takes the entries of the right one and its
    /// right link, the right one is retired with its out link naming the left
    /// one, and both latches are given up. Then `p` turns its upgradable latch
    /// into the exclusive one and gives up the separator and the right child.
    pub(crate) fn merge(&mut self, p: usize, j: usize)
        requires
            total_order::<T>(),
            old(self).tidy(),
            exists|slack: Option<int>| can_merge(old(self).model(), slack, p as int, j as int),
            old(self).latches()[old(self).model().nodes[p as int].children[j as int] as int]
                == LatchState::sole(LatchType::Excl),
            old(self).latches()[old(self).model().nodes[p as int].children[j + 1] as int]
                == LatchState::sole(LatchType::Excl),
            old(self).latches()[p as int] == LatchState::sole(LatchType::Upgradable),
        ensures
            final(self).model() == old(self).model().merge_children(p as int, j as int),
            final(self).model().wf(Some(p as int)),
            forall|k: T| final(self)@.contains(k) <==> old(self)@.contains(k),
            final(self).tidy(),
            final(self).latches() == old(self).latches().update(
                old(self).model().nodes[p as int].children[j as int] as int,
                LatchState::idle(),
            ).update(
                old(self).model().nodes[p as int].children[j + 1] as int,
                LatchState::idle(),
            ).update(p as int, LatchState::sole(LatchType::Excl)),
    {
        let ghost m0 = self.model();
        let ghost slack = choose|slack: Option<int>| can_merge(m0, slack, p as int, j as int);
        proof {
            self.lemma_open();
            m0.lemma_adjacent(slack, p as int, j as int);
            assert(m0.node_ok(p as int, slack));
            assert(m0.node_ok(m0.nodes[p as int].children[j as int] as int, slack));
            assert(m0.node_ok(m0.nodes[p as int].children[j + 1] as int, slack));
        }
        let width = self.nodes[p].inner.children.len();
        let a = self.nodes[p].inner.children[j];
        let b = self.nodes[p].inner.children[j + 1];
        let sep = self.nodes[p].inner.keys[j];
        let leaf = self.nodes[a].inner.children.len() == 0;
        let mut ks: Vec<T> = Vec::new();
        ks.append(&mut self.nodes[b].inner.keys);
        let mut cs: Vec<usize> = Vec::new();
        cs.append(&mut self.nodes[b].inner.children);
        if !leaf {
            self.nodes[a].inner.keys.push(sep);
        }
        self.nodes[a].inner.keys.append(&mut ks);
        self.nodes[a].inner.children.append(&mut cs);
        self.nodes[a].inner.right_link = self.nodes[b].inner.right_link;
        self.nodes[a].inner.high_key = self.nodes[b].inner.high_key;
        self.nodes[b].inner.out_link = Some(a);
        let ghost mid = self.model();
        proof {
            self.lemma_open();
            self.lemma_latches_kept(&*old(self));
            let want = m0.merge_children(p as int, j as int);
            assert(mid.nodes[a as int] == self.nodes@[a as int].inner@);
            assert(mid.nodes[b as int] == self.nodes@[b as int].inner@);
            assert(mid.nodes[p as int] == self.nodes@[p as int].inner@);
            assert(mid.nodes[a as int].keys =~= want.nodes[a as int].keys);
            assert(mid.nodes[a as int].children =~= want.nodes[a as int].children);
            assert(mid.nodes[a as int] == want.nodes[a as int]);
            assert(mid.nodes[b as int].keys =~= want.nodes[b as int].keys);
            assert(mid.nodes[b as int].children =~= want.nodes[b as int].children);
            assert(mid.nodes[b as int] == want.nodes[b as int]);
            assert(mid.nodes[p as int] == m0.nodes[p as int]);
            assert forall|i: int|
                0 <= i < m0.nodes.len() && i != a && i != b implies #[trigger] mid.nodes[i]
                == m0.nodes[i] by {
                assert(mid.nodes[i] == self.nodes@[i].inner@);
            }
        }
        self.unlatch(b, LatchType::Excl);
        self.unlatch(a, LatchType::Excl);
        self.upgrade(p);
        proof {
            self.lemma_open();
            assert(self.model() == mid);
            assert(self.nodes@[p as int].inner@ == mid.nodes[p as int]);
        }
        let ghost l1 = self.latches();
        self.nodes[p].inner.keys.remove(j);
        self.nodes[p].inner.children.remove(j + 1);
        proof {
            let l = m0.metas[a as int].level as int;
            self.metas@ = m0.metas.update(
                b as int,
                Meta { live: false, retired_at: m0.clock, ..m0.metas[b as int] },
            );
            self.levels@ = m0.levels.update(l, m0.levels[l].remove(m0.place(b as int)));
            self.clock@ = m0.clock + 1;
            self.lemma_open();
            let m2 = self.model();
            let want = m0.merge_children(p as int, j as int);
            assert forall|i: int| 0 <= i < m0.nodes.len() && i != p implies #[trigger] m2.nodes[i]
                == mid.nodes[i] by {
                assert(m2.nodes[i] == self.nodes@[i].inner@);
            }
            assert(m2.nodes[p as int].keys =~= want.nodes[p as int].keys);
            assert(m2.nodes[p as int].children =~= want.nodes[p as int].children);
            assert(m2.nodes[p as int] == want.nodes[p as int]);
            assert(m2.nodes =~= want.nodes);
            lemma_merge(m0, slack, p as int, j as int);
            old(self).lemma_open();
            assert(self.latches() =~= l1);
            assert(self.latches() =~= old(self).latches().update(
                a as int,
                LatchState::idle(),
            ).update(b as int, LatchState::idle()).update(
                p as int,
                LatchState::sole(LatchType::Excl),
            ));
        }
    }

    /// Passes a key from child `j + 1` of node `p` to child `j`, both latched
    /// exclusively, and gives both latches up. Then `p` turns its upgradable
    /// latch into the exclusive one and takes the new separator.
    pub(crate) fn pass_left(&mut self, p: usize, j: usize)
        requires
            total_order::<T>(),
            old(self).tidy(),
            can_pass_left(old(self).model(), p as int, j as int),
            old(self).latches()[old(self).model().nodes[p as int].children[j as int] as int]
                == LatchState::sole(LatchType::Excl),
            old(self).latches()[old(self).model().nodes[p as int].children[j + 1] as int]
                == LatchState::sole(LatchType::Excl),
            old(self).latches()[p as int] == LatchState::sole(LatchType::Upgradable),
        ensures
            final(self).model() == old(self).model().pass_left(p as int, j as int),
            final(self).model().wf(None),
            forall|k: T| final(self)@.contains(k) <==> old(self)@.contains(k),
            final(self).tidy(),
            final(self).latches() == old(self).latches().update(
                old(self).model().nodes[p as int].children[j as int] as int,
                LatchState::idle(),
            ).update(
                old(self).model().nodes[p as int].children[j + 1] as int,
                LatchState::idle(),
            ).update(p as int, LatchState::sole(LatchType::Excl)),
    {
        let ghost m0 = self.model();
        let ghost slack = Some(m0.nodes[p as int].children[j as int] as int);
        proof {
            self.lemma_open();
            m0.lemma_adjacent(slack, p as int, j as int);
            assert(m0.node_ok(p as int, slack));
            assert(m0.node_ok(m0.nodes[p as int].children[j as int] as int, slack));
            assert(m0.node_ok(m0.nodes[p as int].children[j + 1] as int, slack));
        }
        let width = self.nodes[p].inner.children.len();
        let a = self.nodes[p].inner.children[j];
        let b = self.nodes[p].inner.children[j + 1];
        let sep = self.nodes[p].inner.keys[j];
        let leaf = self.nodes[a].inner.children.len() == 0;
        let first = self.nodes[b].inner.keys.remove(0);
        let fence = if leaf {
            self.nodes[a].inner.keys.push(first);
            self.nodes[b].inner.keys[0]
        } else {
            let under = self.nodes[b].inner.children.remove(0);
            self.nodes[a].inner.keys.push(sep);
            self.nodes[a].inner.children.push(under);
            first
        };
        self.nodes[a].inner.high_key = Some(fence);
        self.nodes[b].inner.low_key = Some(fence);
        let ghost mid = self.model();
        proof {
            self.lemma_open();
            self.lemma_latches_kept(&*old(self));
            let want = m0.pass_left(p as int, j as int);
            assert(mid.nodes[a as int] == self.nodes@[a as int].inner@);
            assert(mid.nodes[b as int] == self.nodes@[b as int].inner@);
            assert(mid.nodes[p as int] == self.nodes@[p as int].inner@);
            assert(mid.nodes[a as int].keys =~= want.nodes[a as int].keys);
            assert(mid.nodes[a as int].children =~= want.nodes[a as int].children);
            assert(mid.nodes[a as int] == want.nodes[a as int]);
            assert(mid.nodes[b as int].keys =~= want.nodes[b as int].keys);
            assert(mid.nodes[b as int].children =~= want.nodes[b as int].children);
            assert(mid.nodes[b as int] == want.nodes[b as int]);
            assert(mid.nodes[p as int] == m0.nodes[p as int]);
            assert forall|i: int|
                0 <= i < m0.nodes.len() && i != a && i != b implies #[trigger] mid.nodes[i]
                == m0.nodes[i] by {
                assert(mid.nodes[i] == self.nodes@[i].inner@);
            }
        }
        self.unlatch(b, LatchType::Excl);
        self.unlatch(a, LatchType::Excl);
        self.upgrade(p);
        proof {
            self.lemma_open();
            assert(self.model() == mid);
            assert(self.nodes@[p as int].inner@ == mid.nodes[p as int]);
        }
        let ghost l1 = self.latches();
        self.nodes[p].inner.keys[j] = fence;
        proof {
            self.lemma_open();
            let m2 = self.model();
            let want = m0.pass_left(p as int, j as int);
            assert forall|i: int| 0 <= i < m0.nodes.len() && i != p implies #[trigger] m2.nodes[i]
                == mid.nodes[i] by {
                assert(m2.nodes[i] == self.nodes@[i].inner@);
            }
            assert(m2.nodes[p as int].keys =~= want.nodes[p as int].keys);
            assert(m2.nodes[p as int].children =~= want.nodes[p as int].children);
            assert(m2.nodes[p as int] == want.nodes[p as int]);
            assert(m2.nodes =~= want.nodes);
            lemma_pass_left(m0, p as int, j as int);
            old(self).lemma_open();
            assert(self.latches() =~= l1);
            assert(self.latches() =~= old(self).latches().update(
                a as int,
                LatchState::idle(),
            ).update(b as int, LatchState::idle()).update(
                p as int,
                LatchState::sole(LatchType::Excl),
            ));
        }
    }

    /// Passes a key from child `j` of node `p` to child `j + 1`, both latched
    /// exclusively, and gives both latches up. Then `p` turns its upgradable
    /// latch into the exclusive one and takes the new separator.
    pub(crate) fn pass_right(&mut self, p: usize, j: usize)
        requires
            total_order::<T>(),
            old(self).tidy(),
            can_pass_right(old(self).model(), p as int, j as int),
            old(self).latches()[old(self).model().nodes[p as int].children[j as int] as int]
                == LatchState::sole(LatchType::Excl),
            old(self).latches()[old(self).model().nodes[p as int].children[j + 1] as int]
                == LatchState::sole(LatchType::Excl),
            old(self).latches()[p as int] == LatchState::sole(LatchType::Upgradable),
        ensures
            final(self).model() == old(self).model().pass_right(p as int, j as int),
            final(self).model().wf(None),
            forall|k: T| final(self)@.contains(k) <==> old(self)@.contains(k),
            final(self).tidy(),
            final(self).latches() == old(self).latches().update(
                old(self).model().nodes[p as int].children[j as int] as int,
                LatchState::idle(),
            ).update(
                old(self).model().nodes[p as int].children[j + 1] as int,
                LatchState::idle(),
            ).update(p as int, LatchState::sole(LatchType::Excl)),
    {
        let ghost m0 = self.model();
        let ghost slack = Some(m0.nodes[p as int].children[j + 1] as int);
        proof {
            self.lemma_open();
            m0.lemma_adjacent(slack, p as int, j as int);
            assert(m0.node_ok(p as int, slack));
            assert(m0.node_ok(m0.nodes[p as int].children[j as int] as int, slack));
            assert(m0.node_ok(m0.nodes[p as int].children[j + 1] as int, slack));
        }
        let width = self.nodes[p].inner.children.len();
        let a = self.nodes[p].inner.children[j];
        let b = self.nodes[p].inner.children[j + 1];
        let sep = self.nodes[p].inner.keys[j];
        let leaf = self.nodes[a].inner.children.len() == 0;
        let fence = self.nodes[a].inner.keys.pop().unwrap();
        if leaf {
            self.nodes[b].inner.keys.insert(0, fence);
        } else {
            let under = self.nodes[a].inner.children.pop().unwrap();
            self.nodes[b].inner.keys.insert(0, sep);
            self.nodes[b].inner.children.insert(0, under);
        }
        self.nodes[a].inner.high_key = Some(fence);
        self.nodes[b].inner.low_key = Some(fence);
        let ghost mid = self.model();
        proof {
            self.lemma_open();
            self.lemma_latches_kept(&*old(self));
            let want = m0.pass_right(p as int, j as int);
            assert(mid.nodes[a as int] == self.nodes@[a as int].inner@);
            assert(mid.nodes[b as int] == self.nodes@[b as int].inner@);
            assert(mid.nodes[p as int] == self.nodes@[p as int].inner@);
            assert(mid.nodes[a as int].keys =~= want.nodes[a as int].keys);
            assert(mid.nodes[a as int].children =~= want.nodes[a as int].children);
            assert(mid.nodes[a as int] == want.nodes[a as int]);
            assert(mid.nodes[b as int].keys =~= want.nodes[b as int].keys);
            assert(mid.nodes[b as int].children =~= want.nodes[b as int].children);
            assert(mid.nodes[b as int] == want.nodes[b as int]);
            assert(mid.nodes[p as int] == m0.nodes[p as int]);
            assert forall|i: int|
                0 <= i < m0.nodes.len() && i != a && i != b implies #[trigger] mid.nodes[i]
                == m0.nodes[i] by {
                assert(mid.nodes[i] == self.nodes@[i].inner@);
            }
        }
        self.unlatch(b, LatchType::Excl);
        self.unlatch(a, LatchType::Excl);
        self.upgrade(p);
        proof {
            self.lemma_open();
            assert(self.model() == mid);
            assert(self.nodes@[p as int].inner@ == mid.nodes[p as int]);
        }
        let ghost l1 = self.latches();
        self.nodes[p].inner.keys[j] = fence;
        proof {
            self.lemma_open();
            let m2 = self.model();
            let want = m0.pass_right(p as int, j as int);
            assert forall|i: int| 0 <= i < m0.nodes.len() && i != p implies #[trigger] m2.nodes[i]
                == mid.nodes[i] by {
                assert(m2.nodes[i] == self.nodes@[i].inner@);
            }
            assert(m2.nodes[p as int].keys =~= want.nodes[p as int].keys);
            assert(m2.nodes[p as int].children =~= want.nodes[p as int].children);
            assert(m2.nodes[p as int] == want.nodes[p as int]);
            assert(m2.nodes =~= want.nodes);
            lemma_pass_right(m0, p as int, j as int);
            old(self).lemma_open();
            assert(self.latches() =~= l1);
            assert(self.latches() =~= old(self).latches().update(
                a as int,
                LatchState::idle(),
            ).update(b as int, LatchState::idle()).update(
                p as int,
                LatchState::sole(LatchType::Excl),
            ));
        }
    }
}

impl<T: Ord + Copy> Tree<T> {
    /// Mends child `j` of node `p`, which holds one key too few and is
    /// latched exclusively, with a sibling under `p`: the right one, which
    /// its right link names, or the left one if the child is the last. A sibling with more than `min_ord`
    /// keys passes one over; else the two are merged. The left of the two is
    /// always latched before the right one. In the end both children are
    /// unlatched and `p` is latched exclusively.
    pub(crate) fn mend_child(&mut self, p: usize, j: usize)
        requires
            total_order::<T>(),
            old(self).tidy(),
            old(self).model().live(p as int),
            old(self).model().metas[p as int].level > 0,
            j < old(self).model().nodes[p as int].children.len(),
            old(self).model().wf(Some(old(self).model().nodes[p as int].children[j as int] as int)),
            old(self).model().nodes[old(self).model().nodes[p as int].children[j as int] as int].keys.len()
                + 1 == old(self).model().min_ord,
            old(self).latches()[old(self).model().nodes[p as int].children[j as int] as int]
                == LatchState::sole(LatchType::Excl),
            old(self).latches()[p as int] == LatchState::sole(LatchType::Upgradable),
            forall|i: int|
                0 <= i < old(self).latches().len() && old(self).model().metas[i].level < old(
                    self,
                ).model().metas[p as int].level && i != old(self).model().nodes[p as int].children[j as int]
                    ==> (#[trigger] old(self).latches()[i]).is_free(),
        ensures
            final(self).tidy(),
            final(self).model() == old(self).model().mended(p as int, j as int),
            final(self).model().wf(Some(p as int)),
            final(self).model().nodes[p as int].keys.len() <= old(
                self,
            ).model().nodes[p as int].keys.len(),
            forall|k: T| final(self)@.contains(k) <==> old(self)@.contains(k),
            above_kept(old(self).model(), final(self).model(), old(self).model().metas[p as int].level),
            final(self).model().metas[p as int] == old(self).model().metas[p as int],
            final(self).latches() == old(self).latches().update(
                old(self).model().nodes[p as int].children[j as int] as int,
                LatchState::idle(),
            ).update(p as int, LatchState::sole(LatchType::Excl)),
    {
        let ghost m0 = self.model();
        let ghost l0 = self.latches();
        let ghost slack = Some(m0.nodes[p as int].children[j as int] as int);
        proof {
            self.lemma_open();
            assert(m0.node_ok(p as int, slack));
            assert(m0.child_ok(p as int, j as int));
        }
        let width = self.nodes[p].inner.children.len();
        let c = self.nodes[p].inner.children[j];
        let mo = self.min_ord;
        if j + 1 < width {
            proof {
                m0.lemma_adjacent(slack, p as int, j as int);
                assert(m0.node_ok(m0.nodes[p as int].children[j + 1] as int, slack));
            }
            proof {
                assert(m0.nodes[c as int] == self.nodes@[c as int].inner@);
            }
            let b = self.nodes[c].inner.right_link.unwrap();
            self.latch(b, LatchType::Excl);
            proof {
                self.lemma_open();
                assert(self.model().nodes[b as int] == self.nodes@[b as int].inner@);
            }
            if self.nodes[b].inner.keys.len() > mo {
                self.pass_left(p, j);
                proof {
                    lemma_wf_loosen(self.model(), Some(p as int));
                }
            } else {
                proof {
                    assert(can_merge(m0, slack, p as int, j as int));
                }
                self.merge(p, j);
            }
            proof {
                assert(self.latches() =~= l0.update(c as int, LatchState::idle()).update(
                    p as int,
                    LatchState::sole(LatchType::Excl),
                ));
            }
        } else {
            proof {
                m0.lemma_adjacent(slack, p as int, j - 1);
                assert(m0.node_ok(m0.nodes[p as int].children[j - 1] as int, slack));
            }
            let a = self.nodes[p].inner.children[j - 1];
            self.unlatch(c, LatchType::Excl);
            self.latch(a, LatchType::Excl);
            self.latch(c, LatchType::Excl);
            proof {
                self.lemma_open();
                assert(self.model().nodes[a as int] == self.nodes@[a as int].inner@);
            }
            if self.nodes[a].inner.keys.len() > mo {
                self.pass_right(p, j - 1);
                proof {
                    lemma_wf_loosen(self.model(), Some(p as int));
                }
            } else {
                proof {
                    assert(can_merge(m0, slack, p as int, j - 1));
                }
                self.merge(p, j - 1);
            }
            proof {
                assert(self.latches() =~= l0.update(c as int, LatchState::idle()).update(
                    p as int,
                    LatchState::sole(LatchType::Excl),
                ));
            }
        }
    }

    /// Makes the only child of the root the root, when the root is an internal
    /// node that is left without a key and is latched exclusively. The old
    /// root is retired, with its out link naming the new root, and its latch
    /// is given up.
    pub(crate) fn collapse_root(&mut self)
        requires
            total_order::<T>(),
            old(self).tidy(),
            old(self).model().wf(Some(old(self).model().root)),
            old(self).model().metas[old(self).model().root].level > 0,
            old(self).model().nodes[old(self).model().root].keys.len() == 0,
            old(self).latches()[old(self).model().root] == LatchState::sole(LatchType::Excl),
            forall|i: int|
                0 <= i < old(self).latches().len() && i != old(self).model().root ==> (#[trigger] old(
                    self,
                ).latches()[i]).is_free(),
        ensures
            final(self).model() == old(self).model().collapse_root(),
            final(self).model().wf(None),
            final(self)@ == old(self)@,
            final(self).tidy(),
            final(self).latches() == old(self).latches().update(
                old(self).model().root,
                LatchState::idle(),
            ),
    {
        let ghost m0 = self.model();
        let ghost l0 = self.latches();
        proof {
            self.lemma_open();
            lemma_root_covers(m0, Some(m0.root), arbitrary());
            assert(m0.node_ok(m0.root, Some(m0.root)));
            assert(m0.child_ok(m0.root, 0));
        }
        let r = self.root;
        let c = self.nodes[r].inner.children[0];
        self.latch(c, LatchType::Excl);
        proof {
            self.lemma_open();
            assert(self.model().nodes[c as int] == self.nodes@[c as int].inner@);
        }
        let ghost l1 = self.latches();
        self.nodes[c].inner.root = true;
        let ghost mid1 = self.model();
        proof {
            self.lemma_open();
            assert(self.latches() =~= l1);
            assert(mid1.nodes[c as int] == self.nodes@[c as int].inner@);
            assert forall|i: int| 0 <= i < m0.nodes.len() && i != c implies #[trigger] mid1.nodes[i]
                == m0.nodes[i] by {
                assert(mid1.nodes[i] == self.nodes@[i].inner@);
            }
        }
        self.unlatch(c, LatchType::Excl);
        proof {
            self.lemma_open();
            assert(self.model().nodes[r as int] == self.nodes@[r as int].inner@);
        }
        let ghost l2 = self.latches();
        self.nodes[r].inner.root = false;
        self.nodes[r].inner.out_link = Some(c);
        let ghost mid2 = self.model();
        proof {
            self.lemma_open();
            assert(self.latches() =~= l2);
            assert(mid2.nodes[r as int] == self.nodes@[r as int].inner@);
            assert forall|i: int| 0 <= i < m0.nodes.len() && i != r implies #[trigger] mid2.nodes[i]
                == mid1.nodes[i] by {
                assert(mid2.nodes[i] == self.nodes@[i].inner@);
            }
        }
        self.unlatch(r, LatchType::Excl);
        proof {
            self.lemma_open();
        }
        let ghost l3 = self.latches();
        self.root = c;
        proof {
            self.metas@ = m0.metas.update(
                r as int,
                Meta { live: false, retired_at: m0.clock, ..m0.metas[r as int] },
            );
            self.levels@ = m0.levels.drop_last();
            self.clock@ = m0.clock + 1;
            self.lemma_open();
            let m2 = self.model();
            let want = m0.collapse_root();
            assert forall|i: int| 0 <= i < m0.nodes.len() implies #[trigger] m2.nodes[i]
                == mid2.nodes[i] by {
                assert(m2.nodes[i] == self.nodes@[i].inner@);
            }
            assert(m2.nodes[c as int] == want.nodes[c as int]);
            assert(m2.nodes[r as int] == want.nodes[r as int]);
            assert(m2.nodes =~= want.nodes);
            lemma_collapse_root(m0);
            old(self).lemma_open();
            assert(self.latches() =~= l3);
            assert(self.latches() =~= l0.update(r as int, LatchState::idle()));
        }
    }

    /// Deletes `key` below node `at`, which covers it and which the caller
    /// has latched upgradable. Says whether the key was there, and whether
    /// `at` now holds too few keys. In that case `at` is left latched
    /// exclusively for the caller to mend; else its latch is given up.
    pub(crate) fn delete_at(&mut self, at: usize, key: &T) -> (r: (bool, bool))
        requires
            total_order::<T>(),
            old(self).tidy(),
            old(self).model().wf(None),
            old(self).model().live(at as int),
            old(self).model().covers(at as int, *key),
            old(self).latches()[at as int] == LatchState::sole(LatchType::Upgradable),
            forall|i: int|
                0 <= i < old(self).latches().len() && old(self).model().metas[i].level < old(
                    self,
                ).model().metas[at as int].level ==> (#[trigger] old(self).latches()[i]).is_free(),
        ensures
            final(self).tidy(),
            final(self).model().wf(Some(at as int)),
            final(self).model().nodes[at as int].keys.len() <= old(
                self,
            ).model().nodes[at as int].keys.len(),
            r.1 == !final(self).model().size_ok(at as int, None),
            r.0 == old(self)@.contains(*key),
            !r.0 ==> final(self).model() == old(self).model(),
            final(self).model() == old(self).model().erased(at as int, *key),
            forall|k: T| final(self)@.contains(k) <==> (old(self)@.contains(k) && k != *key),
            above_kept(old(self).model(), final(self).model(), old(self).model().metas[at as int].level),
            final(self).model().metas[at as int] == old(self).model().metas[at as int],
            settled(old(self).latches(), final(self).latches(), at as int, r.1),
        decreases old(self).model().metas[at as int].level,
    {
        let ghost m0 = self.model();
        let ghost l0 = self.latches();
        proof {
            self.lemma_open();
            assert(m0.node_ok(at as int, None));
        }
        let mo = self.min_ord;
        let is_root = self.nodes[at].inner.root;
        if self.nodes[at].inner.children.len() == 0 {
            proof {
                crate::model::lemma_leaf_decides(m0, None, at as int, *key);
            }
            if !self.nodes[at].has_key(key) {
                self.unlatch(at, LatchType::Upgradable);
                proof {
                    lemma_wf_loosen(m0, Some(at as int));
                }
                return (false, false);
            }
            self.upgrade(at);
            proof {
                self.lemma_open();
                assert(self.latches()[at as int] == self.nodes@[at as int].latch@);
                crate::keys::lemma_rank(m0.nodes[at as int].keys, *key);
            }
            let lean = self.nodes[at].would_underflow();
            let p = lower_bound(&self.nodes[at].inner.keys, key);
            self.nodes[at].inner.keys.remove(p);
            proof {
                self.lemma_open();
                let m1 = self.model();
                let want = m0.take_key(at as int, *key);
                assert(m1.nodes[at as int] == want.nodes[at as int]);
                assert(m1.nodes =~= want.nodes);
                lemma_take_key(m0, at as int, *key);
                assert(self.latches() =~= l0.update(at as int, LatchState::sole(LatchType::Excl)));
            }
            let under = !is_root && lean;
            if under {
                return (true, true);
            }
            self.unlatch(at, LatchType::Excl);
            proof {
                lemma_wf_tighten(self.model(), at as int);
            }
            return (true, false);
        }
        proof {
            lemma_route(m0, None, at as int, *key);
        }
        let j = self.nodes[at].child_slot(key);
        let c = self.nodes[at].inner.children[j];
        proof {
            m0.lemma_settle_stays(c as int, *key);
        }
        self.latch(c, LatchType::Upgradable);
        proof {
            assert forall|i: int|
                0 <= i < self.latches().len() && i != c && m0.passes(
                    c as int,
                    *key,
                    i,
                ) implies (#[trigger] self.latches()[i]).admits(LatchType::Upgradable) by {
                m0.lemma_passes_level(c as int, *key, i);
                assert(l0[i].is_free());
            }
        }
        let child = self.move_right(c, key, LatchType::Upgradable);
        proof {
            assert(self.latches() =~= l0.update(c as int, LatchState::sole(LatchType::Upgradable)));
        }
        let (gone, lean) = self.delete_at(child, key);
        let ghost m1 = self.model();
        let ghost l1 = self.latches();
        proof {
            self.lemma_open();
            assert(m1.nodes[at as int] == m0.nodes[at as int]);
            assert(m1.metas[at as int] == m0.metas[at as int]);
            assert(l1[at as int] == l0[at as int]);
            assert(self.latches()[at as int] == self.nodes@[at as int].latch@);
            assert(m1.node_ok(at as int, Some(c as int)));
            assert(m1.child_ok(at as int, j as int));
            assert(m1.node_ok(c as int, Some(c as int)));
            assert(m0.node_ok(c as int, None));
            assert(m0.child_ok(at as int, j as int));
            lemma_root_covers(m1, Some(c as int), *key);
            lemma_root_covers(m0, None, *key);
        }
        if !lean {
            self.unlatch(at, LatchType::Upgradable);
            proof {
                lemma_wf_tighten(m1, c as int);
                lemma_wf_loosen(m1, Some(at as int));
                assert(m1.node_ok(at as int, None));
            }
            return (gone, false);
        }
        self.mend_child(at, j);
        proof {
            self.lemma_open();
            let m2 = self.model();
            assert(m2.node_ok(at as int, Some(at as int)));
            assert(m2.nodes[at as int] == self.nodes@[at as int].inner@);
            assert forall|i: int| 0 <= i < m0.nodes.len() implies (#[trigger] m2.metas[i]).level
                == m0.metas[i].level by {
                assert(m1.metas[i].level == m0.metas[i].level);
            }
            assert forall|i: int|
                0 <= i < m0.nodes.len() && m0.metas[i].level
                    > m0.metas[at as int].level implies #[trigger] m2.nodes[i] == m0.nodes[i]
                && m2.metas[i] == m0.metas[i] by {
                assert(m0.metas[i].level > m0.metas[c as int].level);
                assert(m1.nodes[i] == m0.nodes[i]);
                assert(m1.metas[i] == m0.metas[i]);
                assert(m1.metas[i].level > m1.metas[at as int].level);
                assert(m2.nodes[i] == m1.nodes[i]);
                assert(m2.metas[i] == m1.metas[i]);
            }
        }
        let count = self.nodes[at].inner.keys.len();
        let under = if is_root {
            count == 0
        } else {
            count < mo
        };
        if under {
            return (gone, true);
        }
        self.unlatch(at, LatchType::Excl);
        proof {
            lemma_wf_tighten(self.model(), at as int);
        }
        (gone, false)
    }

    /// Deletes `key`, and says whether the tree held it. A key that the tree
    /// does not hold leaves the tree as it is.
    ///
    /// The descent takes upgradable latches. The leaf that covers the key
    /// turns its latch into the exclusive one and gives the key up. A node
    /// that is then left with fewer than the minimum order of keys is mended
    /// with a sibling under the same parent, the right one where there is
    /// one: a sibling with keys to spare passes one over, else the two are
    /// merged into the left one and the right one is retired, with its out
    /// link naming the left one. A merge takes a separator from the parent,
    /// which may have to be mended in turn. When the root is left with a
    /// single child, that child becomes the root.
    pub fn delete(&mut self, key: &T) -> (r: bool)
        requires
            old(self).wf(),
        ensures
            final(self).wf(),
            ascending(final(self)@),
            r == old(self)@.contains(*key),
            final(self)@ == without_key(old(self)@, *key),
            final(self)@.to_set() == old(self)@.to_set().remove(*key),
            final(self).model() == old(self).model().deleted(*key),
            !r ==> final(self).model() == old(self).model(),
    {
        let ghost m0 = self.model();
        let ghost l0 = self.latches();
        let root = self.root;
        proof {
            self.lemma_open();
            lemma_root_covers(m0, None, *key);
            m0.lemma_settle_stays(root as int, *key);
            lemma_keys_ascend(m0, None);
        }
        self.latch(root, LatchType::Upgradable);
        let top = self.move_right(root, key, LatchType::Upgradable);
        proof {
            assert(self.latches() =~= l0.update(
                root as int,
                LatchState::sole(LatchType::Upgradable),
            ));
        }
        let (gone, lean) = self.delete_at(top, key);
        proof {
            self.lemma_open();
            assert(m0.node_ok(root as int, None));
            assert(self.model().node_ok(root as int, Some(root as int)));
            if !lean {
                lemma_wf_tighten(self.model(), root as int);
            }
        }
        if lean {
            self.collapse_root();
        }
        proof {
            self.lemma_open();
            lemma_keys_ascend(self.model(), None);
            assert(self@.to_set() =~= old(self)@.to_set().remove(*key));
            crate::keys::lemma_without_key(old(self)@, *key);
            crate::keys::lemma_ascending_same(self@, without_key(old(self)@, *key));
        }
        gone
    }
}

} // verus!
