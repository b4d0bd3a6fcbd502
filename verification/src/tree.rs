//! The tree: the arena of its nodes, the traversal that recovers by moving
//! right, and search.

use crate::keys::ascending;
use crate::latch::{LatchState, LatchType, NodeLatch};
use crate::model::{lemma_keys_ascend, Meta, Model};
use crate::node::{BTreeNode, Node, NodeInner, NodeView};
use crate::order::{above, less, total_order};
use vstd::prelude::*;

verus! {

/// Why the tree refused a request.
#[derive(Clone, Copy, PartialEq, Eq, Structural, Debug)]
pub enum TreeError {
    /// A tree of minimum order zero was asked for.
    ZeroOrder,
    /// The key to insert is in the tree already.
    DuplicateKey,
}

/// A B-link tree over the keys `T`.
///
/// The nodes live in an arena and are named by their handles. A node that a
/// merge has emptied stays in the arena as a retired node, so that a handle
/// taken earlier still leads to the keys it once led to.
pub struct Tree<T> {
    /// The minimum order: the least number of keys of a node but the root.
    pub(crate) min_ord: usize,
    /// The handle of the root.
    pub(crate) root: usize,
    /// The arena: every node ever made, at the place that is its handle.
    pub(crate) nodes: Vec<Node<T>>,
    /// What the model records of every node.
    pub(crate) metas: Ghost<Seq<Meta>>,
    /// For each level, its live nodes from left to right.
    pub(crate) levels: Ghost<Seq<Seq<int>>>,
    /// The number of nodes retired so far.
    pub(crate) clock: Ghost<nat>,
}

impl<T: Ord> View for Tree<T> {
    type V = Seq<T>;

    /// The keys of the tree in ascending order.
    closed spec fn view(&self) -> Seq<T> {
        self.model().keys()
    }
}

impl<T: Ord> Tree<T> {
    /// The tree as a mathematical value.
    pub closed spec fn model(&self) -> Model<T> {
        Model {
            nodes: self.nodes@.map_values(|n: Node<T>| n.inner@),
            metas: self.metas@,
            levels: self.levels@,
            clock: self.clock@,
            root: self.root as int,
            min_ord: self.min_ord as nat,
        }
    }

    /// The latch of every node, by handle.
    pub closed spec fn latches(&self) -> Seq<LatchState> {
        self.nodes@.map_values(|n: Node<T>| n.latch@)
    }

    /// The latch of every node keeps the holds that are out on it.
    pub closed spec fn latched(&self) -> bool {
        forall|i: int| 0 <= i < self.nodes@.len() ==> (#[trigger] self.nodes@[i]).latch.wf()
    }

    /// Every node has its latch, and every latch is consistent and keeps the
    /// holds that are out on it.
    pub open spec fn tidy(&self) -> bool {
        &&& self.latches().len() == self.model().nodes.len()
        &&& forall|i: int|
            0 <= i < self.latches().len() ==> (#[trigger] self.latches()[i]).consistent()
        &&& self.latched()
    }

    /// The tree is well formed and every latch is consistent; some latches may
    /// be held.
    pub open spec fn sound(&self) -> bool {
        &&& total_order::<T>()
        &&& self.model().wf(None)
        &&& self.tidy()
    }

    /// No latch is held.
    pub open spec fn quiet(&self) -> bool {
        forall|i: int| 0 <= i < self.latches().len() ==> (#[trigger] self.latches()[i]).is_free()
    }

    /// The tree is well formed and at rest: what holds between any two of its
    /// operations.
    pub open spec fn wf(&self) -> bool {
        self.sound() && self.quiet()
    }

    /// The tree looks the same as `before` to `sound` and to the contracts, but
    /// for the latches.
    proof fn lemma_same_model(&self, before: &Tree<T>)
        requires
            self.nodes@.len() == before.nodes@.len(),
            forall|i: int|
                0 <= i < self.nodes@.len() ==> (#[trigger] self.nodes@[i]).inner
                    == before.nodes@[i].inner,
            self.metas == before.metas,
            self.levels == before.levels,
            self.clock == before.clock,
            self.root == before.root,
            self.min_ord == before.min_ord,
        ensures
            self.model() == before.model(),
            self@ == before@,
    {
        assert(self.model().nodes =~= before.model().nodes);
    }

    /// A change to the latch of node `at` alone, which leaves that latch well
    /// formed, leaves the tree tidy and its model as it was, and shows in the
    /// latches at `at` only.
    proof fn lemma_one_latch(&self, before: &Tree<T>, at: int)
        requires
            before.tidy(),
            0 <= at < before.nodes@.len(),
            self.nodes@.len() == before.nodes@.len(),
            forall|i: int|
                0 <= i < self.nodes@.len() && i != at ==> #[trigger] self.nodes@[i]
                    == before.nodes@[i],
            self.nodes@[at].inner == before.nodes@[at].inner,
            self.nodes@[at].latch.wf(),
            self.metas == before.metas,
            self.levels == before.levels,
            self.clock == before.clock,
            self.root == before.root,
            self.min_ord == before.min_ord,
        ensures
            self.tidy(),
            self.model() == before.model(),
            self@ == before@,
            self.latches() == before.latches().update(at, self.nodes@[at].latch@),
    {
        self.lemma_same_model(before);
        assert(self.latches() =~= before.latches().update(at, self.nodes@[at].latch@));
        assert forall|i: int| 0 <= i < self.nodes@.len() implies (#[trigger] self.nodes@[i]).latch.wf() by {
            if i != at {
                assert(before.nodes@[i].latch.wf());
            }
        }
        assert forall|i: int| 0 <= i < self.latches().len() implies (#[trigger] self.latches()[i]).consistent() by {
            if i != at {
                assert(before.latches()[i].consistent());
            } else {
                self.nodes@[at].latch.lemma_consistent();
            }
        }
    }

    /// What the model and the latches are made of.
    pub(crate) proof fn lemma_open(&self)
        ensures
            self.model().nodes.len() == self.nodes@.len(),
            self.latches().len() == self.nodes@.len(),
            forall|i: int|
                0 <= i < self.nodes@.len() ==> #[trigger] self.model().nodes[i]
                    == self.nodes@[i].inner@,
            forall|i: int|
                0 <= i < self.nodes@.len() ==> #[trigger] self.latches()[i] == self.nodes@[i].latch@,
            self.latched() <==> forall|i: int|
                0 <= i < self.nodes@.len() ==> (#[trigger] self.nodes@[i]).latch.wf(),
            self.model().metas == self.metas@,
            self.model().levels == self.levels@,
            self.model().clock == self.clock@,
            self.model().root == self.root,
            self.model().min_ord == self.min_ord,
            self@ == self.model().keys(),
    {
    }

    /// A change that touches no latch leaves the latches as they were.
    pub(crate) proof fn lemma_latches_kept(&self, before: &Tree<T>)
        requires
            self.nodes@.len() == before.nodes@.len(),
            forall|i: int|
                0 <= i < self.nodes@.len() ==> (#[trigger] self.nodes@[i]).latch
                    == before.nodes@[i].latch,
        ensures
            self.latches() == before.latches(),
            self.latched() == before.latched(),
    {
        assert(self.latches() =~= before.latches());
        if before.latched() {
            assert forall|i: int| 0 <= i < self.nodes@.len() implies (#[trigger] self.nodes@[i]).latch.wf() by {
                assert(before.nodes@[i].latch.wf());
            }
        }
        if self.latched() {
            assert forall|i: int| 0 <= i < before.nodes@.len() implies (#[trigger] before.nodes@[i]).latch.wf() by {
                assert(self.nodes@[i].latch.wf());
            }
        }
    }

    /// What the model and the latches say of node `i` is what the arena holds.
    pub(crate) proof fn lemma_at(&self, i: int)
        requires
            0 <= i < self.nodes@.len(),
        ensures
            self.model().nodes.len() == self.nodes@.len(),
            self.latches().len() == self.nodes@.len(),
            self.model().nodes[i] == self.nodes@[i].inner@,
            self.latches()[i] == self.nodes@[i].latch@,
    {
    }

    /// The number of nodes ever made, live and retired: the handles are the
    /// numbers below it.
    pub fn node_count(&self) -> (r: usize)
        ensures
            r == self.model().nodes.len(),
            r == self.latches().len(),
    {
        self.nodes.len()
    }

    /// The handle of the root.
    pub fn root(&self) -> (r: usize)
        ensures
            r == self.model().root,
    {
        self.root
    }

    /// The minimum order of the tree.
    pub fn min_ord(&self) -> (r: usize)
        ensures
            r == self.model().min_ord,
    {
        self.min_ord
    }

    /// The node with handle `at`.
    pub fn node(&self, at: usize) -> (r: &Node<T>)
        requires
            at < self.model().nodes.len(),
        ensures
            r.inner@ == self.model().nodes[at as int],
            r.latch@ == self.latches()[at as int],
    {
        &self.nodes[at]
    }

    /// Latches node `at` in mode `mode`.
    pub fn latch(&mut self, at: usize, mode: LatchType)
        requires
            old(self).tidy(),
            at < old(self).latches().len(),
            old(self).latches()[at as int].admits(mode),
        ensures
            final(self).tidy(),
            final(self).model() == old(self).model(),
            final(self)@ == old(self)@,
            final(self).latches() == old(self).latches().update(
                at as int,
                old(self).latches()[at as int].with(mode),
            ),
    {
        proof {
            assert(old(self).nodes@[at as int].latch.wf());
        }
        self.nodes[at].latch.acquire(mode);
        proof {
            self.lemma_one_latch(&*old(self), at as int);
        }
    }

    /// Gives up the latch that is held on node `at` in mode `mode`.
    pub fn unlatch(&mut self, at: usize, mode: LatchType)
        requires
            old(self).tidy(),
            at < old(self).latches().len(),
            old(self).latches()[at as int].holds(mode),
        ensures
            final(self).tidy(),
            final(self).model() == old(self).model(),
            final(self)@ == old(self)@,
            final(self).latches() == old(self).latches().update(
                at as int,
                old(self).latches()[at as int].without(mode),
            ),
    {
        proof {
            assert(old(self).nodes@[at as int].latch.wf());
        }
        self.nodes[at].latch.release(mode);
        proof {
            self.lemma_one_latch(&*old(self), at as int);
        }
    }

    /// Turns the upgradable latch that is held on node `at` into the exclusive
    /// one.
    pub fn upgrade(&mut self, at: usize)
        requires
            old(self).tidy(),
            at < old(self).latches().len(),
            old(self).latches()[at as int].upgradable,
            old(self).latches()[at as int].shared == 0,
        ensures
            final(self).tidy(),
            final(self).model() == old(self).model(),
            final(self)@ == old(self)@,
            final(self).latches() == old(self).latches().update(
                at as int,
                old(self).latches()[at as int].upgraded(),
            ),
    {
        proof {
            assert(old(self).nodes@[at as int].latch.wf());
        }
        self.nodes[at].latch.upgrade();
        proof {
            self.lemma_one_latch(&*old(self), at as int);
        }
    }
}

impl<T: Ord + Copy> Tree<T> {
    /// One step of a traversal that stands at the latched node `at` and seeks
    /// `key`: the node to go to next, if the traversal is to go on.
    pub fn next_hop(&self, at: usize, key: &T) -> (r: Option<usize>)
        requires
            self.sound(),
            at < self.latches().len(),
            self.latches()[at as int].held(),
        ensures
            match r {
                Some(j) => self.model().next(at as int, *key) == Some(j as int),
                None => self.model().next(at as int, *key).is_none(),
            },
    {
        proof {
            self.lemma_at(at as int);
        }
        let n = &self.nodes[at].inner;
        match n.out_link {
            Some(t) => Some(t),
            None => match (n.right_link, &n.high_key) {
                (Some(r), Some(h)) => if less(key, h) {
                    None
                } else {
                    Some(r)
                },
                _ => None,
            },
        }
    }

    /// Moves a traversal that holds the latch of node `at` in mode
    /// `latch_type` to the node where the search for `key` is to go on: along
    /// the out link of a retired node, and along the right link of a node that
    /// ends at or before `key`. Each step gives up the latch of the node it
    /// leaves before it takes the latch of the node it enters, so each node
    /// that the traversal passes has to admit the mode.
    pub fn move_right(&mut self, at: usize, key: &T, latch_type: LatchType) -> (r: usize)
        requires
            old(self).sound(),
            at < old(self).latches().len(),
            old(self).latches()[at as int].holds(latch_type),
            forall|i: int|
                0 <= i < old(self).latches().len() && i != at && old(self).model().passes(
                    at as int,
                    *key,
                    i,
                ) ==> (#[trigger] old(self).latches()[i]).admits(latch_type),
        ensures
            final(self).sound(),
            final(self).model() == old(self).model(),
            final(self)@ == old(self)@,
            r == old(self).model().settle(at as int, *key),
            r < old(self).latches().len(),
            final(self).latches() == old(self).latches().update(
                at as int,
                old(self).latches()[at as int].without(latch_type),
            ).update(
                r as int,
                old(self).latches().update(
                    at as int,
                    old(self).latches()[at as int].without(latch_type),
                )[r as int].with(latch_type),
            ),
    {
        let ghost base = old(self).latches().update(
            at as int,
            old(self).latches()[at as int].without(latch_type),
        );
        let mut cur = at;
        let mut hop = self.next_hop(cur, key);
        proof {
            assert(self.latches() =~= base.update(cur as int, base[cur as int].with(latch_type)));
        }
        while hop.is_some()
            invariant
                self.sound(),
                self.model() == old(self).model(),
                self@ == old(self)@,
                cur < self.latches().len(),
                base.len() == self.latches().len(),
                forall|i: int| 0 <= i < base.len() ==> (#[trigger] base[i]).consistent(),
                forall|i: int|
                    0 <= i < base.len() && self.model().passes(at as int, *key, i)
                        ==> (#[trigger] base[i]).admits(latch_type),
                at < base.len(),
                self.model().passes(at as int, *key, cur as int),
                self.latches() == base.update(cur as int, base[cur as int].with(latch_type)),
                self.model().settle(cur as int, *key) == self.model().settle(at as int, *key),
                match hop {
                    Some(j) => self.model().next(cur as int, *key) == Some(j as int),
                    None => self.model().next(cur as int, *key).is_none(),
                },
            decreases self.model().staleness(cur as int), self.model().reach(cur as int),
        {
            let j = hop.unwrap();
            proof {
                self.model().lemma_next_nearer(cur as int, *key);
                self.model().lemma_passes_on(at as int, *key, cur as int, j as int);
            }
            self.unlatch(cur, latch_type);
            proof {
                assert(self.latches() =~= base);
            }
            self.latch(j, latch_type);
            cur = j;
            hop = self.next_hop(cur, key);
        }
        cur
    }

    /// Whether `key` is in the tree.
    ///
    /// The search goes down from the root under shared latches. On each level
    /// it moves right to the node that covers the key, latches the child that
    /// the key is routed to, and only then gives up the latch of the parent.
    pub fn search(&mut self, key: &T) -> (r: bool)
        requires
            old(self).wf(),
        ensures
            final(self).wf(),
            final(self).model() == old(self).model(),
            final(self)@ == old(self)@,
            r == old(self)@.contains(*key),
    {
        let ghost free = self.latches();
        let ghost m = self.model();
        let root = self.root;
        proof {
            crate::model::lemma_root_covers(m, None, *key);
            m.lemma_settle_covers(root as int, *key);
        }
        self.latch(root, LatchType::Shared);
        let mut cur = self.move_right(root, key, LatchType::Shared);
        proof {
            self.lemma_at(cur as int);
            assert(self.latches() =~= free.update(
                cur as int,
                free[cur as int].with(LatchType::Shared),
            ));
        }
        while self.nodes[cur].inner.children.len() != 0
            invariant
                self.sound(),
                self.model() == m,
                self@ == old(self)@,
                free == old(self).latches(),
                old(self).wf(),
                m.live(cur as int),
                m.covers(cur as int, *key),
                cur < self.nodes.len(),
                free.len() == self.nodes.len(),
                self.latches() == free.update(cur as int, free[cur as int].with(LatchType::Shared)),
            decreases m.metas[cur as int].level,
        {
            proof {
                self.lemma_at(cur as int);
                assert(m.node_ok(cur as int, None));
                crate::model::lemma_route(m, None, cur as int, *key);
            }
            let j = self.nodes[cur].child_slot(key);
            let child = self.nodes[cur].inner.children[j];
            proof {
                m.lemma_settle_covers(child as int, *key);
            }
            self.latch(child, LatchType::Shared);
            self.unlatch(cur, LatchType::Shared);
            proof {
                assert(self.latches() =~= free.update(
                    child as int,
                    free[child as int].with(LatchType::Shared),
                ));
            }
            cur = self.move_right(child, key, LatchType::Shared);
            proof {
                assert(self.latches() =~= free.update(
                    cur as int,
                    free[cur as int].with(LatchType::Shared),
                ));
            }
        }
        proof {
            self.lemma_at(cur as int);
            assert(m.node_ok(cur as int, None));
            crate::model::lemma_leaf_decides(m, None, cur as int, *key);
        }
        let found = self.nodes[cur].has_key(key);
        self.unlatch(cur, LatchType::Shared);
        proof {
            assert(self.latches() =~= free);
        }
        found
    }
}

impl<T: Ord + Copy> Tree<T> {
    /// The keys of the tree, gathered by a walk along the leaves: down the
    /// left edge to the first leaf, then from leaf to leaf by the right links.
    pub fn traverse(&mut self) -> (r: Vec<T>)
        requires
            old(self).wf(),
        ensures
            final(self).wf(),
            final(self).model() == old(self).model(),
            final(self)@ == old(self)@,
            r@ == old(self)@,
            ascending(r@),
    {
        let ghost free = self.latches();
        let ghost m = self.model();
        let mut cur = self.root;
        proof {
            crate::model::lemma_root_covers(m, None, arbitrary());
            self.lemma_at(cur as int);
        }
        self.latch(cur, LatchType::Shared);
        while self.nodes[cur].inner.children.len() != 0
            invariant
                self.sound(),
                self.model() == m,
                self@ == old(self)@,
                free == old(self).latches(),
                old(self).wf(),
                m.live(cur as int),
                m.nodes[cur as int].low_key.is_none(),
                cur < self.nodes.len(),
                free.len() == self.nodes.len(),
                self.latches() == free.update(cur as int, free[cur as int].with(LatchType::Shared)),
            decreases m.metas[cur as int].level,
        {
            proof {
                self.lemma_at(cur as int);
                assert(m.node_ok(cur as int, None));
                assert(m.child_ok(cur as int, 0));
            }
            let child = self.nodes[cur].inner.children[0];
            self.latch(child, LatchType::Shared);
            self.unlatch(cur, LatchType::Shared);
            proof {
                assert(self.latches() =~= free.update(
                    child as int,
                    free[child as int].with(LatchType::Shared),
                ));
            }
            cur = child;
        }
        let ghost chain = m.levels[0];
        let ghost mut p: int = 0;
        proof {
            self.lemma_at(cur as int);
            assert(m.node_ok(cur as int, None));
            m.lemma_leftmost(None, cur as int);
            m.lemma_place(None, cur as int);
            assert(chain.take(0) =~= Seq::<int>::empty());
        }
        let mut out: Vec<T> = Vec::new();
        let mut going = true;
        while going
            invariant
                self.sound(),
                self.model() == m,
                self@ == old(self)@,
                free == old(self).latches(),
                old(self).wf(),
                chain == m.levels[0],
                cur < self.nodes.len(),
                free.len() == self.nodes.len(),
                going ==> 0 <= p < chain.len() && chain[p] == cur,
                going ==> out@ == crate::model::chain_keys(m.nodes, chain.take(p)),
                going ==> self.latches() == free.update(
                    cur as int,
                    free[cur as int].with(LatchType::Shared),
                ),
                !going ==> p == chain.len(),
                !going ==> out@ == m.keys(),
                !going ==> self.latches() == free,
            decreases chain.len() - p, (if going { 1int } else { 0int }),
        {
            proof {
                self.lemma_at(cur as int);
                assert(m.chain_ok(0));
                assert(m.chain_at(0, p));
                assert(chain.take(p + 1).drop_last() =~= chain.take(p));
            }
            let ghost before = out@;
            let n = self.nodes[cur].inner.keys.len();
            let mut k: usize = 0;
            while k < n
                invariant
                    cur < self.nodes.len(),
                    n == self.nodes[cur as int].inner.keys.len(),
                    0 <= k <= n,
                    out@ == before + self.nodes[cur as int].inner.keys@.take(k as int),
                decreases n - k,
            {
                out.push(self.nodes[cur].inner.keys[k]);
                proof {
                    let ks = self.nodes[cur as int].inner.keys@;
                    assert(ks.take(k + 1) =~= ks.take(k as int).push(ks[k as int]));
                    assert(out@ =~= before + ks.take(k + 1));
                }
                k = k + 1;
            }
            proof {
                let ks = self.nodes[cur as int].inner.keys@;
                assert(ks.take(n as int) =~= ks);
                assert(out@ == crate::model::chain_keys(m.nodes, chain.take(p + 1)));
            }
            let next = self.nodes[cur].inner.right_link;
            proof {
                assert(next == m.nodes[cur as int].right_link);
            }
            self.unlatch(cur, LatchType::Shared);
            proof {
                assert(self.latches() =~= free);
            }
            match next {
                Some(r) => {
                    proof {
                        assert(m.chain_at(0, p + 1));
                    }
                    self.latch(r, LatchType::Shared);
                    cur = r;
                },
                None => {
                    going = false;
                    proof {
                        assert(chain.take(p + 1) =~= chain);
                    }
                },
            }
            proof {
                p = p + 1;
            }
        }
        proof {
            lemma_keys_ascend(m, None);
        }
        out
    }
}

impl<T: Ord + Copy> Tree<T> {
    /// The order invariant: between any two operations the keys of the tree,
    /// as a walk along the leaves meets them, ascend strictly, so none of
    /// them occurs twice.
    pub proof fn law_keys_ascend(&self)
        requires
            self.wf(),
        ensures
            ascending(self@),
            self@.no_duplicates(),
            self@ == self.model().keys(),
    {
        lemma_keys_ascend(self.model(), None);
        let s = self@;
        assert forall|i: int, j: int| 0 <= i < s.len() && 0 <= j < s.len() && i != j implies s[i]
            != s[j] by {
            if i < j {
                assert(crate::order::lt(s[i], s[j]));
            } else {
                assert(crate::order::lt(s[j], s[i]));
            }
        }
    }

    /// Recovery by moving right: a traversal that stands at a live node which
    /// does not begin after the key, however stale what led it there, comes
    /// to rest at the one live node of that level which covers the key. When
    /// that level is the leaves, the node decides whether the key is in the
    /// tree.
    pub proof fn law_move_right_recovers(&self, at: int, key: T)
        requires
            self.sound(),
            self.model().live(at),
            above(self.model().nodes[at].low_key, key),
        ensures
            self.model().live_at(self.model().settle(at, key), self.model().metas[at].level),
            self.model().covers(self.model().settle(at, key), key),
            forall|other: int|
                self.model().live_at(other, self.model().metas[at].level) && self.model().covers(
                    other,
                    key,
                ) ==> other == self.model().settle(at, key),
            self.model().metas[at].level == 0 ==> self@.contains(key)
                == self.model().nodes[self.model().settle(at, key)].keys.contains(key),
    {
        let m = self.model();
        m.lemma_settle_covers(at, key);
        let r = m.settle(at, key);
        assert forall|other: int|
            m.live_at(other, m.metas[at].level) && m.covers(other, key) implies other == r by {
            m.lemma_one_cover(None, other, r, key);
        }
        if m.metas[at].level == 0 {
            crate::model::lemma_leaf_decides(m, None, r, key);
        }
    }

    /// A traversal that stands at a retired node still comes to rest at a
    /// live node that does not end before the key.
    pub proof fn law_move_right_lands(&self, at: int, key: T)
        requires
            self.sound(),
            0 <= at < self.model().nodes.len(),
        ensures
            self.model().live(self.model().settle(at, key)),
            crate::order::below(key, self.model().nodes[self.model().settle(at, key)].high_key),
    {
        self.model().lemma_settle_live(at, key);
    }
}

impl<T: Ord + Copy> Tree<T> {
    /// What holds of every live node: its keys ascend and lie between its low
    /// key and its high key; it holds between the
    /// minimum order and twice that of keys, but at the root; it has no
    /// children or one more than keys; and it has no out link.
    pub proof fn law_live_node(&self, i: int)
        requires
            self.wf(),
            self.model().live(i),
        ensures
            ascending(self.model().nodes[i].keys),
            forall|k: int|
                0 <= k < self.model().nodes[i].keys.len() ==> self.model().covers(
                    i,
                    #[trigger] self.model().nodes[i].keys[k],
                ),
            self.model().nodes[i].keys.len() <= 2 * self.model().min_ord,
            i != self.model().root ==> self.model().nodes[i].keys.len() >= self.model().min_ord,
            self.model().nodes[i].shaped(),
            self.model().nodes[i].is_leaf() == (self.model().metas[i].level == 0),
            self.model().nodes[i].out_link.is_none(),
            self.model().nodes[i].root == (i == self.model().root),
            self.model().nodes[i].min_ord == self.model().min_ord,
            forall|key: T| self.model().nodes[i].spans(key) == self.model().covers(i, key),
    {
        assert(self.model().node_ok(i, None));
    }

    /// What holds of every node that is not live: it is retired, and its out
    /// link names a node of the tree.
    pub proof fn law_retired_node(&self, i: int)
        requires
            self.wf(),
            0 <= i < self.model().nodes.len(),
            !self.model().live(i),
        ensures
            self.model().nodes[i].out_link.is_some(),
            self.model().nodes[i].out_link.unwrap() < self.model().nodes.len(),
    {
        assert(self.model().node_ok(i, None));
    }

    /// Along a right link the keys grow: every key of the right sibling sorts
    /// after every key of the node, and the sibling is a live node of the
    /// same level.
    pub proof fn law_right_sibling(&self, i: int, a: int, b: int)
        requires
            self.wf(),
            self.model().live(i),
            self.model().nodes[i].right_link.is_some(),
            0 <= a < self.model().nodes[i].keys.len(),
            0 <= b < self.model().nodes[self.model().nodes[i].right_link.unwrap() as int].keys.len(),
        ensures
            self.model().live_at(
                self.model().nodes[i].right_link.unwrap() as int,
                self.model().metas[i].level,
            ),
            crate::order::lt(
                self.model().nodes[i].keys[a],
                self.model().nodes[self.model().nodes[i].right_link.unwrap() as int].keys[b],
            ),
    {
        let m = self.model();
        let r = m.nodes[i].right_link.unwrap() as int;
        assert(m.node_ok(i, None));
        assert(m.node_ok(r, None));
        let x = m.nodes[i].keys[a];
        let y = m.nodes[r].keys[b];
        let h = m.nodes[i].high_key.unwrap();
        assert(m.covers(i, x));
        assert(m.covers(r, y));
        if !crate::order::lt(x, y) {
            if x != y {
                assert(crate::order::lt(y, x));
                assert(crate::order::lt(y, h));
            }
        }
    }

    /// Every live node is reached from the root: the descent from the root
    /// towards any key that the node covers passes the node. Every live node
    /// that holds a key covers its keys, so none but an empty root can be
    /// missed.
    pub proof fn law_live_nodes_are_reached(&self, i: int, key: T)
        requires
            self.wf(),
            self.model().live(i),
            self.model().covers(i, key),
        ensures
            self.model().descend(self.model().root, key, self.model().metas[i].level) == i,
    {
        let m = self.model();
        crate::model::lemma_root_covers(m, None, key);
        assert(m.node_ok(i, None));
        m.lemma_descend(m.root, key, m.metas[i].level);
        m.lemma_one_cover(None, m.descend(m.root, key, m.metas[i].level), i, key);
    }
}

/// The operations of the tree as a set of keys.
pub trait BTree<T: Ord>: Sized {
    /// The keys of the tree in ascending order.
    spec fn keys(&self) -> Seq<T>;

    /// The tree is well formed and at rest.
    spec fn ready(&self) -> bool;

    /// Whether `key` is in the tree.
    fn search(&mut self, key: &T) -> (r: bool)
        requires
            old(self).ready(),
        ensures
            final(self).ready(),
            final(self).keys() == old(self).keys(),
            r == old(self).keys().contains(*key),
    ;

    /// Inserts `key`, unless the tree holds it already.
    fn insert(&mut self, key: T) -> (r: Result<(), TreeError>)
        requires
            old(self).ready(),
        ensures
            final(self).ready(),
            final(self).keys() == crate::keys::with_key(old(self).keys(), key),
            old(self).keys().contains(key) <==> r == Err::<(), TreeError>(TreeError::DuplicateKey),
            !old(self).keys().contains(key) <==> r == Ok::<(), TreeError>(()),
    ;

    /// Deletes `key`, and says whether the tree held it.
    fn delete(&mut self, key: &T) -> (r: bool)
        requires
            old(self).ready(),
        ensures
            final(self).ready(),
            final(self).keys() == crate::keys::without_key(old(self).keys(), *key),
            r == old(self).keys().contains(*key),
    ;
}

impl<T: Ord + Copy> BTree<T> for Tree<T> {
    open spec fn keys(&self) -> Seq<T> {
        self@
    }

    open spec fn ready(&self) -> bool {
        self.wf()
    }

    fn search(&mut self, key: &T) -> (r: bool) {
        Tree::search(self, key)
    }

    fn insert(&mut self, key: T) -> (r: Result<(), TreeError>) {
        Tree::insert(self, key)
    }

    fn delete(&mut self, key: &T) -> (r: bool) {
        Tree::delete(self, key)
    }
}

/// An empty tree of minimum order `min_ord`: a single leaf, which is the root.
pub fn create_tree<T: Ord>(min_ord: usize) -> (r: Result<Tree<T>, TreeError>)
    requires
        total_order::<T>(),
    ensures
        min_ord == 0 <==> r == Err::<Tree<T>, TreeError>(TreeError::ZeroOrder),
        min_ord > 0 <==> r.is_ok(),
        r matches Ok(t) ==> {
            &&& t.wf()
            &&& t@ == Seq::<T>::empty()
            &&& t.model().min_ord == min_ord
            &&& t.model().nodes.len() == 1
            &&& t.model().root == 0
            &&& t.model().nodes[0] == (NodeView { root: true, ..NodeView::<T>::fresh(min_ord) })
        },
{
    if min_ord == 0 {
        return Err(TreeError::ZeroOrder);
    }
    let mut first: Node<T> = Node { latch: NodeLatch::new(), inner: NodeInner::new(min_ord) };
    first.inner.root = true;
    let mut nodes: Vec<Node<T>> = Vec::new();
    nodes.push(first);
    let ghost metas = seq![Meta { level: 0, live: true, retired_at: 0 }];
    let ghost levels = seq![seq![0int]];
    let t = Tree {
        min_ord,
        root: 0,
        nodes,
        metas: Ghost(metas),
        levels: Ghost(levels),
        clock: Ghost(0),
    };
    proof {
        let m = t.model();
        assert(m.nodes.len() == 1);
        assert(m.levels[0] =~= seq![0int]);
        assert(m.levels[0].contains(0int)) by {
            assert(m.levels[0][0] == 0);
        }
        assert(m.chain_at(0, 0));
        assert(m.chain_ok(0));
        assert(m.node_ok(0, None));
        assert(m.levels.last() =~= seq![m.root]);
        assert(m.wf(None));
        reveal_with_fuel(crate::model::chain_keys, 2);
        assert(m.levels[0].drop_last() =~= Seq::<int>::empty());
        assert(t@ =~= Seq::<T>::empty());
    }
    Ok(t)
}

} // verus!
