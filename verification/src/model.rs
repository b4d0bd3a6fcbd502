//! The tree as a mathematical value, and what it means for it to be well
//! formed.
//!
//! Beside what the nodes hold, the model records for every node its level
//! (leaves are at level 0) and whether it is live or retired, and for every
//! level the live nodes from left to right.

use crate::keys::ascending;
use crate::node::NodeView;
use crate::order::{above, apart, below, lt, total_order};
use vstd::prelude::*;

verus! {

/// What the model records of a node beside its contents.
pub struct Meta {
    /// The height of the node above the leaves.
    pub level: nat,
    /// Whether the node is part of the tree, or has been retired.
    pub live: bool,
    /// For a retired node, how many nodes had been retired before it.
    pub retired_at: nat,
}

/// The tree as a mathematical value.
pub struct Model<T> {
    /// The contents of every node ever made, by handle.
    pub nodes: Seq<NodeView<T>>,
    /// What is recorded of every node, by handle.
    pub metas: Seq<Meta>,
    /// For each level, the handles of its live nodes from left to right.
    pub levels: Seq<Seq<int>>,
    /// The number of nodes retired so far.
    pub clock: nat,
    /// The handle of the root.
    pub root: int,
    /// The minimum order of the tree.
    pub min_ord: nat,
}

/// The keys of the nodes of `chain`, in the order of the chain.
pub open spec fn chain_keys<T>(nodes: Seq<NodeView<T>>, chain: Seq<int>) -> Seq<T>
    decreases chain.len(),
{
    if chain.len() == 0 {
        Seq::empty()
    } else {
        chain_keys(nodes, chain.drop_last()) + nodes[chain.last()].keys
    }
}

impl<T: Ord> Model<T> {
    /// The keys of the tree: those of the leaves from left to right.
    pub open spec fn keys(self) -> Seq<T> {
        chain_keys(self.nodes, self.levels[0])
    }

    /// `i` is the handle of a live node.
    pub open spec fn live(self, i: int) -> bool {
        0 <= i < self.nodes.len() && self.metas[i].live
    }

    /// `i` is the handle of a live node at level `l`.
    pub open spec fn live_at(self, i: int, l: nat) -> bool {
        self.live(i) && self.metas[i].level == l
    }

    /// `key` belongs to node `i`: it is neither left of it nor right of it.
    pub open spec fn covers(self, i: int, key: T) -> bool {
        above(self.nodes[i].low_key, key) && below(key, self.nodes[i].high_key)
    }

    /// The keys of node `i` ascend and belong to it, and some key can belong
    /// to it.
    pub open spec fn keys_ok(self, i: int) -> bool {
        let n = self.nodes[i];
        &&& ascending(n.keys)
        &&& forall|k: int| 0 <= k < n.keys.len() ==> self.covers(i, #[trigger] n.keys[k])
        &&& apart(self.nodes[i].low_key, n.high_key)
    }

    /// Node `i` holds as many keys as its place allows: between the minimum
    /// order and twice that, but at the root, where a leaf may hold fewer and
    /// an internal node needs one. The node `slack`, if any, may be off by one
    /// either way.
    pub open spec fn size_ok(self, i: int, slack: Option<int>) -> bool {
        let len = self.nodes[i].keys.len();
        let give: nat = if slack == Some(i) { 1 } else { 0 };
        &&& len <= 2 * self.min_ord + give
        &&& if i == self.root {
            self.metas[i].level > 0 ==> len + give >= 1
        } else {
            len + give >= self.min_ord
        }
    }

    /// Child `j` of node `i` is a live node one level down whose keys are
    /// those between the separators on either side of it.
    pub open spec fn child_ok(self, i: int, j: int) -> bool {
        let n = self.nodes[i];
        let c = n.children[j] as int;
        &&& self.live(c)
        &&& self.metas[c].level + 1 == self.metas[i].level
        &&& self.nodes[c].low_key == (if j == 0 {
            self.nodes[i].low_key
        } else {
            Some(n.keys[j - 1])
        })
        &&& self.nodes[c].high_key == (if j == n.keys.len() {
            n.high_key
        } else {
            Some(n.keys[j])
        })
    }

    /// The right link of node `i` names the live node of the same level that
    /// begins where node `i` ends, and is absent where node `i` has no end.
    pub open spec fn link_ok(self, i: int) -> bool {
        let n = self.nodes[i];
        match n.right_link {
            Some(r) => {
                &&& self.live_at(r as int, self.metas[i].level)
                &&& n.high_key.is_some()
                &&& self.nodes[r as int].low_key == n.high_key
            },
            None => n.high_key.is_none(),
        }
    }

    /// All that holds of a live node.
    pub open spec fn live_ok(self, i: int, slack: Option<int>) -> bool {
        let n = self.nodes[i];
        let level = self.metas[i].level;
        &&& n.min_ord == self.min_ord
        &&& n.root == (i == self.root)
        &&& n.out_link.is_none()
        &&& self.keys_ok(i)
        &&& self.size_ok(i, slack)
        &&& self.link_ok(i)
        &&& level < self.levels.len()
        &&& self.levels[level as int].contains(i)
        &&& if level == 0 {
            n.children.len() == 0
        } else {
            &&& n.children.len() == n.keys.len() + 1
            &&& forall|j: int| 0 <= j < n.children.len() ==> #[trigger] self.child_ok(i, j)
        }
    }

    /// All that holds of a retired node: its out link names a node that is
    /// live or was retired later.
    pub open spec fn retired_ok(self, i: int) -> bool {
        &&& self.metas[i].retired_at < self.clock
        &&& self.nodes[i].out_link matches Some(t) && {
            &&& t < self.nodes.len()
            &&& self.metas[t as int].live || self.metas[t as int].retired_at
                > self.metas[i].retired_at
        }
    }

    /// All that holds of node `i`.
    pub open spec fn node_ok(self, i: int, slack: Option<int>) -> bool {
        if self.metas[i].live {
            self.live_ok(i, slack)
        } else {
            self.retired_ok(i)
        }
    }

    /// The node at place `p` of level `l` is a live node of that level whose
    /// right link names the next node of the level.
    pub open spec fn chain_at(self, l: int, p: int) -> bool {
        let c = self.levels[l];
        &&& self.live_at(c[p], l as nat)
        &&& match self.nodes[c[p]].right_link {
            Some(r) => p + 1 < c.len() && c[p + 1] == r,
            None => p + 1 == c.len(),
        }
    }

    /// Level `l` is a chain of distinct live nodes, linked from left to right,
    /// that begins with the node without a low key.
    pub open spec fn chain_ok(self, l: int) -> bool {
        let c = self.levels[l];
        &&& c.len() >= 1
        &&& c.no_duplicates()
        &&& forall|p: int| 0 <= p < c.len() ==> #[trigger] self.chain_at(l, p)
        &&& self.nodes[c[0]].low_key.is_none()
    }

    /// The tree is well formed, but that the node `slack`, if any, may hold one
    /// key more or less than its place allows.
    pub open spec fn wf(self, slack: Option<int>) -> bool {
        &&& self.min_ord >= 1
        &&& self.metas.len() == self.nodes.len()
        &&& self.levels.len() >= 1
        &&& 0 <= self.root < self.nodes.len()
        &&& self.levels.last() =~= seq![self.root]
        &&& forall|l: int| 0 <= l < self.levels.len() ==> #[trigger] self.chain_ok(l)
        &&& forall|i: int| 0 <= i < self.nodes.len() ==> #[trigger] self.node_ok(i, slack)
    }

    /// The place of the live node `i` on its level.
    pub open spec fn place(self, i: int) -> int {
        self.levels[self.metas[i].level as int].index_of(i)
    }

    /// A live node stands at its place on its level.
    pub proof fn lemma_place(self, slack: Option<int>, i: int)
        requires
            self.wf(slack),
            self.live(i),
        ensures
            0 <= self.metas[i].level < self.levels.len(),
            0 <= self.place(i) < self.levels[self.metas[i].level as int].len(),
            self.levels[self.metas[i].level as int][self.place(i)] == i,
    {
        assert(self.node_ok(i, slack));
        let c = self.levels[self.metas[i].level as int];
        assert(c.contains(i));
    }

    /// Along a level the nodes follow one another without overlap: a node
    /// ends no later than any node to its right begins.
    pub proof fn lemma_chain_order(self, slack: Option<int>, l: int, p: int, q: int)
        requires
            total_order::<T>(),
            self.wf(slack),
            0 <= l < self.levels.len(),
            0 <= p < q < self.levels[l].len(),
        ensures
            self.nodes[self.levels[l][p]].high_key.is_some(),
            self.nodes[self.levels[l][q]].low_key.is_some(),
            !lt(
                self.nodes[self.levels[l][q]].low_key.unwrap(),
                self.nodes[self.levels[l][p]].high_key.unwrap(),
            ),
        decreases q - p,
    {
        let c = self.levels[l];
        assert(self.chain_ok(l));
        assert(self.chain_at(l, p));
        assert(self.chain_at(l, p + 1));
        assert(self.node_ok(c[p], slack));
        assert(self.node_ok(c[p + 1], slack));
        if q > p + 1 {
            self.lemma_chain_order(slack, l, p + 1, q);
            let a = self.nodes[c[p]].high_key.unwrap();
            let b = self.nodes[c[p + 1]].high_key.unwrap();
            let d = self.nodes[c[q]].low_key.unwrap();
            assert(lt(a, b));
            if lt(d, a) {
                assert(lt(d, b));
            }
        } else {
            let a = self.nodes[c[p]].high_key.unwrap();
            if lt(a, a) {
                assert(!lt(a, a));
            }
        }
    }

    /// Only the first node of a level is without a low key.
    pub proof fn lemma_leftmost(self, slack: Option<int>, i: int)
        requires
            total_order::<T>(),
            self.wf(slack),
            self.live(i),
        ensures
            self.nodes[i].low_key.is_none() <==> self.place(i) == 0,
    {
        self.lemma_place(slack, i);
        let l = self.metas[i].level as int;
        assert(self.chain_ok(l));
        if self.place(i) > 0 {
            self.lemma_chain_order(slack, l, 0, self.place(i));
        }
    }

    /// On one level, at most one live node covers a key.
    pub proof fn lemma_one_cover(self, slack: Option<int>, a: int, b: int, key: T)
        requires
            total_order::<T>(),
            self.wf(slack),
            self.live(a),
            self.live(b),
            self.metas[a].level == self.metas[b].level,
            self.covers(a, key),
            self.covers(b, key),
        ensures
            a == b,
    {
        self.lemma_place(slack, a);
        self.lemma_place(slack, b);
        let l = self.metas[a].level as int;
        let pa = self.place(a);
        let pb = self.place(b);
        if pa < pb {
            self.lemma_chain_order(slack, l, pa, pb);
            let h = self.nodes[a].high_key.unwrap();
            let lo = self.nodes[b].low_key.unwrap();
            assert(lt(key, h));
            assert(!lt(key, lo));
            if lt(h, lo) {
            } else {
                assert(h == lo);
            }
        } else if pb < pa {
            self.lemma_chain_order(slack, l, pb, pa);
            let h = self.nodes[b].high_key.unwrap();
            let lo = self.nodes[a].low_key.unwrap();
            assert(lt(key, h));
            assert(!lt(key, lo));
            if lt(h, lo) {
            } else {
                assert(h == lo);
            }
        }
    }

    /// A node is the child of one node only, and in one place only.
    pub proof fn lemma_one_parent(self, slack: Option<int>, x: int, s: int, y: int, t: int)
        requires
            total_order::<T>(),
            self.wf(slack),
            self.live(x),
            self.live(y),
            self.metas[x].level > 0,
            self.metas[y].level > 0,
            0 <= s < self.nodes[x].children.len(),
            0 <= t < self.nodes[y].children.len(),
            self.nodes[x].children[s] == self.nodes[y].children[t],
        ensures
            x == y,
            s == t,
    {
        assert(self.node_ok(x, slack));
        assert(self.node_ok(y, slack));
        assert(self.child_ok(x, s));
        assert(self.child_ok(y, t));
        let c = self.nodes[x].children[s] as int;
        assert(self.node_ok(c, slack));
        let nx = self.nodes[x];
        let ny = self.nodes[y];
        match self.nodes[c].low_key {
            None => {
                assert(s == 0 && t == 0);
                self.lemma_leftmost(slack, x);
                self.lemma_leftmost(slack, y);
                self.lemma_place(slack, x);
                self.lemma_place(slack, y);
            },
            Some(k) => {
                assert(self.covers(x, k)) by {
                    if s > 0 {
                        assert(self.covers(x, nx.keys[s - 1]));
                    } else {
                        assert(!lt(k, k)) by {
                            if lt(k, k) {
                                assert(!lt(k, k));
                            }
                        }
                    }
                }
                assert(self.covers(y, k)) by {
                    if t > 0 {
                        assert(self.covers(y, ny.keys[t - 1]));
                    } else {
                        assert(!lt(k, k)) by {
                            if lt(k, k) {
                                assert(!lt(k, k));
                            }
                        }
                    }
                }
                self.lemma_one_cover(slack, x, y, k);
                if s < t {
                    // the child ends at keys[s], which is no later than keys[t - 1]
                    let h = nx.keys[s];
                    assert(self.nodes[c].high_key == Some(h));
                    assert(lt(k, h));
                    if s < t - 1 {
                        assert(lt(nx.keys[s], nx.keys[t - 1]));
                    }
                    assert(!lt(k, k)) by {
                        if lt(k, k) {
                            assert(!lt(k, k));
                        }
                    }
                } else if t < s {
                    let h = nx.keys[t];
                    assert(self.nodes[c].high_key == Some(h));
                    assert(lt(k, h));
                    if t < s - 1 {
                        assert(lt(nx.keys[t], nx.keys[s - 1]));
                    }
                    assert(!lt(k, k)) by {
                        if lt(k, k) {
                            assert(!lt(k, k));
                        }
                    }
                }
            },
        }
    }
}

impl<T: Ord> Model<T> {
    /// One step of a traversal that stands at node `i` and seeks `key`: a
    /// retired node sends it along its out link, a node that ends at or before
    /// `key` sends it along its right link, and any other node keeps it.
    pub open spec fn next(self, i: int, key: T) -> Option<int> {
        let n = self.nodes[i];
        match n.out_link {
            Some(t) => Some(t as int),
            None => match (n.right_link, n.high_key) {
                (Some(r), Some(h)) => if lt(key, h) {
                    None
                } else {
                    Some(r as int)
                },
                _ => None,
            },
        }
    }

    /// How far node `i` is from the end of every traversal that passes it:
    /// for a retired node, the number of nodes retired since, itself included.
    pub open spec fn staleness(self, i: int) -> nat {
        if self.metas[i].live {
            0
        } else {
            (self.clock - self.metas[i].retired_at) as nat
        }
    }

    /// For a live node, the number of nodes of its level from it to the right.
    pub open spec fn reach(self, i: int) -> nat {
        if self.metas[i].live {
            (self.levels[self.metas[i].level as int].len() - self.place(i)) as nat
        } else {
            0
        }
    }

    /// A step leads to a node that is nearer to the end of the traversal.
    pub proof fn lemma_next_nearer(self, i: int, key: T)
        requires
            self.wf(None),
            0 <= i < self.nodes.len(),
            self.next(i, key).is_some(),
        ensures
            0 <= self.next(i, key).unwrap() < self.nodes.len(),
            self.staleness(self.next(i, key).unwrap()) < self.staleness(i) || (self.staleness(
                self.next(i, key).unwrap(),
            ) == self.staleness(i) && self.reach(self.next(i, key).unwrap()) < self.reach(i)),
            self.metas[i].live ==> self.live_at(self.next(i, key).unwrap(), self.metas[i].level),
    {
        let j = self.next(i, key).unwrap();
        assert(self.node_ok(i, None));
        if self.metas[i].live {
            self.lemma_place(None, i);
            let l = self.metas[i].level as int;
            let c = self.levels[l];
            let p = self.place(i);
            assert(self.chain_ok(l));
            assert(self.chain_at(l, p));
            assert(c[p + 1] == j);
            assert(self.chain_at(l, p + 1));
            self.lemma_place(None, j);
            assert(self.place(j) == p + 1);
        } else {
            assert(self.node_ok(j, None));
        }
    }

    /// Where a traversal that stands at node `i` and seeks `key` comes to
    /// rest.
    pub open spec fn settle(self, i: int, key: T) -> int
        decreases self.staleness(i), self.reach(i),
        when self.wf(None) && 0 <= i < self.nodes.len()
    {
        match self.next(i, key) {
            None => i,
            Some(j) => {
                proof {
                    self.lemma_next_nearer(i, key);
                }
                self.settle(j, key)
            },
        }
    }

    /// The traversal that stands at node `i` and seeks `key` passes node `j`:
    /// it stands there, or a later step takes it there.
    pub open spec fn passes(self, i: int, key: T, j: int) -> bool
        decreases self.staleness(i), self.reach(i),
        when self.wf(None) && 0 <= i < self.nodes.len()
    {
        i == j || match self.next(i, key) {
            None => false,
            Some(n) => {
                proof {
                    self.lemma_next_nearer(i, key);
                }
                self.passes(n, key, j)
            },
        }
    }

    /// A traversal that passes a node passes the node that the next step
    /// from there leads to.
    pub proof fn lemma_passes_on(self, i: int, key: T, cur: int, j: int)
        requires
            self.wf(None),
            0 <= i < self.nodes.len(),
            self.passes(i, key, cur),
            self.next(cur, key) == Some(j),
        ensures
            0 <= cur < self.nodes.len(),
            self.passes(i, key, j),
        decreases self.staleness(i), self.reach(i),
    {
        if i == cur {
            self.lemma_next_nearer(i, key);
            assert(self.passes(j, key, j));
        } else {
            let n = self.next(i, key).unwrap();
            self.lemma_next_nearer(i, key);
            self.lemma_passes_on(n, key, cur, j);
        }
    }

    /// A traversal that starts at a live node passes live nodes of that level
    /// only.
    pub proof fn lemma_passes_level(self, i: int, key: T, j: int)
        requires
            self.wf(None),
            self.live(i),
            self.passes(i, key, j),
        ensures
            self.live_at(j, self.metas[i].level),
        decreases self.staleness(i), self.reach(i),
    {
        if i != j {
            let n = self.next(i, key).unwrap();
            self.lemma_next_nearer(i, key);
            self.lemma_passes_level(n, key, j);
        }
    }

    /// A traversal comes to rest at a live node that does not end before the
    /// key.
    pub proof fn lemma_settle_live(self, i: int, key: T)
        requires
            self.wf(None),
            0 <= i < self.nodes.len(),
        ensures
            self.live(self.settle(i, key)),
            below(key, self.nodes[self.settle(i, key)].high_key),
        decreases self.staleness(i), self.reach(i),
    {
        assert(self.node_ok(i, None));
        match self.next(i, key) {
            None => {},
            Some(j) => {
                self.lemma_next_nearer(i, key);
                self.lemma_settle_live(j, key);
            },
        }
    }

    /// A traversal that starts at a live node which does not begin after the
    /// key comes to rest at the node of that level which covers the key.
    pub proof fn lemma_settle_covers(self, i: int, key: T)
        requires
            self.wf(None),
            self.live(i),
            above(self.nodes[i].low_key, key),
        ensures
            self.live_at(self.settle(i, key), self.metas[i].level),
            self.covers(self.settle(i, key), key),
        decreases self.staleness(i), self.reach(i),
    {
        assert(self.node_ok(i, None));
        match self.next(i, key) {
            None => {},
            Some(j) => {
                self.lemma_next_nearer(i, key);
                self.lemma_settle_covers(j, key);
            },
        }
    }

    /// A traversal that stands at the live node which covers the key stays
    /// there.
    pub proof fn lemma_settle_stays(self, i: int, key: T)
        requires
            self.wf(None),
            self.live(i),
            self.covers(i, key),
        ensures
            self.settle(i, key) == i,
    {
        assert(self.node_ok(i, None));
    }
}

/// The keys of the first `n` leaves ascend, and all of them sort before the
/// place where leaf `n - 1` ends.
pub proof fn lemma_leaves_ascend<T: Ord>(m: Model<T>, slack: Option<int>, n: int)
    requires
        total_order::<T>(),
        m.wf(slack),
        0 <= n <= m.levels[0].len(),
    ensures
        ascending(chain_keys(m.nodes, m.levels[0].take(n))),
        n > 0 ==> forall|k: int|
            0 <= k < chain_keys(m.nodes, m.levels[0].take(n)).len() ==> below(
                #[trigger] chain_keys(m.nodes, m.levels[0].take(n))[k],
                m.nodes[m.levels[0][n - 1]].high_key,
            ),
    decreases n,
{
    let c = m.levels[0];
    if n > 0 {
        lemma_leaves_ascend(m, slack, n - 1);
        let front = chain_keys(m.nodes, c.take(n - 1));
        let i = c[n - 1];
        let tail = m.nodes[i].keys;
        assert(c.take(n).drop_last() =~= c.take(n - 1));
        assert(c.take(n).last() == i);
        let all = chain_keys(m.nodes, c.take(n));
        assert(all == front + tail);
        assert(m.chain_ok(0));
        assert(m.chain_at(0, n - 1));
        assert(m.node_ok(i, slack));
        if n > 1 {
            let h = c[n - 2];
            assert(m.chain_at(0, n - 2));
            assert(m.node_ok(h, slack));
            assert(m.nodes[i].low_key == m.nodes[h].high_key);
        }
        assert forall|a: int, b: int| 0 <= a < b < all.len() implies lt(all[a], all[b]) by {
            if b < front.len() {
                assert(all[a] == front[a] && all[b] == front[b]);
            } else if a >= front.len() {
                assert(all[a] == tail[a - front.len()] && all[b] == tail[b - front.len()]);
            } else {
                assert(all[a] == front[a]);
                assert(all[b] == tail[b - front.len()]);
                assert(m.covers(i, tail[b - front.len()]));
                let e = m.nodes[i].low_key.unwrap();
                assert(lt(front[a], e));
                if !lt(all[a], all[b]) {
                    if all[a] != all[b] {
                        assert(lt(all[b], all[a]));
                        assert(lt(all[b], e));
                    }
                }
            }
        }
        assert forall|k: int| 0 <= k < all.len() implies below(
            #[trigger] all[k],
            m.nodes[i].high_key,
        ) by {
            if k < front.len() {
                assert(all[k] == front[k]);
                let e = m.nodes[i].low_key.unwrap();
                assert(lt(front[k], e));
                if m.nodes[i].high_key.is_some() {
                    assert(lt(e, m.nodes[i].high_key.unwrap()));
                }
            } else {
                assert(all[k] == tail[k - front.len()]);
                assert(m.covers(i, tail[k - front.len()]));
            }
        }
    } else {
        assert(c.take(0) =~= Seq::<int>::empty());
    }
}

/// The keys of a well-formed tree ascend.
pub proof fn lemma_keys_ascend<T: Ord>(m: Model<T>, slack: Option<int>)
    requires
        total_order::<T>(),
        m.wf(slack),
    ensures
        ascending(m.keys()),
{
    lemma_leaves_ascend(m, slack, m.levels[0].len() as int);
    assert(m.levels[0].take(m.levels[0].len() as int) =~= m.levels[0]);
}

/// A well-formed tree is well formed with slack.
pub proof fn lemma_wf_loosen<T: Ord>(m: Model<T>, slack: Option<int>)
    requires
        m.wf(None),
    ensures
        m.wf(slack),
{
    assert forall|i: int| 0 <= i < m.nodes.len() implies #[trigger] m.node_ok(i, slack) by {
        assert(m.node_ok(i, None));
    }
}

/// A tree that is well formed with slack is well formed if the node with the
/// slack does not use it.
pub proof fn lemma_wf_tighten<T: Ord>(m: Model<T>, i: int)
    requires
        m.wf(Some(i)),
        0 <= i < m.nodes.len() ==> m.size_ok(i, None),
    ensures
        m.wf(None),
{
    assert forall|x: int| 0 <= x < m.nodes.len() implies #[trigger] m.node_ok(x, None) by {
        assert(m.node_ok(x, Some(i)));
    }
}

/// Whether a key is in the tree is decided by the leaf that covers it.
pub proof fn lemma_leaf_decides<T: Ord>(m: Model<T>, slack: Option<int>, leaf: int, key: T)
    requires
        total_order::<T>(),
        m.wf(slack),
        m.live_at(leaf, 0),
        m.covers(leaf, key),
    ensures
        m.keys().contains(key) == m.nodes[leaf].keys.contains(key),
{
    let c = m.levels[0];
    lemma_chain_keys_contains(m.nodes, c, key);
    m.lemma_place(slack, leaf);
    if m.keys().contains(key) {
        let p = choose|p: int| 0 <= p < c.len() && (#[trigger] m.nodes[c[p]]).keys.contains(key);
        let b = c[p];
        assert(m.chain_ok(0));
        assert(m.chain_at(0, p));
        assert(m.node_ok(b, slack));
        let i = choose|i: int| 0 <= i < m.nodes[b].keys.len() && m.nodes[b].keys[i] == key;
        assert(m.covers(b, m.nodes[b].keys[i]));
        m.lemma_one_cover(slack, b, leaf, key);
    }
    if m.nodes[leaf].keys.contains(key) {
        assert(m.nodes[c[m.place(leaf)]].keys.contains(key));
    }
}

/// The root covers every key.
pub proof fn lemma_root_covers<T: Ord>(m: Model<T>, slack: Option<int>, key: T)
    requires
        m.wf(slack),
    ensures
        m.live_at(m.root, (m.levels.len() - 1) as nat),
        m.nodes[m.root].low_key.is_none(),
        m.nodes[m.root].high_key.is_none(),
        m.covers(m.root, key),
{
    let top = m.levels.len() - 1;
    assert(m.chain_ok(top));
    assert(m.levels[top][0] == m.root);
    assert(m.chain_at(top, 0));
    assert(m.node_ok(m.root, slack));
}

/// The child that a key is routed to does not begin after the key; if the
/// parent covers the key, the child does.
pub proof fn lemma_route<T: Ord>(m: Model<T>, slack: Option<int>, i: int, key: T)
    requires
        total_order::<T>(),
        m.wf(slack),
        m.live(i),
        m.metas[i].level > 0,
        m.covers(i, key),
    ensures
        0 <= crate::keys::slot(m.nodes[i].keys, key) < m.nodes[i].children.len(),
        m.child_ok(i, crate::keys::slot(m.nodes[i].keys, key)),
        m.covers(m.nodes[i].children[crate::keys::slot(m.nodes[i].keys, key)] as int, key),
{
    assert(m.node_ok(i, slack));
    crate::keys::lemma_slot(m.nodes[i].keys, key);
    let j = crate::keys::slot(m.nodes[i].keys, key);
    assert(m.child_ok(i, j));
    if j > 0 {
        assert(!lt(key, m.nodes[i].keys[j - 1]));
    }
    if j < m.nodes[i].keys.len() {
        assert(lt(key, m.nodes[i].keys[j]));
    }
}

impl<T: Ord> Model<T> {
    /// The node of level `level` that the descent from node `from` towards
    /// `key` comes to, by the child that the key is routed to at each node.
    pub open spec fn descend(self, from: int, key: T, level: nat) -> int
        decreases self.metas[from].level,
    {
        if self.metas[from].level <= level {
            from
        } else {
            let c = self.nodes[from].children[crate::keys::slot(self.nodes[from].keys, key)] as int;
            if self.metas[c].level < self.metas[from].level {
                self.descend(c, key, level)
            } else {
                from
            }
        }
    }

    /// The descent from a live node that covers the key comes, on every level
    /// below, to the live node that covers the key.
    pub proof fn lemma_descend(self, from: int, key: T, level: nat)
        requires
            total_order::<T>(),
            self.wf(None),
            self.live(from),
            self.covers(from, key),
            level <= self.metas[from].level,
        ensures
            self.live_at(self.descend(from, key, level), level),
            self.covers(self.descend(from, key, level), key),
        decreases self.metas[from].level,
    {
        if self.metas[from].level > level {
            lemma_route(self, None, from, key);
            let c = self.nodes[from].children[crate::keys::slot(self.nodes[from].keys, key)] as int;
            self.lemma_descend(c, key, level);
        }
    }
}

/// A key is among the keys of a chain exactly if it is among the keys of one
/// of its nodes.
pub proof fn lemma_chain_keys_contains<T>(nodes: Seq<NodeView<T>>, chain: Seq<int>, k: T)
    ensures
        chain_keys(nodes, chain).contains(k) <==> exists|p: int|
            0 <= p < chain.len() && (#[trigger] nodes[chain[p]]).keys.contains(k),
    decreases chain.len(),
{
    if chain.len() > 0 {
        let front = chain.drop_last();
        let tail = nodes[chain.last()].keys;
        lemma_chain_keys_contains(nodes, front, k);
        let all = chain_keys(nodes, front) + tail;
        if all.contains(k) {
            let i = choose|i: int| 0 <= i < all.len() && all[i] == k;
            if i < chain_keys(nodes, front).len() {
                assert(chain_keys(nodes, front)[i] == k);
                let p = choose|p: int|
                    0 <= p < front.len() && (#[trigger] nodes[front[p]]).keys.contains(k);
                assert(nodes[chain[p]].keys.contains(k));
            } else {
                assert(tail[i - chain_keys(nodes, front).len()] == k);
                assert(nodes[chain[chain.len() - 1]].keys.contains(k));
            }
        }
        if exists|p: int|
            0 <= p < chain.len() && (#[trigger] nodes[chain[p]]).keys.contains(k) {
            let p = choose|p: int|
                0 <= p < chain.len() && (#[trigger] nodes[chain[p]]).keys.contains(k);
            if p < front.len() {
                assert(nodes[front[p]].keys.contains(k));
                let i = choose|i: int|
                    0 <= i < chain_keys(nodes, front).len() && chain_keys(nodes, front)[i] == k;
                assert(all[i] == k);
            } else {
                let i = choose|i: int| 0 <= i < tail.len() && tail[i] == k;
                assert(all[chain_keys(nodes, front).len() + i] == k);
            }
        }
    }
}

} // verus!
