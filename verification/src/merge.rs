//! The steps that mend a node with too few keys: the merge of two adjacent
//! children and the passing of one key between them, as functions on the
//! model, and the proof that each of them keeps the tree well formed and keeps
//! its keys.

use crate::model::{lemma_chain_keys_contains, lemma_root_covers, Meta, Model};
use crate::node::NodeView;
use crate::order::{apart, lt, total_order};
use crate::steps::{lemma_chain_kept, lemma_remove_keeps, lemma_steady, same_place};
use vstd::prelude::*;

verus! {

impl<T: Ord> Model<T> {
    /// The model after child `j + 1` of node `p` has been merged into child
    /// `j`: the left child takes over the keys and children of the right one,
    /// between them the separator if they are internal nodes, and ends where
    /// the right one ended. The right child is retired, with its out link
    /// naming the left one. The parent gives up the separator and the right
    /// child.
    pub open spec fn merge_children(self, p: int, j: int) -> Model<T> {
        let pn = self.nodes[p];
        let a = pn.children[j] as int;
        let b = pn.children[j + 1] as int;
        let an = self.nodes[a];
        let bn = self.nodes[b];
        let l = self.metas[a].level as int;
        Model {
            nodes: self.nodes.update(
                a,
                NodeView {
                    keys: if an.is_leaf() {
                        an.keys + bn.keys
                    } else {
                        an.keys.push(pn.keys[j]) + bn.keys
                    },
                    children: an.children + bn.children,
                    right_link: bn.right_link,
                    high_key: bn.high_key,
                    ..an
                },
            ).update(
                b,
                NodeView {
                    keys: Seq::empty(),
                    children: Seq::empty(),
                    out_link: Some(pn.children[j]),
                    ..bn
                },
            ).update(
                p,
                NodeView { keys: pn.keys.remove(j), children: pn.children.remove(j + 1), ..pn },
            ),
            metas: self.metas.update(
                b,
                Meta { live: false, retired_at: self.clock, ..self.metas[b] },
            ),
            levels: self.levels.update(l, self.levels[l].remove(self.place(b))),
            clock: self.clock + 1,
            ..self
        }
    }

    /// Children `j` and `j + 1` of node `p` can be mended: the tree is well
    /// formed but for the size of one of the two.
    pub open spec fn mendable(self, slack: Option<int>, p: int, j: int) -> bool {
        &&& self.wf(slack)
        &&& self.live(p)
        &&& self.metas[p].level > 0
        &&& 0 <= j < self.nodes[p].keys.len()
        &&& slack == Some(self.nodes[p].children[j] as int) || slack == Some(
            self.nodes[p].children[j + 1] as int,
        )
    }

    /// Two adjacent children of a node are adjacent on their level, the key
    /// between them is where the left one ends and the right one begins, and
    /// they are two nodes, neither of them the parent or the root.
    pub proof fn lemma_adjacent(self, slack: Option<int>, p: int, j: int)
        requires
            total_order::<T>(),
            self.wf(slack),
            self.live(p),
            self.metas[p].level > 0,
            0 <= j < self.nodes[p].keys.len(),
        ensures
            self.child_ok(p, j),
            self.child_ok(p, j + 1),
            self.nodes[self.nodes[p].children[j] as int].right_link == Some(
                self.nodes[p].children[j + 1],
            ),
            self.place(self.nodes[p].children[j + 1] as int) == self.place(
                self.nodes[p].children[j] as int,
            ) + 1,
            self.nodes[p].children[j] != self.nodes[p].children[j + 1],
            self.nodes[p].children[j] != p,
            self.nodes[p].children[j + 1] != p,
            self.nodes[p].children[j] != self.root,
            self.nodes[p].children[j + 1] != self.root,
    {
        let pn = self.nodes[p];
        let a = pn.children[j] as int;
        let b = pn.children[j + 1] as int;
        let sep = pn.keys[j];
        assert(self.node_ok(p, slack));
        assert(self.child_ok(p, j));
        assert(self.child_ok(p, j + 1));
        assert(self.node_ok(a, slack));
        assert(self.node_ok(b, slack));
        let r = self.nodes[a].right_link.unwrap() as int;
        assert(self.node_ok(r, slack));
        assert(!lt(sep, sep)) by {
            if lt(sep, sep) {
                assert(!lt(sep, sep));
            }
        }
        assert(self.covers(b, sep));
        assert(self.covers(r, sep));
        self.lemma_one_cover(slack, r, b, sep);
        self.lemma_place(slack, a);
        self.lemma_place(slack, b);
        let l = self.metas[a].level as int;
        assert(self.chain_ok(l));
        assert(self.chain_at(l, self.place(a)));
        lemma_root_covers(self, slack, sep);
    }
}

/// Children `j` and `j + 1` of node `p` can be merged: the tree is well formed
/// but for the size of one of the two, and their keys fit into one node.
pub open spec fn can_merge<T: Ord>(m: Model<T>, slack: Option<int>, p: int, j: int) -> bool {
    &&& m.mendable(slack, p, j)
    &&& m.nodes[m.nodes[p].children[j] as int].keys.len() + m.nodes[m.nodes[p].children[j
        + 1] as int].keys.len() + (if m.metas[p].level > 1 {
        1int
    } else {
        0int
    }) <= 2 * m.min_ord
}

/// After a merge every level is a chain.
proof fn lemma_merge_chains<T: Ord>(m: Model<T>, slack: Option<int>, p: int, j: int)
    requires
        total_order::<T>(),
        can_merge(m, slack, p, j),
    ensures
        forall|l2: int|
            0 <= l2 < m.merge_children(p, j).levels.len() ==> #[trigger] m.merge_children(
                p,
                j,
            ).chain_ok(l2),
{
    let m2 = m.merge_children(p, j);
    let pn = m.nodes[p];
    let a = pn.children[j] as int;
    let b = pn.children[j + 1] as int;
    let an = m.nodes[a];
    let bn = m.nodes[b];
    let l = m.metas[a].level as int;
    let sep = pn.keys[j];
    let pn2 = m2.nodes[p];
    let an2 = m2.nodes[a];
    m.lemma_adjacent(slack, p, j);
    assert(m.node_ok(p, slack));
    assert(m.node_ok(a, slack));
    assert(m.node_ok(b, slack));
    m.lemma_place(slack, a);
    m.lemma_place(slack, b);
    let chain = m.levels[l];
    let q = m.place(a);
    let chain2 = m2.levels[l];
    assert(m.chain_ok(l));
    assert(lt(sep, sep) == false) by {
        if lt(sep, sep) {
            assert(!lt(sep, sep));
        }
    }
    assert forall|l2: int| 0 <= l2 < m2.levels.len() implies #[trigger] m2.chain_ok(l2) by {
        assert(m.chain_ok(l2));
        if l2 != l {
            lemma_chain_kept(m, m2, l2);
        } else {
            assert forall|x: int| 0 <= x < chain2.len() implies #[trigger] m2.chain_at(l, x) by {
                if x < q {
                    assert(m.chain_at(l, x));
                    assert(chain2[x] == chain[x]);
                    assert(chain2[x + 1] == chain[x + 1]);
                } else if x == q {
                    assert(m.chain_at(l, q + 1));
                    if q + 2 < chain.len() {
                        assert(chain2[q + 1] == chain[q + 2]);
                    }
                } else {
                    assert(m.chain_at(l, x + 1));
                    assert(chain2[x] == chain[x + 1]);
                    if x + 2 < chain.len() {
                        assert(chain2[x + 1] == chain[x + 2]);
                    }
                }
            }
            assert(chain2.no_duplicates()) by {
                assert forall|x: int, y: int|
                    0 <= x < chain2.len() && 0 <= y < chain2.len() && x != y implies chain2[x]
                    != chain2[y] by {
                    let x1 = if x <= q { x } else { x + 1 };
                    let y1 = if y <= q { y } else { y + 1 };
                    assert(chain2[x] == chain[x1] && chain2[y] == chain[y1]);
                }
            }
            assert(chain2[0] == chain[0]);
            assert(m.chain_at(l, 0));
        }
    }
}

/// After a merge the node that took the keys over is well formed.
proof fn lemma_merge_left<T: Ord>(m: Model<T>, slack: Option<int>, p: int, j: int)
    requires
        total_order::<T>(),
        can_merge(m, slack, p, j),
    ensures
        m.merge_children(p, j).node_ok(m.nodes[p].children[j] as int, Some(p)),
{
    let m2 = m.merge_children(p, j);
    let pn = m.nodes[p];
    let a = pn.children[j] as int;
    let b = pn.children[j + 1] as int;
    let an = m.nodes[a];
    let bn = m.nodes[b];
    let l = m.metas[a].level as int;
    let sep = pn.keys[j];
    let pn2 = m2.nodes[p];
    let an2 = m2.nodes[a];
    m.lemma_adjacent(slack, p, j);
    assert(m.node_ok(p, slack));
    assert(m.node_ok(a, slack));
    assert(m.node_ok(b, slack));
    m.lemma_place(slack, a);
    m.lemma_place(slack, b);
    let chain = m.levels[l];
    let q = m.place(a);
    let chain2 = m2.levels[l];
    assert(m.chain_ok(l));
    assert(lt(sep, sep) == false) by {
        if lt(sep, sep) {
            assert(!lt(sep, sep));
        }
    }
    let x = a;
    let na = an.keys.len() as int;
    let gap: int = if an.is_leaf() { 0 } else { 1 };
    assert forall|k: int| 0 <= k < an2.keys.len() implies m2.covers(
        a,
        #[trigger] an2.keys[k],
    ) && (k < na ==> an2.keys[k] == an.keys[k] && lt(an2.keys[k], sep)) && (k >= na + gap
        ==> an2.keys[k] == bn.keys[k - na - gap] && !lt(an2.keys[k], sep)) && (na <= k < na
        + gap ==> an2.keys[k] == sep) by {
        if k < na {
            assert(m.covers(a, an.keys[k]));
            if bn.high_key.is_some() {
                assert(lt(sep, bn.high_key.unwrap()));
            }
        } else if k >= na + gap {
            assert(m.covers(b, bn.keys[k - na - gap]));
            let y = bn.keys[k - na - gap];
            if m.nodes[a].low_key.is_some() {
                let lo = m.nodes[a].low_key.unwrap();
                assert(lt(lo, sep));
                if lt(y, lo) {
                    assert(lt(y, sep));
                }
            }
        } else {
            if m.nodes[a].low_key.is_some() {
                let lo = m.nodes[a].low_key.unwrap();
                assert(lt(lo, sep));
                if lt(sep, lo) {
                    assert(!lt(sep, lo));
                }
            }
        }
    }
    assert forall|x1: int, y1: int| 0 <= x1 < y1 < an2.keys.len() implies lt(
        an2.keys[x1],
        an2.keys[y1],
    ) by {
        if y1 < na {
            assert(an2.keys[x1] == an.keys[x1] && an2.keys[y1] == an.keys[y1]);
        } else if x1 >= na + gap {
            assert(an2.keys[x1] == bn.keys[x1 - na - gap]);
            assert(an2.keys[y1] == bn.keys[y1 - na - gap]);
        } else {
            let u = an2.keys[x1];
            let v = an2.keys[y1];
            // u <= sep <= v, and one of them is not the separator
            if x1 < na {
                assert(lt(u, sep));
                if !lt(u, v) {
                    if u != v {
                        assert(lt(v, u));
                        assert(lt(v, sep));
                    }
                }
            } else {
                assert(u == sep);
                assert(m.child_ok(b, 0));
                let d = bn.children[0] as int;
                assert(m.node_ok(d, slack));
                assert(lt(sep, bn.keys[0]));
                if y1 - na - gap > 0 {
                    assert(lt(bn.keys[0], bn.keys[y1 - na - gap]));
                }
            }
        }
    }
    assert(apart(m2.nodes[a].low_key, an2.high_key)) by {
        if m.nodes[a].low_key.is_some() && bn.high_key.is_some() {
            let lo = m.nodes[a].low_key.unwrap();
            assert(lt(lo, sep));
            assert(lt(sep, bn.high_key.unwrap()));
        }
    }
    assert(m2.keys_ok(a));
    assert(m2.link_ok(a)) by {
        if bn.right_link.is_some() {
            let r = bn.right_link.unwrap() as int;
            assert(m.chain_at(l, q + 1));
            assert(r == chain[q + 2]);
            assert(m.chain_at(l, q + 2));
        }
    }
    assert(chain2[q] == a);
    assert(chain2.contains(a));
    if l > 0 {
        let ca = an.children.len() as int;
        assert forall|t: int| 0 <= t < an2.children.len() implies #[trigger] m2.child_ok(
            a,
            t,
        ) by {
            if t < ca {
                assert(m.child_ok(a, t));
                assert(an2.children[t] == an.children[t]);
                if t > 0 {
                    assert(an2.keys[t - 1] == an.keys[t - 1]);
                }
            } else {
                assert(m.child_ok(b, t - ca));
                assert(an2.children[t] == bn.children[t - ca]);
                assert(an2.keys[t - 1] == if t == ca {
                    sep
                } else {
                    bn.keys[t - ca - 1]
                });
                if t - ca < bn.keys.len() {
                    assert(an2.keys[t] == bn.keys[t - ca]);
                }
            }
        }
    }
}

/// After a merge the parent is well formed, but that it may hold one key too
/// few.
proof fn lemma_merge_parent<T: Ord>(m: Model<T>, slack: Option<int>, p: int, j: int)
    requires
        total_order::<T>(),
        can_merge(m, slack, p, j),
    ensures
        m.merge_children(p, j).node_ok(p, Some(p)),
{
    let m2 = m.merge_children(p, j);
    let pn = m.nodes[p];
    let a = pn.children[j] as int;
    let b = pn.children[j + 1] as int;
    let an = m.nodes[a];
    let bn = m.nodes[b];
    let l = m.metas[a].level as int;
    let sep = pn.keys[j];
    let pn2 = m2.nodes[p];
    let an2 = m2.nodes[a];
    m.lemma_adjacent(slack, p, j);
    assert(m.node_ok(p, slack));
    assert(m.node_ok(a, slack));
    assert(m.node_ok(b, slack));
    m.lemma_place(slack, a);
    m.lemma_place(slack, b);
    let chain = m.levels[l];
    let q = m.place(a);
    let chain2 = m2.levels[l];
    assert(m.chain_ok(l));
    assert(lt(sep, sep) == false) by {
        if lt(sep, sep) {
            assert(!lt(sep, sep));
        }
    }
    assert forall|x1: int, y1: int| 0 <= x1 < y1 < pn2.keys.len() implies lt(
        pn2.keys[x1],
        pn2.keys[y1],
    ) by {
        let x2 = if x1 < j { x1 } else { x1 + 1 };
        let y2 = if y1 < j { y1 } else { y1 + 1 };
        assert(pn2.keys[x1] == pn.keys[x2] && pn2.keys[y1] == pn.keys[y2]);
    }
    assert forall|k: int| 0 <= k < pn2.keys.len() implies m2.covers(
        p,
        #[trigger] pn2.keys[k],
    ) by {
        let k2 = if k < j { k } else { k + 1 };
        assert(m.covers(p, pn.keys[k2]));
    }
    assert(m2.keys_ok(p));
    assert(m2.link_ok(p));
    assert(m2.levels[m.metas[p].level as int].contains(p));
    assert forall|t: int| 0 <= t < pn2.children.len() implies #[trigger] m2.child_ok(
        p,
        t,
    ) by {
        let t2 = if t <= j { t } else { t + 1 };
        assert(m.child_ok(p, t2));
        assert(pn2.children[t] == pn.children[t2]);
        if t != j {
            if pn.children[t2] == pn.children[j] {
                m.lemma_one_parent(slack, p, t2, p, j);
            }
            if pn.children[t2] == pn.children[j + 1] {
                m.lemma_one_parent(slack, p, t2, p, j + 1);
            }
        }
        if t > 0 {
            assert(pn2.keys[t - 1] == pn.keys[if t - 1 < j { t - 1 } else { t }]);
        }
        if t < pn2.keys.len() {
            assert(pn2.keys[t] == pn.keys[if t < j { t } else { t + 1 }]);
        }
    }
}

/// After a merge a node that took no part in it is as good as it was.
proof fn lemma_merge_rest<T: Ord>(m: Model<T>, slack: Option<int>, p: int, j: int, x: int)
    requires
        total_order::<T>(),
        can_merge(m, slack, p, j),
        0 <= x < m.nodes.len(),
        x != p,
        x != m.nodes[p].children[j],
        x != m.nodes[p].children[j + 1],
    ensures
        m.merge_children(p, j).node_ok(x, Some(p)),
{
    let m2 = m.merge_children(p, j);
    let pn = m.nodes[p];
    let a = pn.children[j] as int;
    let b = pn.children[j + 1] as int;
    let an = m.nodes[a];
    let bn = m.nodes[b];
    let l = m.metas[a].level as int;
    let sep = pn.keys[j];
    let pn2 = m2.nodes[p];
    let an2 = m2.nodes[a];
    m.lemma_adjacent(slack, p, j);
    assert(m.node_ok(p, slack));
    assert(m.node_ok(a, slack));
    assert(m.node_ok(b, slack));
    m.lemma_place(slack, a);
    m.lemma_place(slack, b);
    let chain = m.levels[l];
    let q = m.place(a);
    let chain2 = m2.levels[l];
    assert(m.chain_ok(l));
    assert(lt(sep, sep) == false) by {
        if lt(sep, sep) {
            assert(!lt(sep, sep));
        }
    }
    assert(m.node_ok(x, slack));
    if m.metas[x].live {
        assert forall|t: int| 0 <= t < m.nodes[x].children.len() implies same_place(
            m,
            m2,
            #[trigger] m.nodes[x].children[t] as int,
        ) by {
            assert(m.child_ok(x, t));
            if m.nodes[x].children[t] == pn.children[j] {
                m.lemma_one_parent(slack, x, t, p, j);
            }
            if m.nodes[x].children[t] == pn.children[j + 1] {
                m.lemma_one_parent(slack, x, t, p, j + 1);
            }
        }
        if m.metas[x].level == l {
            lemma_remove_keeps(chain, q + 1, x);
        }
        if m.nodes[x].right_link == Some(pn.children[j + 1]) {
            m.lemma_place(slack, x);
            assert(m.chain_at(l, m.place(x)));
            assert(m.metas[x].level == l);
            assert(chain[m.place(x) + 1] == b);
        }
    }
    lemma_steady(m, slack, m2, Some(p), x);
}

/// After a merge the keys of the tree are those they were.
proof fn lemma_merge_keys<T: Ord>(m: Model<T>, slack: Option<int>, p: int, j: int)
    requires
        total_order::<T>(),
        can_merge(m, slack, p, j),
    ensures
        forall|k: T| m.merge_children(p, j).keys().contains(k) <==> m.keys().contains(k),
{
    let m2 = m.merge_children(p, j);
    let pn = m.nodes[p];
    let a = pn.children[j] as int;
    let b = pn.children[j + 1] as int;
    let an = m.nodes[a];
    let bn = m.nodes[b];
    let l = m.metas[a].level as int;
    let sep = pn.keys[j];
    let pn2 = m2.nodes[p];
    let an2 = m2.nodes[a];
    m.lemma_adjacent(slack, p, j);
    assert(m.node_ok(p, slack));
    assert(m.node_ok(a, slack));
    assert(m.node_ok(b, slack));
    m.lemma_place(slack, a);
    m.lemma_place(slack, b);
    let chain = m.levels[l];
    let q = m.place(a);
    let chain2 = m2.levels[l];
    assert(m.chain_ok(l));
    assert(lt(sep, sep) == false) by {
        if lt(sep, sep) {
            assert(!lt(sep, sep));
        }
    }
    assert forall|k: T| m2.keys().contains(k) <==> m.keys().contains(k) by {
        let c0 = m.levels[0];
        let c2 = m2.levels[0];
        assert(m.chain_ok(0));
        lemma_chain_keys_contains(m.nodes, c0, k);
        lemma_chain_keys_contains(m2.nodes, c2, k);
        if l == 0 {
            if m2.keys().contains(k) {
                let z = choose|z: int|
                    0 <= z < c2.len() && (#[trigger] m2.nodes[c2[z]]).keys.contains(k);
                if z == q {
                    let i = choose|i: int| 0 <= i < an2.keys.len() && an2.keys[i] == k;
                    if i < an.keys.len() {
                        assert(an.keys[i] == k);
                        assert(m.nodes[c0[q]].keys.contains(k));
                    } else {
                        assert(bn.keys[i - an.keys.len()] == k);
                        assert(m.nodes[c0[q + 1]].keys.contains(k));
                    }
                } else {
                    let z1 = if z < q { z } else { z + 1 };
                    assert(c2[z] == c0[z1]);
                    assert(m.chain_at(0, z1));
                    assert(m.nodes[c0[z1]].keys.contains(k));
                }
            }
            if m.keys().contains(k) {
                let z = choose|z: int|
                    0 <= z < c0.len() && (#[trigger] m.nodes[c0[z]]).keys.contains(k);
                assert(c2[q] == a);
                if z == q {
                    let i = choose|i: int| 0 <= i < an.keys.len() && an.keys[i] == k;
                    assert(an2.keys[i] == k);
                    assert(m2.nodes[c2[q]].keys.contains(k));
                } else if z == q + 1 {
                    let i = choose|i: int| 0 <= i < bn.keys.len() && bn.keys[i] == k;
                    assert(an2.keys[an.keys.len() + i] == k);
                    assert(m2.nodes[c2[q]].keys.contains(k));
                } else {
                    let z2 = if z < q { z } else { z - 1 };
                    assert(c2[z2] == c0[z]);
                    assert(m.chain_at(0, z));
                    assert(m2.nodes[c2[z2]].keys.contains(k));
                }
            }
        } else {
            if m2.keys().contains(k) {
                let z = choose|z: int|
                    0 <= z < c2.len() && (#[trigger] m2.nodes[c2[z]]).keys.contains(k);
                assert(m.chain_at(0, z));
                assert(m.nodes[c0[z]].keys.contains(k));
            }
            if m.keys().contains(k) {
                let z = choose|z: int|
                    0 <= z < c0.len() && (#[trigger] m.nodes[c0[z]]).keys.contains(k);
                assert(m.chain_at(0, z));
                assert(m2.nodes[c2[z]].keys.contains(k));
            }
        }
    }
}

/// Merging two adjacent children whose keys fit into one node keeps the tree
/// well formed, but that the parent may now hold one key too few, and keeps
/// the keys of the tree.
pub proof fn lemma_merge<T: Ord>(m: Model<T>, slack: Option<int>, p: int, j: int)
    requires
        total_order::<T>(),
        can_merge(m, slack, p, j),
    ensures
        m.merge_children(p, j).wf(Some(p)),
        forall|k: T| m.merge_children(p, j).keys().contains(k) <==> m.keys().contains(k),
{
    let m2 = m.merge_children(p, j);
    let a = m.nodes[p].children[j] as int;
    let b = m.nodes[p].children[j + 1] as int;
    m.lemma_adjacent(slack, p, j);
    assert(m.node_ok(b, slack));
    lemma_merge_chains(m, slack, p, j);
    lemma_merge_left(m, slack, p, j);
    lemma_merge_parent(m, slack, p, j);
    lemma_merge_keys(m, slack, p, j);
    assert forall|x: int| 0 <= x < m2.nodes.len() implies #[trigger] m2.node_ok(x, Some(p)) by {
        if x == a || x == p {
        } else if x == b {
        } else {
            lemma_merge_rest(m, slack, p, j, x);
        }
    }
}

impl<T: Ord> Model<T> {
    /// The model after the root, an internal node that is left without a key,
    /// has given its place to its only child: the child is the root, the old
    /// root is retired, with its out link naming the child, and the tree is
    /// lower by a level.
    pub open spec fn collapse_root(self) -> Model<T> {
        let r = self.root;
        let rn = self.nodes[r];
        let c = rn.children[0] as int;
        Model {
            nodes: self.nodes.update(c, NodeView { root: true, ..self.nodes[c] }).update(
                r,
                NodeView { root: false, out_link: Some(rn.children[0]), ..rn },
            ),
            metas: self.metas.update(
                r,
                Meta { live: false, retired_at: self.clock, ..self.metas[r] },
            ),
            levels: self.levels.drop_last(),
            clock: self.clock + 1,
            root: c,
            ..self
        }
    }
}

/// When the root is an internal node without a key, making its only child the
/// root makes the tree well formed again and keeps its keys.
pub proof fn lemma_collapse_root<T: Ord>(m: Model<T>)
    requires
        total_order::<T>(),
        m.wf(Some(m.root)),
        m.metas[m.root].level > 0,
        m.nodes[m.root].keys.len() == 0,
    ensures
        m.collapse_root().wf(None),
        m.collapse_root().keys() == m.keys(),
{
    let m2 = m.collapse_root();
    let r = m.root;
    let slack = Some(r);
    let rn = m.nodes[r];
    let c = rn.children[0] as int;
    let top = m.levels.len() - 1;
    lemma_root_covers(m, slack, arbitrary());
    assert(m.node_ok(r, slack));
    assert(m.child_ok(r, 0));
    assert(m.node_ok(c, slack));
    m.lemma_place(slack, c);
    m.lemma_leftmost(slack, c);
    assert(m.chain_ok(top - 1));
    assert(m.chain_at(top - 1, 0));
    assert(m.levels[top - 1] =~= seq![c]);
    assert(m2.levels.last() =~= seq![m2.root]);
    assert forall|l2: int| 0 <= l2 < m2.levels.len() implies #[trigger] m2.chain_ok(l2) by {
        assert(m.chain_ok(l2));
        lemma_chain_kept(m, m2, l2);
    }
    assert forall|x: int| 0 <= x < m2.nodes.len() implies #[trigger] m2.node_ok(x, None) by {
        assert(m.node_ok(x, slack));
        if x == r {
        } else if x == c {
            assert(m2.keys_ok(c)) by {
                assert forall|k: int| 0 <= k < m.nodes[c].keys.len() implies m2.covers(
                    c,
                    #[trigger] m2.nodes[c].keys[k],
                ) by {
                    assert(m.covers(c, m.nodes[c].keys[k]));
                }
            }
            assert(m2.levels[top - 1][0] == c);
            assert(m2.levels[m.metas[c].level as int].contains(c));
            if m.metas[c].level > 0 {
                assert forall|t: int|
                    0 <= t < m.nodes[c].children.len() implies #[trigger] m2.child_ok(c, t) by {
                    assert(m.child_ok(c, t));
                }
            }
        } else {
            if m.metas[x].live {
                m.lemma_place(slack, x);
                assert(m.metas[x].level < top);
                assert forall|t: int| 0 <= t < m.nodes[x].children.len() implies same_place(
                    m,
                    m2,
                    #[trigger] m.nodes[x].children[t] as int,
                ) by {
                    assert(m.child_ok(x, t));
                }
            }
            lemma_steady(m, slack, m2, None, x);
        }
    }
    // the leaves are what they were
    assert(m2.levels[0] == m.levels[0]);
    assert(m.chain_ok(0));
    assert forall|p: int| 0 <= p < m.levels[0].len() implies (#[trigger] m.nodes[m.levels[0][p]]).keys
        == m2.nodes[m.levels[0][p]].keys by {
        assert(m.chain_at(0, p));
    }
    lemma_same_leaves(m.nodes, m2.nodes, m.levels[0]);
}

/// Two arenas whose nodes along a chain hold the same keys give the chain the
/// same keys.
pub proof fn lemma_same_leaves<T>(n1: Seq<NodeView<T>>, n2: Seq<NodeView<T>>, chain: Seq<int>)
    requires
        forall|p: int| 0 <= p < chain.len() ==> (#[trigger] n1[chain[p]]).keys == n2[chain[p]].keys,
    ensures
        crate::model::chain_keys(n1, chain) == crate::model::chain_keys(n2, chain),
    decreases chain.len(),
{
    if chain.len() > 0 {
        let front = chain.drop_last();
        assert forall|p: int| 0 <= p < front.len() implies (#[trigger] n1[front[p]]).keys
            == n2[front[p]].keys by {
            assert(front[p] == chain[p]);
        }
        lemma_same_leaves(n1, n2, front);
        assert(n1[chain[chain.len() - 1]].keys == n2[chain[chain.len() - 1]].keys);
    }
}

} // verus!
