//! The passing of one key between two adjacent children, which mends a child
//! with too few keys where its sibling has keys to spare.

use crate::model::{lemma_chain_keys_contains, Model};
use crate::node::NodeView;
use crate::order::{apart, lt, total_order};
use crate::steps::{lemma_chain_kept, lemma_steady, same_place};
use vstd::prelude::*;

verus! {

impl<T: Ord> Model<T> {
    /// The separator between children `j` and `j + 1` of node `p` after a key
    /// has passed from the right child to the left one.
    pub open spec fn left_pass_fence(self, p: int, j: int) -> T {
        let bn = self.nodes[self.nodes[p].children[j + 1] as int];
        if bn.is_leaf() {
            bn.keys[1]
        } else {
            bn.keys[0]
        }
    }

    /// The model after a key has passed from child `j + 1` of node `p` to
    /// child `j`. Between leaves, the first key of the right one becomes the
    /// last key of the left one. Between internal nodes, the separator comes
    /// down as the last key of the left one, with the first child of the right
    /// one under it, and the first key of the right one goes up. Either way
    /// the parent's separator becomes the least key that is left on the right.
    pub open spec fn pass_left(self, p: int, j: int) -> Model<T> {
        let pn = self.nodes[p];
        let a = pn.children[j] as int;
        let b = pn.children[j + 1] as int;
        let an = self.nodes[a];
        let bn = self.nodes[b];
        let fence = self.left_pass_fence(p, j);
        Model {
            nodes: self.nodes.update(
                a,
                NodeView {
                    keys: an.keys.push(
                        if an.is_leaf() {
                            bn.keys[0]
                        } else {
                            pn.keys[j]
                        },
                    ),
                    children: if an.is_leaf() {
                        an.children
                    } else {
                        an.children.push(bn.children[0])
                    },
                    high_key: Some(fence),
                    ..an
                },
            ).update(
                b,
                NodeView {
                    keys: bn.keys.drop_first(),
                    children: if an.is_leaf() {
                        bn.children
                    } else {
                        bn.children.drop_first()
                    },
                    low_key: Some(fence),
                    ..bn
                },
            ).update(p, NodeView { keys: pn.keys.update(j, fence), ..pn }),
            ..self
        }
    }

    /// The model after a key has passed from child `j` of node `p` to child
    /// `j + 1`. Between leaves, the last key of the left one becomes the first
    /// key of the right one. Between internal nodes, the separator comes down
    /// as the first key of the right one, with the last child of the left one
    /// under it, and the last key of the left one goes up. Either way the
    /// parent's separator becomes the key that left the left child.
    pub open spec fn pass_right(self, p: int, j: int) -> Model<T> {
        let pn = self.nodes[p];
        let a = pn.children[j] as int;
        let b = pn.children[j + 1] as int;
        let an = self.nodes[a];
        let bn = self.nodes[b];
        let fence = an.keys.last();
        Model {
            nodes: self.nodes.update(
                a,
                NodeView {
                    keys: an.keys.drop_last(),
                    children: if an.is_leaf() {
                        an.children
                    } else {
                        an.children.drop_last()
                    },
                    high_key: Some(fence),
                    ..an
                },
            ).update(
                b,
                NodeView {
                    keys: seq![if an.is_leaf() {
                        fence
                    } else {
                        pn.keys[j]
                    }] + bn.keys,
                    children: if an.is_leaf() {
                        bn.children
                    } else {
                        seq![an.children.last()] + bn.children
                    },
                    low_key: Some(fence),
                    ..bn
                },
            ).update(p, NodeView { keys: pn.keys.update(j, fence), ..pn }),
            ..self
        }
    }
}

/// A key can pass from child `j + 1` of node `p` to child `j`: the left child
/// holds too few keys, the right one has a key to spare.
pub open spec fn can_pass_left<T: Ord>(m: Model<T>, p: int, j: int) -> bool {
    &&& m.mendable(Some(m.nodes[p].children[j] as int), p, j)
    &&& m.nodes[m.nodes[p].children[j] as int].keys.len() < m.min_ord
    &&& m.nodes[m.nodes[p].children[j + 1] as int].keys.len() > m.min_ord
}

/// A key can pass from child `j` of node `p` to child `j + 1`: the right
/// child holds too few keys, the left one has a key to spare.
pub open spec fn can_pass_right<T: Ord>(m: Model<T>, p: int, j: int) -> bool {
    &&& m.mendable(Some(m.nodes[p].children[j + 1] as int), p, j)
    &&& m.nodes[m.nodes[p].children[j + 1] as int].keys.len() < m.min_ord
    &&& m.nodes[m.nodes[p].children[j] as int].keys.len() > m.min_ord
}

/// Where the keys stand that take part in a pass to the left: the keys of the
/// left child sort before the separator, the new separator sorts after it and
/// within the right child.
proof fn lemma_left_pass_order<T: Ord>(m: Model<T>, p: int, j: int)
    requires
        total_order::<T>(),
        can_pass_left(m, p, j),
    ensures
        lt(m.nodes[p].keys[j], m.left_pass_fence(p, j)),
        m.covers(m.nodes[p].children[j + 1] as int, m.left_pass_fence(p, j)),
        !lt(m.nodes[m.nodes[p].children[j + 1] as int].keys[0], m.nodes[p].keys[j]),
        !m.nodes[m.nodes[p].children[j] as int].is_leaf() ==> lt(
            m.nodes[p].keys[j],
            m.nodes[m.nodes[p].children[j + 1] as int].keys[0],
        ),
        m.nodes[m.nodes[p].children[j] as int].is_leaf() == m.nodes[m.nodes[p].children[j
            + 1] as int].is_leaf(),
        m.nodes[m.nodes[p].children[j] as int].is_leaf() == (m.metas[p].level == 1),
{
    let pn = m.nodes[p];
    let a = pn.children[j] as int;
    let b = pn.children[j + 1] as int;
    let slack = Some(a);
    let bn = m.nodes[b];
    let sep = pn.keys[j];
    m.lemma_adjacent(slack, p, j);
    assert(m.node_ok(a, slack));
    assert(m.node_ok(b, slack));
    assert(m.covers(b, bn.keys[0]));
    assert(m.covers(b, bn.keys[1]));
    assert(lt(bn.keys[0], bn.keys[1]));
    if !bn.is_leaf() {
        assert(m.child_ok(b, 0));
        let d = bn.children[0] as int;
        assert(m.node_ok(d, slack));
        assert(lt(sep, bn.keys[0]));
    } else {
        if !lt(sep, bn.keys[1]) {
            if sep != bn.keys[1] {
                assert(lt(bn.keys[1], sep));
            }
            assert(lt(bn.keys[0], sep));
        }
    }
}

/// After a pass to the left the left child is well formed.
proof fn lemma_pass_left_a<T: Ord>(m: Model<T>, p: int, j: int)
    requires
        total_order::<T>(),
        can_pass_left(m, p, j),
    ensures
        m.pass_left(p, j).node_ok(m.nodes[p].children[j] as int, None),
{
    let m2 = m.pass_left(p, j);
    let pn = m.nodes[p];
    let a = pn.children[j] as int;
    let b = pn.children[j + 1] as int;
    let slack = Some(a);
    let an = m.nodes[a];
    let bn = m.nodes[b];
    let an2 = m2.nodes[a];
    let sep = pn.keys[j];
    let fence = m.left_pass_fence(p, j);
    let na = an.keys.len() as int;
    m.lemma_adjacent(slack, p, j);
    lemma_left_pass_order(m, p, j);
    assert(m.node_ok(a, slack));
    assert(m.node_ok(b, slack));
    assert forall|k: int| 0 <= k < an2.keys.len() implies m2.covers(a, #[trigger] an2.keys[k])
        && (k < na ==> lt(an2.keys[k], sep)) by {
        if k < na {
            assert(an2.keys[k] == an.keys[k]);
            assert(m.covers(a, an.keys[k]));
        } else {
            let y = an2.keys[k];
            assert(!lt(y, sep));
            if m.nodes[a].low_key.is_some() {
                let lo = m.nodes[a].low_key.unwrap();
                assert(lt(lo, sep));
                if lt(y, lo) {
                    assert(lt(y, sep));
                }
            }
            if an.is_leaf() {
                assert(lt(bn.keys[0], bn.keys[1]));
            }
        }
    }
    assert forall|x1: int, y1: int| 0 <= x1 < y1 < an2.keys.len() implies lt(
        an2.keys[x1],
        an2.keys[y1],
    ) by {
        if y1 < na {
            assert(an2.keys[x1] == an.keys[x1] && an2.keys[y1] == an.keys[y1]);
        } else {
            let u = an2.keys[x1];
            let v = an2.keys[y1];
            assert(lt(u, sep));
            assert(!lt(v, sep));
            if !lt(u, v) {
                if u != v {
                    assert(lt(v, u));
                }
            }
        }
    }
    assert(apart(m2.nodes[a].low_key, an2.high_key)) by {
        if m.nodes[a].low_key.is_some() {
            assert(lt(m.nodes[a].low_key.unwrap(), sep));
        }
    }
    assert(m2.keys_ok(a));
    assert(m2.link_ok(a));
    if !an.is_leaf() {
        let ca = an.children.len() as int;
        assert forall|t: int| 0 <= t < an2.children.len() implies #[trigger] m2.child_ok(a, t) by {
            if t < ca {
                assert(m.child_ok(a, t));
                assert(an2.children[t] == an.children[t]);
                if t > 0 {
                    assert(an2.keys[t - 1] == an.keys[t - 1]);
                }
            } else {
                assert(m.child_ok(b, 0));
            }
        }
    }
}

/// After a pass to the left the right child is well formed.
proof fn lemma_pass_left_b<T: Ord>(m: Model<T>, p: int, j: int)
    requires
        total_order::<T>(),
        can_pass_left(m, p, j),
    ensures
        m.pass_left(p, j).node_ok(m.nodes[p].children[j + 1] as int, None),
{
    let m2 = m.pass_left(p, j);
    let pn = m.nodes[p];
    let a = pn.children[j] as int;
    let b = pn.children[j + 1] as int;
    let slack = Some(a);
    let an = m.nodes[a];
    let bn = m.nodes[b];
    let bn2 = m2.nodes[b];
    let fence = m.left_pass_fence(p, j);
    m.lemma_adjacent(slack, p, j);
    lemma_left_pass_order(m, p, j);
    assert(m.node_ok(a, slack));
    assert(m.node_ok(b, slack));
    assert forall|k: int| 0 <= k < bn2.keys.len() implies m2.covers(b, #[trigger] bn2.keys[k]) by {
        assert(bn2.keys[k] == bn.keys[k + 1]);
        assert(m.covers(b, bn.keys[k + 1]));
        if an.is_leaf() {
            if k > 0 {
                assert(lt(bn.keys[1], bn.keys[k + 1]));
            } else {
                if lt(fence, fence) {
                    assert(!lt(fence, fence));
                }
            }
        } else {
            assert(lt(bn.keys[0], bn.keys[k + 1]));
        }
    }
    assert forall|x1: int, y1: int| 0 <= x1 < y1 < bn2.keys.len() implies lt(
        bn2.keys[x1],
        bn2.keys[y1],
    ) by {
        assert(bn2.keys[x1] == bn.keys[x1 + 1] && bn2.keys[y1] == bn.keys[y1 + 1]);
    }
    assert(m2.keys_ok(b));
    assert(m2.link_ok(b)) by {
        if bn.right_link.is_some() {
            let r = bn.right_link.unwrap() as int;
            assert(r != b) by {
                m.lemma_place(slack, b);
                let l = m.metas[b].level as int;
                assert(m.chain_ok(l));
                assert(m.chain_at(l, m.place(b)));
            }
        }
    }
    if !an.is_leaf() {
        assert forall|t: int| 0 <= t < bn2.children.len() implies #[trigger] m2.child_ok(b, t) by {
            assert(m.child_ok(b, t + 1));
            assert(bn2.children[t] == bn.children[t + 1]);
            if t > 0 {
                assert(bn2.keys[t - 1] == bn.keys[t]);
            }
            if t < bn2.keys.len() {
                assert(bn2.keys[t] == bn.keys[t + 1]);
            }
        }
    }
}

/// After a pass between children `j` and `j + 1` of node `p` that leaves
/// `fence` between them, the parent is well formed.
proof fn lemma_pass_parent<T: Ord>(
    m: Model<T>,
    slack: Option<int>,
    p: int,
    j: int,
    m2: Model<T>,
    fence: T,
)
    requires
        total_order::<T>(),
        m.mendable(slack, p, j),
        passed(m, p, j, m2, fence),
    ensures
        m2.node_ok(p, None),
{
    let pn = m.nodes[p];
    let a = pn.children[j] as int;
    let b = pn.children[j + 1] as int;
    let pn2 = m2.nodes[p];
    m.lemma_adjacent(slack, p, j);
    assert(m.node_ok(p, slack));
    assert(m.covers(p, pn.keys[j]));
    assert(m.node_ok(b, slack));
    assert(m.node_ok(a, slack));
    assert(m.child_ok(p, j));
    assert(m.child_ok(p, j + 1));
    assert(m2.covers(p, fence)) by {
        if j + 1 < pn.keys.len() {
            assert(m.covers(p, pn.keys[j + 1]));
            assert(lt(fence, pn.keys[j + 1]));
        }
        if j > 0 {
            assert(m.covers(p, pn.keys[j - 1]));
            assert(!lt(fence, pn.keys[j - 1]));
            if m.nodes[p].low_key.is_some() {
                let lo = m.nodes[p].low_key.unwrap();
                if lt(fence, lo) {
                    if lt(pn.keys[j - 1], fence) {
                        assert(lt(pn.keys[j - 1], lo));
                    }
                }
            }
        }
    }
    assert forall|x1: int, y1: int| 0 <= x1 < y1 < pn2.keys.len() implies lt(
        pn2.keys[x1],
        pn2.keys[y1],
    ) by {
        if x1 != j && y1 != j {
            assert(pn2.keys[x1] == pn.keys[x1] && pn2.keys[y1] == pn.keys[y1]);
        } else if x1 == j {
            assert(pn2.keys[y1] == pn.keys[y1]);
            assert(lt(fence, pn.keys[j + 1]));
            if y1 > j + 1 {
                assert(lt(pn.keys[j + 1], pn.keys[y1]));
            }
        } else {
            assert(pn2.keys[x1] == pn.keys[x1]);
            assert(lt(pn.keys[j - 1], fence));
            if x1 < j - 1 {
                assert(lt(pn.keys[x1], pn.keys[j - 1]));
            }
        }
    }
    assert forall|k: int| 0 <= k < pn2.keys.len() implies m2.covers(p, #[trigger] pn2.keys[k]) by {
        if k != j {
            assert(m.covers(p, pn.keys[k]));
        }
    }
    assert(m2.keys_ok(p));
    assert(m2.link_ok(p)) by {
        if pn.right_link.is_some() {
            let r = pn.right_link.unwrap() as int;
            assert(m.metas[r].level != m.metas[b].level);
        }
    }
    assert forall|t: int| 0 <= t < pn2.children.len() implies #[trigger] m2.child_ok(p, t) by {
        assert(m.child_ok(p, t));
        if t != j && t != j + 1 {
            if pn.children[t] == pn.children[j] {
                m.lemma_one_parent(slack, p, t, p, j);
            }
            if pn.children[t] == pn.children[j + 1] {
                m.lemma_one_parent(slack, p, t, p, j + 1);
            }
        }
    }
}

/// In `m2` a key has passed between children `j` and `j + 1` of node `p` of
/// `m`, and `fence` is the separator between them: the left child ends and
/// the right child begins there, the parent holds it in place of the old
/// separator, and nothing else has changed but what the two children hold.
pub open spec fn passed<T: Ord>(m: Model<T>, p: int, j: int, m2: Model<T>, fence: T) -> bool {
    let pn = m.nodes[p];
    let a = pn.children[j] as int;
    let b = pn.children[j + 1] as int;
    &&& m2.nodes.len() == m.nodes.len()
    &&& m2.metas.len() == m.metas.len()
    &&& m2.levels == m.levels
    &&& m2.clock == m.clock
    &&& m2.root == m.root
    &&& m2.min_ord == m.min_ord
    &&& m2.metas == m.metas
    &&& m2.nodes[a].low_key == m.nodes[a].low_key
    &&& m2.nodes[b].low_key == Some(fence)
    &&& forall|i: int|
        0 <= i < m.nodes.len() && i != a && i != b && i != p ==> #[trigger] m2.nodes[i]
            == m.nodes[i]
    &&& m2.nodes[p] == (NodeView { keys: pn.keys.update(j, fence), ..pn })
    &&& m2.nodes[a].high_key == Some(fence)
    &&& m2.nodes[b].high_key == m.nodes[b].high_key
    &&& m2.nodes[a].right_link == m.nodes[a].right_link
    &&& m2.nodes[b].right_link == m.nodes[b].right_link
    &&& lt(pn.keys[j], fence) || lt(fence, pn.keys[j])
    &&& j > 0 ==> lt(pn.keys[j - 1], fence)
    &&& crate::order::above(m.nodes[a].low_key, fence)
    &&& below_next(m, b, fence)
}

/// `fence` sorts before the place where node `b` ends.
pub open spec fn below_next<T: Ord>(m: Model<T>, b: int, fence: T) -> bool {
    crate::order::below(fence, m.nodes[b].high_key)
}

/// After a pass, a node that took no part in it is as good as it was, and
/// every level is the chain it was.
proof fn lemma_pass_rest<T: Ord>(
    m: Model<T>,
    slack: Option<int>,
    p: int,
    j: int,
    m2: Model<T>,
    fence: T,
)
    requires
        total_order::<T>(),
        m.mendable(slack, p, j),
        passed(m, p, j, m2, fence),
    ensures
        forall|l2: int| 0 <= l2 < m2.levels.len() ==> #[trigger] m2.chain_ok(l2),
        forall|x: int|
            0 <= x < m.nodes.len() && x != p && x != m.nodes[p].children[j] && x
                != m.nodes[p].children[j + 1] ==> #[trigger] m2.node_ok(x, None),
{
    let pn = m.nodes[p];
    let a = pn.children[j] as int;
    let b = pn.children[j + 1] as int;
    m.lemma_adjacent(slack, p, j);
    assert(m.node_ok(p, slack));
    assert(m.node_ok(b, slack));
    let l = m.metas[b].level as int;
    assert forall|l2: int| 0 <= l2 < m2.levels.len() implies #[trigger] m2.chain_ok(l2) by {
        assert(m.chain_ok(l2));
        lemma_chain_kept(m, m2, l2);
    }
    assert forall|x: int|
        0 <= x < m.nodes.len() && x != p && x != m.nodes[p].children[j] && x
            != m.nodes[p].children[j + 1] implies #[trigger] m2.node_ok(x, None) by {
        assert(m.node_ok(x, slack));
        if m.metas[x].live {
            assert forall|t: int| 0 <= t < m.nodes[x].children.len() implies same_place(
                m,
                m2,
                #[trigger] m.nodes[x].children[t] as int,
            ) by {
                assert(m.child_ok(x, t));
                if m.nodes[x].children[t] == pn.children[j] {
                    m.lemma_one_parent(slack, x, t, p, j);
                }
                if m.nodes[x].children[t] == pn.children[j + 1] {
                    m.lemma_one_parent(slack, x, t, p, j + 1);
                }
            }
            if m.nodes[x].right_link == Some(pn.children[j + 1]) {
                m.lemma_place(slack, x);
                m.lemma_place(slack, a);
                m.lemma_place(slack, b);
                assert(m.chain_ok(l));
                assert(m.chain_at(l, m.place(x)));
                assert(m.metas[x].level == l);
                assert(m.levels[l][m.place(x) + 1] == b);
            }
        }
        lemma_steady(m, slack, m2, None, x);
    }
}

/// After a pass between leaves the keys of the tree are those they were.
proof fn lemma_pass_keys<T: Ord>(
    m: Model<T>,
    slack: Option<int>,
    p: int,
    j: int,
    m2: Model<T>,
    fence: T,
)
    requires
        total_order::<T>(),
        m.mendable(slack, p, j),
        passed(m, p, j, m2, fence),
        m.metas[p].level == 1 ==> forall|k: T|
            (m2.nodes[m.nodes[p].children[j] as int].keys.contains(k) || m2.nodes[m.nodes[p].children[j
                + 1] as int].keys.contains(k)) <==> (m.nodes[m.nodes[p].children[j] as int].keys.contains(
                k,
            ) || m.nodes[m.nodes[p].children[j + 1] as int].keys.contains(k)),
    ensures
        forall|k: T| m2.keys().contains(k) <==> m.keys().contains(k),
{
    let pn = m.nodes[p];
    let a = pn.children[j] as int;
    let b = pn.children[j + 1] as int;
    m.lemma_adjacent(slack, p, j);
    m.lemma_place(slack, a);
    m.lemma_place(slack, b);
    let c0 = m.levels[0];
    assert(m.chain_ok(0));
    assert forall|k: T| m2.keys().contains(k) <==> m.keys().contains(k) by {
        lemma_chain_keys_contains(m.nodes, c0, k);
        lemma_chain_keys_contains(m2.nodes, c0, k);
        let qa = m.place(a);
        let qb = m.place(b);
        if m2.keys().contains(k) {
            let z = choose|z: int| 0 <= z < c0.len() && (#[trigger] m2.nodes[c0[z]]).keys.contains(k);
            assert(m.chain_at(0, z));
            if c0[z] == a || c0[z] == b {
                if m.nodes[a].keys.contains(k) {
                    assert(m.nodes[c0[qa]].keys.contains(k));
                } else {
                    assert(m.nodes[c0[qb]].keys.contains(k));
                }
            } else {
                assert(m.nodes[c0[z]].keys.contains(k));
            }
        }
        if m.keys().contains(k) {
            let z = choose|z: int| 0 <= z < c0.len() && (#[trigger] m.nodes[c0[z]]).keys.contains(k);
            assert(m.chain_at(0, z));
            if c0[z] == a || c0[z] == b {
                if m2.nodes[a].keys.contains(k) {
                    assert(m2.nodes[c0[qa]].keys.contains(k));
                } else {
                    assert(m2.nodes[c0[qb]].keys.contains(k));
                }
            } else {
                assert(m2.nodes[c0[z]].keys.contains(k));
            }
        }
    }
}

/// Passing a key from a child with a key to spare to its left sibling with
/// too few makes the tree well formed again and keeps its keys.
pub proof fn lemma_pass_left<T: Ord>(m: Model<T>, p: int, j: int)
    requires
        total_order::<T>(),
        can_pass_left(m, p, j),
    ensures
        m.pass_left(p, j).wf(None),
        forall|k: T| m.pass_left(p, j).keys().contains(k) <==> m.keys().contains(k),
{
    let m2 = m.pass_left(p, j);
    let pn = m.nodes[p];
    let a = pn.children[j] as int;
    let b = pn.children[j + 1] as int;
    let an = m.nodes[a];
    let bn = m.nodes[b];
    let slack = Some(a);
    let fence = m.left_pass_fence(p, j);
    m.lemma_adjacent(slack, p, j);
    lemma_left_pass_order(m, p, j);
    assert(m.node_ok(p, slack));
    if j > 0 {
        assert(lt(pn.keys[j - 1], pn.keys[j]));
    }
    assert(m.node_ok(a, slack));
    assert(crate::order::above(m.nodes[a].low_key, fence)) by {
        if m.nodes[a].low_key.is_some() {
            let lo = m.nodes[a].low_key.unwrap();
            assert(lt(lo, pn.keys[j]));
            if lt(fence, lo) {
                assert(lt(fence, pn.keys[j]));
            }
        }
    }
    assert(passed(m, p, j, m2, fence));
    lemma_pass_left_a(m, p, j);
    lemma_pass_left_b(m, p, j);
    lemma_pass_parent(m, slack, p, j, m2, fence);
    lemma_pass_rest(m, slack, p, j, m2, fence);
    if m.metas[p].level == 1 {
        let an2 = m2.nodes[a];
        let bn2 = m2.nodes[b];
        assert forall|k: T|
            (an2.keys.contains(k) || bn2.keys.contains(k)) <==> (an.keys.contains(k)
                || bn.keys.contains(k)) by {
            if an2.keys.contains(k) {
                let i = choose|i: int| 0 <= i < an2.keys.len() && an2.keys[i] == k;
                if i < an.keys.len() {
                    assert(an.keys[i] == k);
                } else {
                    assert(bn.keys[0] == k);
                }
            }
            if bn2.keys.contains(k) {
                let i = choose|i: int| 0 <= i < bn2.keys.len() && bn2.keys[i] == k;
                assert(bn.keys[i + 1] == k);
            }
            if an.keys.contains(k) {
                let i = choose|i: int| 0 <= i < an.keys.len() && an.keys[i] == k;
                assert(an2.keys[i] == k);
            }
            if bn.keys.contains(k) {
                let i = choose|i: int| 0 <= i < bn.keys.len() && bn.keys[i] == k;
                if i == 0 {
                    assert(an2.keys[an.keys.len() as int] == k);
                } else {
                    assert(bn2.keys[i - 1] == k);
                }
            }
        }
    }
    lemma_pass_keys(m, slack, p, j, m2, fence);
}

/// Where the keys stand that take part in a pass to the right: the new
/// separator is the last key of the left child, it sorts before the old
/// separator, and the keys of the right child do not sort before that.
proof fn lemma_right_pass_order<T: Ord>(m: Model<T>, p: int, j: int)
    requires
        total_order::<T>(),
        can_pass_right(m, p, j),
    ensures
        lt(m.nodes[m.nodes[p].children[j] as int].keys.last(), m.nodes[p].keys[j]),
        m.covers(
            m.nodes[p].children[j] as int,
            m.nodes[m.nodes[p].children[j] as int].keys.last(),
        ),
        lt(
            m.nodes[m.nodes[p].children[j] as int].keys[0],
            m.nodes[m.nodes[p].children[j] as int].keys.last(),
        ),
        apart(Some(m.nodes[p].keys[j]), m.nodes[m.nodes[p].children[j + 1] as int].high_key),
        m.nodes[m.nodes[p].children[j + 1] as int].keys.len() > 0 ==> !lt(
            m.nodes[m.nodes[p].children[j + 1] as int].keys[0],
            m.nodes[p].keys[j],
        ),
        m.nodes[m.nodes[p].children[j + 1] as int].keys.len() > 0 && !m.nodes[m.nodes[p].children[j] as int].is_leaf()
            ==> lt(m.nodes[p].keys[j], m.nodes[m.nodes[p].children[j + 1] as int].keys[0]),
        m.nodes[m.nodes[p].children[j] as int].is_leaf() == m.nodes[m.nodes[p].children[j
            + 1] as int].is_leaf(),
        m.nodes[m.nodes[p].children[j] as int].is_leaf() == (m.metas[p].level == 1),
{
    let pn = m.nodes[p];
    let a = pn.children[j] as int;
    let b = pn.children[j + 1] as int;
    let slack = Some(b);
    let an = m.nodes[a];
    let bn = m.nodes[b];
    let sep = pn.keys[j];
    m.lemma_adjacent(slack, p, j);
    assert(m.node_ok(a, slack));
    assert(m.node_ok(b, slack));
    assert(m.covers(a, an.keys[an.keys.len() - 1]));
    assert(lt(an.keys[0], an.keys[an.keys.len() - 1]));
    if bn.keys.len() > 0 {
        assert(m.covers(b, bn.keys[0]));
        if !bn.is_leaf() {
            assert(m.child_ok(b, 0));
            let d = bn.children[0] as int;
            assert(m.node_ok(d, slack));
        }
    }
}

/// After a pass to the right the left child is well formed.
proof fn lemma_pass_right_a<T: Ord>(m: Model<T>, p: int, j: int)
    requires
        total_order::<T>(),
        can_pass_right(m, p, j),
    ensures
        m.pass_right(p, j).node_ok(m.nodes[p].children[j] as int, None),
{
    let m2 = m.pass_right(p, j);
    let pn = m.nodes[p];
    let a = pn.children[j] as int;
    let b = pn.children[j + 1] as int;
    let slack = Some(b);
    let an = m.nodes[a];
    let an2 = m2.nodes[a];
    let fence = an.keys.last();
    m.lemma_adjacent(slack, p, j);
    lemma_right_pass_order(m, p, j);
    assert(m.node_ok(a, slack));
    assert(m.node_ok(b, slack));
    assert forall|k: int| 0 <= k < an2.keys.len() implies m2.covers(a, #[trigger] an2.keys[k]) by {
        assert(an2.keys[k] == an.keys[k]);
        assert(m.covers(a, an.keys[k]));
        assert(lt(an.keys[k], an.keys[an.keys.len() - 1]));
    }
    assert forall|x1: int, y1: int| 0 <= x1 < y1 < an2.keys.len() implies lt(
        an2.keys[x1],
        an2.keys[y1],
    ) by {
        assert(an2.keys[x1] == an.keys[x1] && an2.keys[y1] == an.keys[y1]);
    }
    assert(apart(m2.nodes[a].low_key, an2.high_key)) by {
        if m.nodes[a].low_key.is_some() {
            let lo = m.nodes[a].low_key.unwrap();
            assert(m.covers(a, an.keys[0]));
            if !lt(lo, fence) {
                if lo != fence {
                    assert(lt(fence, lo));
                }
                assert(lt(an.keys[0], lo));
            }
        }
    }
    assert(m2.keys_ok(a));
    assert(m2.link_ok(a));
    if !an.is_leaf() {
        assert forall|t: int| 0 <= t < an2.children.len() implies #[trigger] m2.child_ok(a, t) by {
            assert(m.child_ok(a, t));
            assert(an2.children[t] == an.children[t]);
            if t > 0 {
                assert(an2.keys[t - 1] == an.keys[t - 1]);
            }
            if t < an2.keys.len() {
                assert(an2.keys[t] == an.keys[t]);
            }
        }
    }
}

/// After a pass to the right the right child is well formed.
proof fn lemma_pass_right_b<T: Ord>(m: Model<T>, p: int, j: int)
    requires
        total_order::<T>(),
        can_pass_right(m, p, j),
    ensures
        m.pass_right(p, j).node_ok(m.nodes[p].children[j + 1] as int, None),
{
    let m2 = m.pass_right(p, j);
    let pn = m.nodes[p];
    let a = pn.children[j] as int;
    let b = pn.children[j + 1] as int;
    let slack = Some(b);
    let an = m.nodes[a];
    let bn = m.nodes[b];
    let bn2 = m2.nodes[b];
    let sep = pn.keys[j];
    let fence = an.keys.last();
    m.lemma_adjacent(slack, p, j);
    lemma_right_pass_order(m, p, j);
    assert(m.node_ok(a, slack));
    assert(m.node_ok(b, slack));
    assert(!lt(fence, fence)) by {
        if lt(fence, fence) {
            assert(!lt(fence, fence));
        }
    }
    assert forall|k: int| 0 <= k < bn2.keys.len() implies m2.covers(b, #[trigger] bn2.keys[k]) by {
        if k > 0 {
            assert(bn2.keys[k] == bn.keys[k - 1]);
            assert(m.covers(b, bn.keys[k - 1]));
            if lt(bn.keys[k - 1], fence) {
                assert(lt(bn.keys[k - 1], sep));
            }
        } else {
            if bn.high_key.is_some() {
                assert(lt(sep, bn.high_key.unwrap()));
            }
        }
    }
    assert forall|x1: int, y1: int| 0 <= x1 < y1 < bn2.keys.len() implies lt(
        bn2.keys[x1],
        bn2.keys[y1],
    ) by {
        assert(bn2.keys[y1] == bn.keys[y1 - 1]);
        if x1 > 0 {
            assert(bn2.keys[x1] == bn.keys[x1 - 1]);
        } else {
            let v = bn.keys[y1 - 1];
            assert(m.covers(b, v));
            assert(!lt(v, sep));
            if y1 - 1 > 0 {
                assert(lt(bn.keys[0], v));
            }
            if an.is_leaf() {
                if !lt(fence, v) {
                    if fence != v {
                        assert(lt(v, fence));
                    }
                    assert(lt(v, sep));
                }
            } else {
                assert(lt(sep, bn.keys[0]));
            }
        }
    }
    assert(apart(m2.nodes[b].low_key, bn2.high_key)) by {
        if bn.high_key.is_some() {
            assert(lt(sep, bn.high_key.unwrap()));
        }
    }
    assert(m2.keys_ok(b));
    assert(m2.link_ok(b)) by {
        if bn.right_link.is_some() {
            let r = bn.right_link.unwrap() as int;
            assert(r != b) by {
                m.lemma_place(slack, b);
                let l = m.metas[b].level as int;
                assert(m.chain_ok(l));
                assert(m.chain_at(l, m.place(b)));
            }
        }
    }
    if !an.is_leaf() {
        assert forall|t: int| 0 <= t < bn2.children.len() implies #[trigger] m2.child_ok(b, t) by {
            if t == 0 {
                assert(m.child_ok(a, an.keys.len() as int));
                assert(bn2.children[0] == an.children[an.keys.len() as int]);
            } else {
                assert(m.child_ok(b, t - 1));
                assert(bn2.children[t] == bn.children[t - 1]);
                if t - 1 > 0 {
                    assert(bn2.keys[t - 1] == bn.keys[t - 2]);
                }
                if t < bn2.keys.len() {
                    assert(bn2.keys[t] == bn.keys[t - 1]);
                }
            }
        }
    }
}

/// Passing a key from a child with a key to spare to its right sibling with
/// too few makes the tree well formed again and keeps its keys.
pub proof fn lemma_pass_right<T: Ord>(m: Model<T>, p: int, j: int)
    requires
        total_order::<T>(),
        can_pass_right(m, p, j),
    ensures
        m.pass_right(p, j).wf(None),
        forall|k: T| m.pass_right(p, j).keys().contains(k) <==> m.keys().contains(k),
{
    let m2 = m.pass_right(p, j);
    let pn = m.nodes[p];
    let a = pn.children[j] as int;
    let b = pn.children[j + 1] as int;
    let an = m.nodes[a];
    let bn = m.nodes[b];
    let slack = Some(b);
    let fence = an.keys.last();
    m.lemma_adjacent(slack, p, j);
    lemma_right_pass_order(m, p, j);
    assert(m.node_ok(p, slack));
    assert(m.node_ok(a, slack));
    assert(m.node_ok(b, slack));
    assert(m.covers(a, an.keys[0]));
    assert(crate::order::above(m.nodes[a].low_key, fence)) by {
        if m.nodes[a].low_key.is_some() {
            let lo = m.nodes[a].low_key.unwrap();
            if lt(fence, lo) {
                assert(lt(an.keys[0], lo));
            }
        }
    }
    if j > 0 {
        let lo = pn.keys[j - 1];
        if !lt(lo, fence) {
            if lo != fence {
                assert(lt(fence, lo));
            }
            assert(lt(an.keys[0], lo));
        }
    }
    assert(below_next(m, b, fence)) by {
        if bn.high_key.is_some() {
            assert(lt(pn.keys[j], bn.high_key.unwrap()));
        }
    }
    assert(passed(m, p, j, m2, fence));
    lemma_pass_right_a(m, p, j);
    lemma_pass_right_b(m, p, j);
    lemma_pass_parent(m, slack, p, j, m2, fence);
    lemma_pass_rest(m, slack, p, j, m2, fence);
    if m.metas[p].level == 1 {
        let an2 = m2.nodes[a];
        let bn2 = m2.nodes[b];
        assert forall|k: T|
            (an2.keys.contains(k) || bn2.keys.contains(k)) <==> (an.keys.contains(k)
                || bn.keys.contains(k)) by {
            if an2.keys.contains(k) {
                let i = choose|i: int| 0 <= i < an2.keys.len() && an2.keys[i] == k;
                assert(an.keys[i] == k);
            }
            if bn2.keys.contains(k) {
                let i = choose|i: int| 0 <= i < bn2.keys.len() && bn2.keys[i] == k;
                if i == 0 {
                    assert(an.keys[an.keys.len() - 1] == k);
                } else {
                    assert(bn.keys[i - 1] == k);
                }
            }
            if an.keys.contains(k) {
                let i = choose|i: int| 0 <= i < an.keys.len() && an.keys[i] == k;
                if i < an.keys.len() - 1 {
                    assert(an2.keys[i] == k);
                } else {
                    assert(bn2.keys[0] == k);
                }
            }
            if bn.keys.contains(k) {
                let i = choose|i: int| 0 <= i < bn.keys.len() && bn.keys[i] == k;
                assert(bn2.keys[i + 1] == k);
            }
        }
    }
    lemma_pass_keys(m, slack, p, j, m2, fence);
}

} // verus!
