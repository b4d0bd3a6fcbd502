//! What an insertion and a deletion make of the tree, node by node: the
//! steps of `steps`, `merge` and `rotate` put together along the path from
//! the root to the leaf that covers the key.

use crate::keys::slot;
use crate::model::{lemma_root_covers, lemma_route, lemma_wf_loosen, lemma_wf_tighten, Model};
use crate::merge::{can_merge, lemma_collapse_root, lemma_merge};
use crate::order::total_order;
use crate::rotate::{lemma_pass_left, lemma_pass_right};
use crate::steps::{lemma_put_key, lemma_split_root, lemma_take_key};
use vstd::prelude::*;

verus! {

impl<T: Ord> Model<T> {
    /// The model after `key` has been inserted below node `at`: put into the
    /// leaf that covers it, unless it is there, and every node on the way
    /// back up to `at` that was left with more than twice the minimum order
    /// of keys split, but `at` itself.
    pub open spec fn planted(self, at: int, key: T) -> Model<T>
        decreases self.metas[at].level,
    {
        let n = self.nodes[at];
        if self.metas[at].level == 0 {
            if n.keys.contains(key) {
                self
            } else {
                self.put_key(at, key)
            }
        } else {
            let j = slot(n.keys, key);
            let c = n.children[j] as int;
            if self.metas[c].level < self.metas[at].level {
                let below = self.planted(c, key);
                if below.nodes[c].keys.len() > 2 * self.min_ord {
                    below.split_child(at, j)
                } else {
                    below
                }
            } else {
                self
            }
        }
    }

    /// The model after `key` has been inserted.
    pub open spec fn inserted(self, key: T) -> Model<T> {
        let below = self.planted(self.root, key);
        if below.nodes[self.root].keys.len() > 2 * self.min_ord {
            below.split_root()
        } else {
            below
        }
    }

    /// The model after child `j` of node `p`, which holds too few keys, has
    /// been mended with its right sibling under `p`, or with its left sibling
    /// if it is the last child: a sibling with more than the minimum order of
    /// keys passes one over, else the two are merged.
    pub open spec fn mended(self, p: int, j: int) -> Model<T> {
        let pn = self.nodes[p];
        if j + 1 < pn.children.len() {
            if self.nodes[pn.children[j + 1] as int].keys.len() > self.min_ord {
                self.pass_left(p, j)
            } else {
                self.merge_children(p, j)
            }
        } else {
            if self.nodes[pn.children[j - 1] as int].keys.len() > self.min_ord {
                self.pass_right(p, j - 1)
            } else {
                self.merge_children(p, j - 1)
            }
        }
    }

    /// The model after `key` has been deleted below node `at`: taken from the
    /// leaf that covers it, if it is there, and every node on the way back up
    /// to `at` that was left with fewer than the minimum order of keys
    /// mended, but `at` itself.
    pub open spec fn erased(self, at: int, key: T) -> Model<T>
        decreases self.metas[at].level,
    {
        let n = self.nodes[at];
        if self.metas[at].level == 0 {
            if n.keys.contains(key) {
                self.take_key(at, key)
            } else {
                self
            }
        } else {
            let j = slot(n.keys, key);
            let c = n.children[j] as int;
            if self.metas[c].level < self.metas[at].level {
                let below = self.erased(c, key);
                if below.nodes[c].keys.len() < self.min_ord {
                    below.mended(at, j)
                } else {
                    below
                }
            } else {
                self
            }
        }
    }

    /// The model after `key` has been deleted: when the root is an internal
    /// node that is left without a key, its only child becomes the root.
    pub open spec fn deleted(self, key: T) -> Model<T> {
        let below = self.erased(self.root, key);
        if below.metas[self.root].level > 0 && below.nodes[self.root].keys.len() == 0 {
            below.collapse_root()
        } else {
            below
        }
    }
}

/// From `m0` to `m1` no node changed its level or was unmade, and the nodes
/// above level `level` are what they were.
pub open spec fn above_kept<T: Ord>(m0: Model<T>, m1: Model<T>, level: nat) -> bool {
    &&& m1.nodes.len() >= m0.nodes.len()
    &&& m1.root == m0.root
    &&& m1.min_ord == m0.min_ord
    &&& m1.levels.len() == m0.levels.len()
    &&& forall|i: int|
        0 <= i < m0.nodes.len() ==> (#[trigger] m1.metas[i]).level == m0.metas[i].level
    &&& forall|i: int|
        0 <= i < m0.nodes.len() && m0.metas[i].level > level ==> #[trigger] m1.nodes[i]
            == m0.nodes[i] && m1.metas[i] == m0.metas[i]
}

/// Mending a child keeps the tree well formed, but that the parent may now
/// hold one key too few, keeps the keys of the tree, and touches the parent
/// and two of its children only.
pub proof fn lemma_mended<T: Ord>(m: Model<T>, p: int, j: int)
    requires
        total_order::<T>(),
        m.live(p),
        m.metas[p].level > 0,
        0 <= j < m.nodes[p].children.len(),
        m.wf(Some(m.nodes[p].children[j] as int)),
        m.nodes[m.nodes[p].children[j] as int].keys.len() + 1 == m.min_ord,
    ensures
        m.mended(p, j).wf(Some(p)),
        m.mended(p, j).nodes[p].keys.len() <= m.nodes[p].keys.len(),
        forall|k: T| m.mended(p, j).keys().contains(k) <==> m.keys().contains(k),
        above_kept(m, m.mended(p, j), m.metas[p].level),
        m.mended(p, j).nodes.len() == m.nodes.len(),
        m.mended(p, j).metas[p] == m.metas[p],
{
    let c = m.nodes[p].children[j] as int;
    let slack = Some(c);
    let pn = m.nodes[p];
    assert(m.node_ok(p, slack));
    assert(m.child_ok(p, j));
    lemma_root_covers(m, slack, arbitrary());
    if j + 1 < pn.children.len() {
        m.lemma_adjacent(slack, p, j);
        let b = pn.children[j + 1] as int;
        assert(m.node_ok(b, slack));
        if m.nodes[b].keys.len() > m.min_ord {
            lemma_pass_left(m, p, j);
            lemma_wf_loosen(m.pass_left(p, j), Some(p));
        } else {
            assert(can_merge(m, slack, p, j));
            lemma_merge(m, slack, p, j);
        }
    } else {
        m.lemma_adjacent(slack, p, j - 1);
        let a = pn.children[j - 1] as int;
        assert(m.node_ok(a, slack));
        if m.nodes[a].keys.len() > m.min_ord {
            lemma_pass_right(m, p, j - 1);
            lemma_wf_loosen(m.pass_right(p, j - 1), Some(p));
        } else {
            assert(can_merge(m, slack, p, j - 1));
            lemma_merge(m, slack, p, j - 1);
        }
    }
}

/// Mending a child leaves a node two or more levels below the parent as it
/// was.
pub proof fn lemma_mended_far<T: Ord>(m: Model<T>, p: int, j: int, i: int)
    requires
        total_order::<T>(),
        m.live(p),
        m.metas[p].level > 0,
        0 <= j < m.nodes[p].children.len(),
        m.wf(Some(m.nodes[p].children[j] as int)),
        m.nodes[m.nodes[p].children[j] as int].keys.len() + 1 == m.min_ord,
        0 <= i < m.nodes.len(),
        m.metas[i].level + 1 < m.metas[p].level,
    ensures
        m.mended(p, j).nodes[i] == m.nodes[i],
        m.mended(p, j).metas[i] == m.metas[i],
{
    let c = m.nodes[p].children[j] as int;
    let slack = Some(c);
    let pn = m.nodes[p];
    assert(m.node_ok(p, slack));
    assert(m.child_ok(p, j));
    if j + 1 < pn.children.len() {
        m.lemma_adjacent(slack, p, j);
    } else {
        m.lemma_adjacent(slack, p, j - 1);
    }
}

/// Deleting a key below a node that covers it keeps the tree well formed,
/// but that the node may now hold one key too few, takes the key from the
/// keys of the tree, and leaves the nodes above as they were.
pub proof fn lemma_erased<T: Ord>(m: Model<T>, at: int, key: T)
    requires
        total_order::<T>(),
        m.wf(None),
        m.live(at),
        m.covers(at, key),
    ensures
        m.erased(at, key).wf(Some(at)),
        m.erased(at, key).nodes[at].keys.len() <= m.nodes[at].keys.len(),
        forall|k: T| m.erased(at, key).keys().contains(k) <==> (m.keys().contains(k) && k != key),
        !m.keys().contains(key) ==> m.erased(at, key) == m,
        above_kept(m, m.erased(at, key), m.metas[at].level),
        m.erased(at, key).nodes.len() == m.nodes.len(),
        m.erased(at, key).metas[at] == m.metas[at],
    decreases m.metas[at].level,
{
    assert(m.node_ok(at, None));
    let n = m.nodes[at];
    if m.metas[at].level == 0 {
        crate::model::lemma_leaf_decides(m, None, at, key);
        if n.keys.contains(key) {
            lemma_take_key(m, at, key);
            crate::keys::lemma_rank(n.keys, key);
        } else {
            lemma_wf_loosen(m, Some(at));
        }
    } else {
        lemma_route(m, None, at, key);
        let j = slot(n.keys, key);
        let c = n.children[j] as int;
        assert(m.child_ok(at, j));
        assert(m.node_ok(c, None));
        lemma_erased(m, c, key);
        let below = m.erased(c, key);
        lemma_root_covers(m, None, key);
        lemma_root_covers(below, Some(c), key);
        assert(below.nodes[at] == n);
        assert(below.metas[at] == m.metas[at]);
        assert(below.node_ok(c, Some(c)));
        if below.nodes[c].keys.len() < m.min_ord {
            lemma_mended(below, at, j);
            let m2 = below.mended(at, j);
            assert forall|i: int| 0 <= i < m.nodes.len() implies (#[trigger] m2.metas[i]).level
                == m.metas[i].level by {
                assert(below.metas[i].level == m.metas[i].level);
            }
            assert forall|i: int|
                0 <= i < m.nodes.len() && m.metas[i].level > m.metas[at].level implies #[trigger] m2.nodes[i]
                == m.nodes[i] && m2.metas[i] == m.metas[i] by {
                assert(below.nodes[i] == m.nodes[i]);
                assert(below.metas[i] == m.metas[i]);
            }
        } else {
            lemma_wf_tighten(below, c);
            lemma_wf_loosen(below, Some(at));
        }
    }
}

/// Split of a full leaf: when the tree is a single leaf that holds twice the
/// minimum order of keys, inserting one more key splits it once. The leaf
/// keeps the lower `min_ord + 1` keys, a new leaf to its right, to which it
/// is linked, has the upper `min_ord`, and a new root has the two as its
/// children, with the first key of the right one between them.
pub proof fn law_full_leaf_splits<T: Ord>(m: Model<T>, key: T)
    requires
        total_order::<T>(),
        m.wf(None),
        m.levels.len() == 1,
        m.nodes[m.root].keys.len() == 2 * m.min_ord,
        !m.nodes[m.root].keys.contains(key),
        m.nodes.len() + 1 < usize::MAX,
    ensures
        m.inserted(key).wf(None),
        m.inserted(key).nodes.len() == m.nodes.len() + 2,
        m.inserted(key).root == m.nodes.len() + 1,
        m.inserted(key).levels.len() == 2,
        m.inserted(key).nodes[m.root].keys.len() == m.min_ord + 1,
        m.inserted(key).nodes[m.nodes.len() as int].keys.len() == m.min_ord,
        m.inserted(key).nodes[m.root].keys + m.inserted(key).nodes[m.nodes.len() as int].keys
            == crate::keys::with_key(m.nodes[m.root].keys, key),
        m.inserted(key).nodes[m.root].right_link == Some(m.nodes.len() as usize),
        m.inserted(key).nodes[m.nodes.len() as int].right_link.is_none(),
        m.inserted(key).nodes[m.inserted(key).root].root,
        !m.inserted(key).nodes[m.root].root,
        m.inserted(key).nodes[m.inserted(key).root].children == seq![
            m.root as usize,
            m.nodes.len() as usize,
        ],
        m.inserted(key).nodes[m.inserted(key).root].keys == seq![
            m.inserted(key).nodes[m.nodes.len() as int].keys[0],
        ],
{
    let r = m.root;
    lemma_root_covers(m, None, key);
    assert(m.node_ok(r, None));
    lemma_put_key(m, r, key);
    let m1 = m.put_key(r, key);
    assert(m.planted(r, key) == m1);
    crate::keys::lemma_rank(m.nodes[r].keys, key);
    assert(m1.nodes[r].keys.len() == 2 * m.min_ord + 1);
    lemma_split_root(m1);
    let m2 = m1.split_root();
    assert(m.inserted(key) == m2);
    assert(m1.node_ok(r, Some(r)));
    let ks = m1.nodes[r].keys;
    let mo = m.min_ord as int;
    assert(m2.nodes[r].keys =~= ks.take(mo + 1));
    assert(m2.nodes[m.nodes.len() as int].keys =~= ks.skip(mo + 1));
    assert(ks.take(mo + 1) + ks.skip(mo + 1) =~= ks);
    assert(m2.nodes[m.nodes.len() as int].keys[0] == ks[mo + 1]);
}

/// A leaf with room takes a key without a split: when the tree is a single
/// leaf that holds fewer than twice the minimum order of keys, inserting a
/// new key makes no node.
pub proof fn law_leaf_with_room<T: Ord>(m: Model<T>, key: T)
    requires
        total_order::<T>(),
        m.wf(None),
        m.levels.len() == 1,
        m.nodes[m.root].keys.len() < 2 * m.min_ord,
        !m.nodes[m.root].keys.contains(key),
    ensures
        m.inserted(key) == m.put_key(m.root, key),
        m.inserted(key).nodes.len() == m.nodes.len(),
        m.inserted(key).nodes[m.root].keys == crate::keys::with_key(m.nodes[m.root].keys, key),
{
    let r = m.root;
    lemma_root_covers(m, None, key);
    assert(m.node_ok(r, None));
    crate::keys::lemma_rank(m.nodes[r].keys, key);
}

/// What a merge of the adjacent leaves `a` and `b` leaves behind when `key`
/// was deleted from `a`: `a` is live and holds its other keys and those of
/// `b`, `b` is retired and its out link names `a`.
pub open spec fn merged_into<T: Ord>(m: Model<T>, m2: Model<T>, a: int, b: int, key: T) -> bool {
    &&& m2.live(a)
    &&& m2.metas[a].level == 0
    &&& m2.nodes[a].keys == crate::keys::without_key(m.nodes[a].keys, key) + m.nodes[b].keys
    &&& m2.nodes[a].out_link.is_none()
    &&& m2.nodes[a].right_link == m.nodes[b].right_link
    &&& 0 <= b < m2.nodes.len()
    &&& !m2.metas[b].live
    &&& m2.metas[b].level == 0
    &&& m2.nodes[b].out_link == Some(a as usize)
}

/// The two leaves `a` and `b` are children `j` and `j + 1` of node `p`, each
/// holds just the minimum order of keys, and `key` is in `a`.
pub open spec fn lean_pair<T: Ord>(m: Model<T>, p: int, j: int, key: T) -> bool {
    &&& m.wf(None)
    &&& m.live(p)
    &&& m.metas[p].level == 1
    &&& 0 <= j < m.nodes[p].keys.len()
    &&& m.nodes[m.nodes[p].children[j] as int].keys.len() == m.min_ord
    &&& m.nodes[m.nodes[p].children[j + 1] as int].keys.len() == m.min_ord
    &&& m.nodes[m.nodes[p].children[j] as int].keys.contains(key)
}

/// The merge of a lean pair of leaves is what deleting below any node on the
/// path to them leaves of the two.
proof fn lemma_lean_pair<T: Ord>(m: Model<T>, at: int, p: int, j: int, key: T)
    requires
        total_order::<T>(),
        lean_pair(m, p, j, key),
        m.live(at),
        m.covers(at, key),
        m.metas[at].level >= 1,
    ensures
        merged_into(
            m,
            m.erased(at, key),
            m.nodes[p].children[j] as int,
            m.nodes[p].children[j + 1] as int,
            key,
        ),
    decreases m.metas[at].level,
{
    let pn = m.nodes[p];
    assert(m.node_ok(p, None));
    m.lemma_adjacent(None, p, j);
    let a = pn.children[j] as int;
    let b = pn.children[j + 1] as int;
    assert(m.node_ok(a, None));
    assert(m.node_ok(b, None));
    assert(m.node_ok(at, None));
    let i = choose|i: int| 0 <= i < m.nodes[a].keys.len() && m.nodes[a].keys[i] == key;
    assert(m.covers(a, m.nodes[a].keys[i]));
    lemma_route(m, None, at, key);
    let js = slot(m.nodes[at].keys, key);
    let c = m.nodes[at].children[js] as int;
    assert(m.child_ok(at, js));
    assert(m.node_ok(c, None));
    lemma_erased(m, c, key);
    let below = m.erased(c, key);
    if m.metas[at].level == 1 {
        // `at` is the parent of the pair, and the key is routed to `a`
        m.lemma_one_cover(None, c, a, key);
        m.lemma_one_parent(None, at, js, p, j);
        crate::model::lemma_leaf_decides(m, None, a, key);
        crate::keys::lemma_rank(m.nodes[a].keys, key);
        assert(below == m.take_key(a, key));
        assert(below.nodes[a].keys.len() == m.min_ord - 1);
        assert(below.nodes[p] == pn);
        assert(below.nodes[b] == m.nodes[b]);
        assert(below.metas == m.metas);
        let m2 = below.merge_children(p, j);
        assert(below.mended(p, j) == m2);
        assert(m.erased(at, key) == m2);
        assert(m2.nodes[a].keys =~= crate::keys::without_key(m.nodes[a].keys, key) + m.nodes[b].keys);
        assert(m2.metas[a] == m.metas[a]);
        assert(m2.nodes[a].out_link.is_none());
        assert(m2.nodes[a].right_link == m.nodes[b].right_link);
        assert(!m2.metas[b].live);
        assert(m2.metas[b].level == 0);
        assert(m2.nodes[b].out_link == Some(pn.children[j]));
        assert(merged_into(m, m2, a, b, key));
    } else {
        lemma_lean_pair(m, c, p, j, key);
        assert(merged_into(m, below, a, b, key));
        lemma_root_covers(m, None, key);
        lemma_root_covers(below, Some(c), key);
        assert(below.nodes[at] == m.nodes[at]);
        assert(below.metas[at] == m.metas[at]);
        assert(below.node_ok(c, Some(c)));
        if below.nodes[c].keys.len() < m.min_ord {
            lemma_mended_far(below, at, js, a);
            lemma_mended_far(below, at, js, b);
            let m2 = below.mended(at, js);
            assert(m.erased(at, key) == m2);
            lemma_mended(below, at, js);
            assert(merged_into(m, m2, a, b, key));
        } else {
            assert(m.erased(at, key) == below);
        }
    }
}

/// Merge of two lean leaves: when two adjacent leaves under one parent hold
/// just the minimum order of keys each, deleting a key from the left one
/// merges the right one into it. The left one is left with `2 * min_ord - 1`
/// keys, its own but the deleted one and then those of the right one; the
/// right one is retired, with its out link naming the left one.
pub proof fn law_lean_leaves_merge<T: Ord>(m: Model<T>, p: int, j: int, key: T)
    requires
        total_order::<T>(),
        lean_pair(m, p, j, key),
    ensures
        merged_into(
            m,
            m.deleted(key),
            m.nodes[p].children[j] as int,
            m.nodes[p].children[j + 1] as int,
            key,
        ),
        m.deleted(key).nodes[m.nodes[p].children[j] as int].keys.len() == 2 * m.min_ord - 1,
        m.deleted(key).wf(None),
{
    let a = m.nodes[p].children[j] as int;
    let b = m.nodes[p].children[j + 1] as int;
    let r = m.root;
    lemma_root_covers(m, None, key);
    m.lemma_adjacent(None, p, j);
    assert(m.node_ok(p, None));
    assert(m.node_ok(a, None));
    assert(m.node_ok(r, None));
    lemma_lean_pair(m, r, p, j, key);
    lemma_erased(m, r, key);
    let below = m.erased(r, key);
    assert(below.node_ok(r, Some(r)));
    crate::keys::lemma_without_key(m.nodes[a].keys, key);
    if below.metas[r].level > 0 && below.nodes[r].keys.len() == 0 {
        lemma_collapse_root(below);
        lemma_root_covers(below, Some(r), key);
        assert(below.child_ok(r, 0));
    } else {
        lemma_wf_tighten(below, r);
    }
}

} // verus!
