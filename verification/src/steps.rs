//! The single steps by which the tree changes, as functions on the model, and
//! the proof that each of them keeps the tree well formed and changes its keys
//! as it should.

use crate::keys::{ascending, lemma_rank, rank};
use crate::model::{lemma_chain_keys_contains, Meta, Model};
use crate::node::NodeView;
use crate::order::{apart, lt, total_order};
use vstd::prelude::*;

verus! {

/// What a chain holds it still holds after one more handle has been put in.
pub proof fn lemma_insert_keeps(s: Seq<int>, at: int, v: int, x: int)
    requires
        0 <= at <= s.len(),
        s.contains(x),
    ensures
        s.insert(at, v).contains(x),
{
    let i = choose|i: int| 0 <= i < s.len() && s[i] == x;
    let i2 = if i < at { i } else { i + 1 };
    assert(s.insert(at, v)[i2] == x);
}

/// What a chain of distinct handles holds it still holds after another handle
/// has been taken out.
pub proof fn lemma_remove_keeps(s: Seq<int>, at: int, x: int)
    requires
        0 <= at < s.len(),
        s.contains(x),
        s[at] != x,
    ensures
        s.remove(at).contains(x),
{
    let i = choose|i: int| 0 <= i < s.len() && s[i] == x;
    let i2 = if i < at { i } else { i - 1 };
    assert(s.remove(at)[i2] == x);
}

/// Node `c` begins, ends and stands where it did.
pub open spec fn same_place<T>(m: Model<T>, m2: Model<T>, c: int) -> bool {
    0 <= c < m.nodes.len() ==> m2.metas[c] == m.metas[c] && m2.nodes[c].low_key
        == m.nodes[c].low_key && m2.nodes[c].high_key == m.nodes[c].high_key
}

/// Node `i` is what it was, and so is what it sees of its children, of its
/// right sibling and of the node its out link names.
pub open spec fn steady<T: Ord>(m: Model<T>, m2: Model<T>, i: int) -> bool {
    let n = m.nodes[i];
    &&& m2.nodes[i] == n
    &&& m2.metas[i] == m.metas[i]
    &&& if m.metas[i].live {
        &&& (i == m.root) == (i == m2.root)
        &&& m.metas[i].level < m2.levels.len()
        &&& m2.levels[m.metas[i].level as int].contains(i)
        &&& forall|j: int|
            0 <= j < n.children.len() ==> same_place(m, m2, #[trigger] n.children[j] as int)
        &&& n.right_link matches Some(r) ==> 0 <= r < m.nodes.len() ==> m2.metas[r as int]
            == m.metas[r as int] && m2.nodes[r as int].low_key == m.nodes[r as int].low_key
    } else {
        n.out_link matches Some(t) ==> m2.metas[t as int].live || m2.metas[t as int].retired_at
            > m.metas[i].retired_at
    }
}

/// A node that is steady through a change is as good after it as before.
pub proof fn lemma_steady<T: Ord>(
    m: Model<T>,
    slack: Option<int>,
    m2: Model<T>,
    slack2: Option<int>,
    i: int,
)
    requires
        0 <= i < m.nodes.len() <= m2.nodes.len(),
        m.metas.len() == m.nodes.len(),
        m2.metas.len() == m2.nodes.len(),
        m.node_ok(i, slack),
        steady(m, m2, i),
        m2.min_ord == m.min_ord,
        m2.clock >= m.clock,
        slack == Some(i) || slack2 != Some(i),
        slack == Some(i) ==> slack2 == Some(i) || m2.size_ok(i, slack2),
    ensures
        m2.node_ok(i, slack2),
{
    let n = m.nodes[i];
    if m.metas[i].live {
        assert(m2.keys_ok(i)) by {
            assert forall|k: int| 0 <= k < n.keys.len() implies m2.covers(i, #[trigger] n.keys[k]) by {
                assert(m.covers(i, n.keys[k]));
            }
        }
        if m.metas[i].level > 0 {
            assert forall|j: int| 0 <= j < n.children.len() implies #[trigger] m2.child_ok(
                i,
                j,
            ) by {
                assert(m.child_ok(i, j));
                assert(same_place(m, m2, n.children[j] as int));
            }
        }
    }
}

/// A level on which every node keeps its right link and its record is the
/// chain it was.
pub proof fn lemma_chain_kept<T: Ord>(m: Model<T>, m2: Model<T>, l: int)
    requires
        0 <= l < m.levels.len(),
        l < m2.levels.len(),
        m.chain_ok(l),
        m2.levels[l] == m.levels[l],
        m.nodes.len() <= m2.nodes.len(),
        forall|i: int|
            0 <= i < m.nodes.len() && m.live_at(i, l as nat) ==> (#[trigger] m2.metas[i]).live
                && m2.metas[i].level == l && m2.nodes[i].low_key.is_none() == m.nodes[i].low_key.is_none()
                && m2.nodes[i].right_link == m.nodes[i].right_link,
    ensures
        m2.chain_ok(l),
{
    assert forall|p: int| 0 <= p < m2.levels[l].len() implies #[trigger] m2.chain_at(l, p) by {
        assert(m.chain_at(l, p));
        let i = m.levels[l][p];
        assert(m2.metas[i].live);
    }
    assert(m.chain_at(l, 0));
    assert(m2.metas[m.levels[l][0]].live);
}

impl<T: Ord> Model<T> {
    /// The model with the keys of node `i` replaced.
    pub open spec fn rekeyed(self, i: int, keys: Seq<T>) -> Model<T> {
        Model { nodes: self.nodes.update(i, NodeView { keys, ..self.nodes[i] }), ..self }
    }

    /// The model after `key` has been put into the leaf `leaf`.
    pub open spec fn put_key(self, leaf: int, key: T) -> Model<T> {
        let ks = self.nodes[leaf].keys;
        self.rekeyed(leaf, ks.insert(rank(ks, key), key))
    }

    /// The model after `key` has been taken from the leaf `leaf`.
    pub open spec fn take_key(self, leaf: int, key: T) -> Model<T> {
        let ks = self.nodes[leaf].keys;
        self.rekeyed(leaf, ks.remove(rank(ks, key)))
    }
}

/// A change of the keys of one live node, which leaves them ascending and
/// within the node, keeps the tree well formed but for the size of that node.
pub proof fn lemma_rekeyed<T: Ord>(m: Model<T>, i: int, keys: Seq<T>)
    requires
        total_order::<T>(),
        m.wf(None),
        m.live_at(i, 0),
        ascending(keys),
        forall|k: int| 0 <= k < keys.len() ==> m.covers(i, #[trigger] keys[k]),
        m.nodes[i].keys.len() - 1 <= keys.len() <= m.nodes[i].keys.len() + 1,
    ensures
        m.rekeyed(i, keys).wf(Some(i)),
{
    let m2 = m.rekeyed(i, keys);
    assert forall|l: int| 0 <= l < m2.levels.len() implies #[trigger] m2.chain_ok(l) by {
        assert(m.chain_ok(l));
        lemma_chain_kept(m, m2, l);
    }
    assert forall|x: int| 0 <= x < m2.nodes.len() implies #[trigger] m2.node_ok(x, Some(i)) by {
        assert(m.node_ok(x, None));
        if x != i {
            lemma_steady(m, None, m2, Some(i), x);
        } else {
            assert(m2.keys_ok(i));
        }
    }
}

/// Putting a key that a leaf covers and does not hold into that leaf keeps
/// the tree well formed, but that the leaf may now hold one key too many, and
/// adds that key to the keys of the tree.
pub proof fn lemma_put_key<T: Ord>(m: Model<T>, leaf: int, key: T)
    requires
        total_order::<T>(),
        m.wf(None),
        m.live_at(leaf, 0),
        m.covers(leaf, key),
        !m.nodes[leaf].keys.contains(key),
    ensures
        m.put_key(leaf, key).wf(Some(leaf)),
        forall|k: T| m.put_key(leaf, key).keys().contains(k) <==> (m.keys().contains(k) || k == key),
{
    let ks = m.nodes[leaf].keys;
    let r = rank(ks, key);
    let ks2 = ks.insert(r, key);
    let m2 = m.put_key(leaf, key);
    assert(m.node_ok(leaf, None));
    lemma_rank(ks, key);
    assert forall|a: int, b: int| 0 <= a < b < ks2.len() implies lt(ks2[a], ks2[b]) by {
        if b < r {
            assert(ks2[a] == ks[a] && ks2[b] == ks[b]);
        } else if b == r {
            assert(ks2[a] == ks[a]);
        } else if a < r {
            assert(ks2[a] == ks[a] && ks2[b] == ks[b - 1]);
        } else if a == r {
            assert(ks2[b] == ks[b - 1]);
            assert(!lt(ks[b - 1], key));
            assert(ks[b - 1] != key);
        } else {
            assert(ks2[a] == ks[a - 1] && ks2[b] == ks[b - 1]);
        }
    }
    assert forall|k: int| 0 <= k < ks2.len() implies m.covers(leaf, #[trigger] ks2[k]) by {
        if k < r {
            assert(m.covers(leaf, ks[k]));
        } else if k > r {
            assert(m.covers(leaf, ks[k - 1]));
        }
    }
    lemma_rekeyed(m, leaf, ks2);
    assert forall|k: T| m2.keys().contains(k) <==> (m.keys().contains(k) || k == key) by {
        lemma_chain_keys_contains(m.nodes, m.levels[0], k);
        lemma_chain_keys_contains(m2.nodes, m.levels[0], k);
        m.lemma_place(None, leaf);
        let c = m.levels[0];
        let q = m.place(leaf);
        if m2.keys().contains(k) {
            let p = choose|p: int| 0 <= p < c.len() && (#[trigger] m2.nodes[c[p]]).keys.contains(k);
            if c[p] == leaf {
                let x = choose|x: int| 0 <= x < ks2.len() && ks2[x] == k;
                if x < r {
                    assert(ks[x] == k);
                    assert(m.nodes[c[q]].keys.contains(k));
                } else if x > r {
                    assert(ks[x - 1] == k);
                    assert(m.nodes[c[q]].keys.contains(k));
                }
            } else {
                assert(m.chain_ok(0));
                assert(m.chain_at(0, p));
                assert(m.nodes[c[p]].keys.contains(k));
            }
        }
        if m.keys().contains(k) {
            let p = choose|p: int| 0 <= p < c.len() && (#[trigger] m.nodes[c[p]]).keys.contains(k);
            if c[p] == leaf {
                let x = choose|x: int| 0 <= x < ks.len() && ks[x] == k;
                if x < r {
                    assert(ks2[x] == k);
                } else {
                    assert(ks2[x + 1] == k);
                }
                assert(m2.nodes[c[q]].keys.contains(k));
            } else {
                assert(m.chain_ok(0));
                assert(m.chain_at(0, p));
                assert(m2.nodes[c[p]].keys.contains(k));
            }
        }
        if k == key {
            assert(ks2[r] == key);
            assert(m2.nodes[c[q]].keys.contains(k));
        }
    }
}

/// Taking a key from the leaf that holds it keeps the tree well formed, but
/// that the leaf may now hold one key too few, and removes that key from the
/// keys of the tree.
pub proof fn lemma_take_key<T: Ord>(m: Model<T>, leaf: int, key: T)
    requires
        total_order::<T>(),
        m.wf(None),
        m.live_at(leaf, 0),
        m.nodes[leaf].keys.contains(key),
    ensures
        m.take_key(leaf, key).wf(Some(leaf)),
        forall|k: T| m.take_key(leaf, key).keys().contains(k) <==> (m.keys().contains(k) && k != key),
{
    let ks = m.nodes[leaf].keys;
    let r = rank(ks, key);
    let ks2 = ks.remove(r);
    let m2 = m.take_key(leaf, key);
    assert(m.node_ok(leaf, None));
    lemma_rank(ks, key);
    assert forall|a: int, b: int| 0 <= a < b < ks2.len() implies lt(ks2[a], ks2[b]) by {
        let a1 = if a < r { a } else { a + 1 };
        let b1 = if b < r { b } else { b + 1 };
        assert(ks2[a] == ks[a1] && ks2[b] == ks[b1]);
    }
    assert forall|k: int| 0 <= k < ks2.len() implies m.covers(leaf, #[trigger] ks2[k]) by {
        let k1 = if k < r { k } else { k + 1 };
        assert(m.covers(leaf, ks[k1]));
    }
    lemma_rekeyed(m, leaf, ks2);
    assert forall|k: T| m2.keys().contains(k) <==> (m.keys().contains(k) && k != key) by {
        lemma_chain_keys_contains(m.nodes, m.levels[0], k);
        lemma_chain_keys_contains(m2.nodes, m.levels[0], k);
        m.lemma_place(None, leaf);
        let c = m.levels[0];
        let q = m.place(leaf);
        if m2.keys().contains(k) {
            let p = choose|p: int| 0 <= p < c.len() && (#[trigger] m2.nodes[c[p]]).keys.contains(k);
            if c[p] == leaf {
                let x = choose|x: int| 0 <= x < ks2.len() && ks2[x] == k;
                let x1 = if x < r { x } else { x + 1 };
                assert(ks[x1] == k);
                assert(m.nodes[c[q]].keys.contains(k));
                if x1 < r {
                    assert(lt(ks[x1], ks[r]));
                } else {
                    assert(lt(ks[r], ks[x1]));
                }
            } else {
                assert(m.chain_ok(0));
                assert(m.chain_at(0, p));
                assert(m.nodes[c[p]].keys.contains(k));
                if k == key {
                    assert(m.chain_ok(0));
                    assert(m.chain_at(0, p));
                    assert(m.node_ok(c[p], None));
                    let x = choose|x: int|
                        0 <= x < m.nodes[c[p]].keys.len() && m.nodes[c[p]].keys[x] == k;
                    assert(m.covers(c[p], m.nodes[c[p]].keys[x]));
                    assert(m.covers(leaf, ks[r]));
                    m.lemma_one_cover(None, c[p], leaf, key);
                }
            }
        }
        if m.keys().contains(k) && k != key {
            let p = choose|p: int| 0 <= p < c.len() && (#[trigger] m.nodes[c[p]]).keys.contains(k);
            if c[p] == leaf {
                let x = choose|x: int| 0 <= x < ks.len() && ks[x] == k;
                if x < r {
                    assert(ks2[x] == k);
                } else {
                    assert(ks2[x - 1] == k);
                }
                assert(m2.nodes[c[q]].keys.contains(k));
            } else {
                assert(m.chain_ok(0));
                assert(m.chain_at(0, p));
                assert(m2.nodes[c[p]].keys.contains(k));
            }
        }
    }
}

impl<T> NodeView<T> {
    /// Where a node that holds one key too many is cut: the place of the key
    /// that becomes the separator between its halves.
    pub open spec fn cut(self) -> int {
        if self.is_leaf() {
            self.min_ord + 1
        } else {
            self.min_ord as int
        }
    }

    /// The separator between the halves. A leaf keeps it as the first key of
    /// its upper half; an internal node gives it up.
    pub open spec fn pivot(self) -> T {
        self.keys[self.cut()]
    }

    /// The half that stays in the node: the keys before the separator, and
    /// the children under them. It ends at the separator and is linked to the
    /// node `right`, which takes the other half.
    pub open spec fn lower_half(self, right: usize) -> NodeView<T> {
        NodeView {
            root: false,
            keys: self.keys.take(self.cut()),
            children: if self.is_leaf() {
                self.children
            } else {
                self.children.take(self.min_ord + 1)
            },
            right_link: Some(right),
            high_key: Some(self.pivot()),
            ..self
        }
    }

    /// The half that moves to a new node: the last `min_ord` keys, and the
    /// children under them.
    pub open spec fn upper_half(self) -> NodeView<T> {
        NodeView {
            root: false,
            keys: self.keys.skip(self.min_ord + 1),
            children: if self.is_leaf() {
                self.children
            } else {
                self.children.skip(self.min_ord + 1)
            },
            low_key: Some(self.pivot()),
            ..self
        }
    }
}

/// In `m2` the live node `c` of `m`, which held one key too many, has been
/// cut in two: it keeps its lower half, and a new node to its right on the
/// same level has its upper half. What `m2` says of the parent is left open.
pub open spec fn halved<T: Ord>(m: Model<T>, c: int, m2: Model<T>) -> bool {
    let fresh = m.nodes.len() as int;
    let n = m.nodes[c];
    let l = m.metas[c].level as int;
    &&& m.live(c)
    &&& n.keys.len() == 2 * m.min_ord + 1
    &&& fresh < usize::MAX
    &&& m2.nodes.len() > fresh
    &&& m2.metas.len() == m2.nodes.len()
    &&& m2.min_ord == m.min_ord
    &&& m2.clock == m.clock
    &&& m2.root != c
    &&& m2.root != fresh
    &&& m2.nodes[c] == n.lower_half(fresh as usize)
    &&& m2.nodes[fresh] == n.upper_half()
    &&& m2.metas[fresh] == (Meta { level: l as nat, live: true, retired_at: 0 })
    &&& forall|i: int| 0 <= i < fresh ==> #[trigger] m2.metas[i] == m.metas[i]
    &&& forall|i: int|
        0 <= i < fresh && m.metas[i].level != l + 1 && i != c ==> #[trigger] m2.nodes[i]
            == m.nodes[i]
    &&& m2.levels.len() >= m.levels.len()
    &&& forall|k: int| 0 <= k < m.levels.len() && k != l ==> #[trigger] m2.levels[k] == m.levels[k]
    &&& m2.levels[l] == m.levels[l].insert(m.place(c) + 1, fresh)
}

/// After a cut, the node that was cut is well formed.
pub proof fn lemma_halved_lower<T: Ord>(m: Model<T>, c: int, m2: Model<T>, slack2: Option<int>)
    requires
        total_order::<T>(),
        m.wf(Some(c)),
        halved(m, c, m2),
        slack2 != Some(c),
    ensures
        m2.node_ok(c, slack2),
{
    let fresh = m.nodes.len() as int;
    let n = m.nodes[c];
    let n2 = m2.nodes[c];
    let l = m.metas[c].level as int;
    let piv = n.pivot();
    assert(m.node_ok(c, Some(c)));
    m.lemma_place(Some(c), c);
    assert(m.covers(c, n.keys[0]));
    assert(lt(n.keys[0], piv));
    assert forall|k: int| 0 <= k < n2.keys.len() implies m2.covers(c, #[trigger] n2.keys[k]) by {
        assert(n2.keys[k] == n.keys[k]);
        assert(m.covers(c, n.keys[k]));
        assert(lt(n.keys[k], n.keys[n.cut()]));
    }
    assert(apart(m2.nodes[c].low_key, n2.high_key)) by {
        if m.nodes[c].low_key.is_some() {
            let a = m.nodes[c].low_key.unwrap();
            if !lt(a, piv) {
                if a != piv {
                    assert(lt(piv, a));
                }
                assert(lt(n.keys[0], a));
            }
        }
    }
    assert(m2.keys_ok(c));
    assert(m2.levels[l][m.place(c)] == c);
    assert(m2.levels[l].contains(c));
    if l > 0 {
        assert forall|j: int| 0 <= j < n2.children.len() implies #[trigger] m2.child_ok(c, j) by {
            assert(m.child_ok(c, j));
            let d = n.children[j] as int;
            assert(m2.metas[d] == m.metas[d]);
            assert(m2.nodes[d] == m.nodes[d]);
        }
    }
}

/// After a cut, the new node is well formed.
pub proof fn lemma_halved_upper<T: Ord>(m: Model<T>, c: int, m2: Model<T>, slack2: Option<int>)
    requires
        total_order::<T>(),
        m.wf(Some(c)),
        halved(m, c, m2),
        slack2 != Some(m.nodes.len() as int),
    ensures
        m2.node_ok(m.nodes.len() as int, slack2),
{
    let fresh = m.nodes.len() as int;
    let n = m.nodes[c];
    let n2 = m2.nodes[fresh];
    let l = m.metas[c].level as int;
    let piv = n.pivot();
    let mo = m.min_ord as int;
    assert(m.node_ok(c, Some(c)));
    m.lemma_place(Some(c), c);
    assert(m.covers(c, piv));
    assert forall|k: int| 0 <= k < n2.keys.len() implies m2.covers(fresh, #[trigger] n2.keys[k]) by {
        assert(n2.keys[k] == n.keys[mo + 1 + k]);
        assert(m.covers(c, n.keys[mo + 1 + k]));
        if n.cut() < mo + 1 + k {
            assert(lt(n.keys[n.cut()], n.keys[mo + 1 + k]));
        } else {
            if lt(piv, piv) {
                assert(!lt(piv, piv));
            }
        }
    }
    assert forall|a: int, b: int| 0 <= a < b < n2.keys.len() implies lt(n2.keys[a], n2.keys[b]) by {
        assert(n2.keys[a] == n.keys[mo + 1 + a] && n2.keys[b] == n.keys[mo + 1 + b]);
    }
    assert(m2.keys_ok(fresh));
    assert(m2.levels[l][m.place(c) + 1] == fresh);
    assert(m2.levels[l].contains(fresh));
    assert(m2.link_ok(fresh)) by {
        if n.right_link.is_some() {
            let r = n.right_link.unwrap() as int;
            assert(m2.metas[r] == m.metas[r]);
        }
    }
    if l > 0 {
        assert forall|j: int| 0 <= j < n2.children.len() implies #[trigger] m2.child_ok(
            fresh,
            j,
        ) by {
            assert(m.child_ok(c, mo + 1 + j));
            let d = n.children[mo + 1 + j] as int;
            assert(n2.children[j] == n.children[mo + 1 + j]);
            assert(m2.metas[d] == m.metas[d]);
            assert(m2.nodes[d] == m.nodes[d]);
            if j > 0 {
                assert(n2.keys[j - 1] == n.keys[mo + j]);
            }
            if j < n2.keys.len() {
                assert(n2.keys[j] == n.keys[mo + 1 + j]);
            }
        }
    }
}

/// After a cut, the level of the node that was cut is a chain.
pub proof fn lemma_halved_chain<T: Ord>(m: Model<T>, c: int, m2: Model<T>)
    requires
        total_order::<T>(),
        m.wf(Some(c)),
        halved(m, c, m2),
        forall|i: int|
            0 <= i < m.nodes.len() && i != c && m.live_at(i, m.metas[c].level)
                ==> #[trigger] m2.nodes[i] == m.nodes[i],
    ensures
        m2.chain_ok(m.metas[c].level as int),
{
    let fresh = m.nodes.len() as int;
    let n = m.nodes[c];
    let l = m.metas[c].level as int;
    let chain = m.levels[l];
    let q = m.place(c);
    let chain2 = m2.levels[l];
    assert(m.node_ok(c, Some(c)));
    m.lemma_place(Some(c), c);
    assert(m.chain_ok(l));
    assert forall|p: int| 0 <= p < chain.len() implies 0 <= #[trigger] chain[p] < fresh by {
        assert(m.chain_at(l, p));
    }
    assert(chain2.no_duplicates()) by {
        assert forall|a: int, b: int| 0 <= a < chain2.len() && 0 <= b < chain2.len() && a
            != b implies chain2[a] != chain2[b] by {
            let a1 = if a <= q { a } else { a - 1 };
            let b1 = if b <= q { b } else { b - 1 };
            if a != q + 1 {
                assert(chain2[a] == chain[a1]);
            }
            if b != q + 1 {
                assert(chain2[b] == chain[b1]);
            }
        }
    }
    assert forall|p: int| 0 <= p < chain2.len() implies #[trigger] m2.chain_at(l, p) by {
        if p <= q {
            assert(m.chain_at(l, p));
            assert(chain2[p] == chain[p]);
            if p < q {
                assert(chain[p] != c);
                assert(chain2[p + 1] == chain[p + 1]);
                assert(m2.nodes[chain[p]] == m.nodes[chain[p]]);
            }
        } else if p == q + 1 {
            assert(m.chain_at(l, q));
            if q + 1 < chain.len() {
                assert(chain2[p + 1] == chain[q + 1]);
            }
        } else {
            assert(m.chain_at(l, p - 1));
            assert(chain2[p] == chain[p - 1]);
            assert(chain[p - 1] != c);
            assert(m2.nodes[chain[p - 1]] == m.nodes[chain[p - 1]]);
            if p < chain.len() {
                assert(chain2[p + 1] == chain[p]);
            }
        }
    }
    assert(chain2[0] == chain[0]);
    assert(m.chain_at(l, 0));
}

/// After the cut of a leaf, the keys of the tree are those they were.
pub proof fn lemma_halved_keys<T: Ord>(m: Model<T>, c: int, m2: Model<T>)
    requires
        total_order::<T>(),
        m.wf(Some(c)),
        halved(m, c, m2),
        forall|i: int|
            0 <= i < m.nodes.len() && i != c && m.live_at(i, 0) ==> #[trigger] m2.nodes[i]
                == m.nodes[i],
    ensures
        forall|k: T| m2.keys().contains(k) <==> m.keys().contains(k),
{
    let fresh = m.nodes.len() as int;
    let n = m.nodes[c];
    let l = m.metas[c].level as int;
    let mo = m.min_ord as int;
    let chain = m.levels[0];
    let chain2 = m2.levels[0];
    assert(m.node_ok(c, Some(c)));
    assert(m.chain_ok(0));
    m.lemma_place(Some(c), c);
    let q = m.place(c);
    assert forall|k: T| m2.keys().contains(k) <==> m.keys().contains(k) by {
        lemma_chain_keys_contains(m.nodes, chain, k);
        lemma_chain_keys_contains(m2.nodes, chain2, k);
        if l == 0 {
            let lower = m2.nodes[c].keys;
            let upper = m2.nodes[fresh].keys;
            if m2.keys().contains(k) {
                let p = choose|p: int|
                    0 <= p < chain2.len() && (#[trigger] m2.nodes[chain2[p]]).keys.contains(k);
                if p == q {
                    let x = choose|x: int| 0 <= x < lower.len() && lower[x] == k;
                    assert(n.keys[x] == k);
                    assert(m.nodes[chain[q]].keys.contains(k));
                } else if p == q + 1 {
                    let x = choose|x: int| 0 <= x < upper.len() && upper[x] == k;
                    assert(n.keys[mo + 1 + x] == k);
                    assert(m.nodes[chain[q]].keys.contains(k));
                } else {
                    let pl = if p < q { p } else { p - 1 };
                    assert(chain2[p] == chain[pl]);
                    assert(m.chain_at(0, pl));
                    assert(m.nodes[chain[pl]].keys.contains(k));
                }
            }
            if m.keys().contains(k) {
                let p = choose|p: int|
                    0 <= p < chain.len() && (#[trigger] m.nodes[chain[p]]).keys.contains(k);
                if p == q {
                    let x = choose|x: int| 0 <= x < n.keys.len() && n.keys[x] == k;
                    if x < mo + 1 {
                        assert(lower[x] == k);
                        assert(chain2[q] == c);
                        assert(m2.nodes[chain2[q]].keys.contains(k));
                    } else {
                        assert(upper[x - mo - 1] == k);
                        assert(chain2[q + 1] == fresh);
                        assert(m2.nodes[chain2[q + 1]].keys.contains(k));
                    }
                } else {
                    let pr = if p < q { p } else { p + 1 };
                    assert(chain2[pr] == chain[p]);
                    assert(m.chain_at(0, p));
                    assert(m2.nodes[chain2[pr]].keys.contains(k));
                }
            }
        } else {
            if m2.keys().contains(k) {
                let p = choose|p: int|
                    0 <= p < chain2.len() && (#[trigger] m2.nodes[chain2[p]]).keys.contains(k);
                assert(m.chain_at(0, p));
                assert(m.nodes[chain[p]].keys.contains(k));
            }
            if m.keys().contains(k) {
                let p = choose|p: int|
                    0 <= p < chain.len() && (#[trigger] m.nodes[chain[p]]).keys.contains(k);
                assert(m.chain_at(0, p));
                assert(m2.nodes[chain2[p]].keys.contains(k));
            }
        }
    }
}

impl<T: Ord> Model<T> {
    /// The model after node `c`, which holds one key too many, has been cut
    /// in two and its new right sibling has been linked to it. The parent
    /// does not know the sibling yet.
    pub open spec fn cut_node(self, c: int) -> Model<T> {
        let fresh = self.nodes.len() as int;
        let n = self.nodes[c];
        let l = self.metas[c].level as int;
        Model {
            nodes: self.nodes.update(c, n.lower_half(fresh as usize)).push(n.upper_half()),
            metas: self.metas.push(
                Meta { level: l as nat, live: true, retired_at: 0 },
            ),
            levels: self.levels.update(l, self.levels[l].insert(self.place(c) + 1, fresh)),
            ..self
        }
    }

    /// The model after child `j` of node `p`, which holds one key too many,
    /// has been cut in two and `p` has been given the separator and the new
    /// child.
    pub open spec fn split_child(self, p: int, j: int) -> Model<T> {
        let c = self.nodes[p].children[j] as int;
        let m1 = self.cut_node(c);
        let pn = self.nodes[p];
        Model {
            nodes: m1.nodes.update(
                p,
                NodeView {
                    keys: pn.keys.insert(j, self.nodes[c].pivot()),
                    children: pn.children.insert(j + 1, self.nodes.len() as usize),
                    ..pn
                },
            ),
            ..m1
        }
    }

    /// The model after the root, which holds one key too many, has been cut
    /// in two and a new root has been put above the halves.
    pub open spec fn split_root(self) -> Model<T> {
        let c = self.root;
        let m1 = self.cut_node(c);
        let fresh = self.nodes.len() as int;
        Model {
            nodes: m1.nodes.push(
                NodeView {
                    min_ord: self.nodes[c].min_ord,
                    root: true,
                    keys: seq![self.nodes[c].pivot()],
                    children: seq![c as usize, fresh as usize],
                    right_link: None,
                    out_link: None,
                    low_key: None,
                    high_key: None,
                },
            ),
            metas: m1.metas.push(
                Meta { level: self.metas[c].level + 1, live: true, retired_at: 0 },
            ),
            levels: m1.levels.push(seq![fresh + 1]),
            root: fresh + 1,
            ..m1
        }
    }
}

/// Cutting a child that holds one key too many, and giving the separator and
/// the new child to the parent, keeps the tree well formed, but that the
/// parent may now hold one key too many, and keeps the keys of the tree.
pub proof fn lemma_split_child<T: Ord>(m: Model<T>, p: int, j: int)
    requires
        total_order::<T>(),
        m.live(p),
        m.metas[p].level > 0,
        0 <= j < m.nodes[p].children.len(),
        m.wf(Some(m.nodes[p].children[j] as int)),
        m.nodes[m.nodes[p].children[j] as int].keys.len() == 2 * m.min_ord + 1,
        m.nodes.len() < usize::MAX,
    ensures
        m.split_child(p, j).wf(Some(p)),
        forall|k: T| m.split_child(p, j).keys().contains(k) <==> m.keys().contains(k),
{
    let c = m.nodes[p].children[j] as int;
    let slack = Some(c);
    let m2 = m.split_child(p, j);
    let fresh = m.nodes.len() as int;
    let n = m.nodes[c];
    let pn = m.nodes[p];
    let pn2 = m2.nodes[p];
    let piv = n.pivot();
    let l = m.metas[c].level as int;
    assert(m.node_ok(p, slack));
    assert(m.child_ok(p, j));
    assert(m.node_ok(c, slack));
    m.lemma_place(slack, c);
    crate::model::lemma_root_covers(m, slack, piv);
    assert(halved(m, c, m2));
    lemma_halved_lower(m, c, m2, Some(p));
    lemma_halved_upper(m, c, m2, Some(p));
    lemma_halved_chain(m, c, m2);
    lemma_halved_keys(m, c, m2);
    assert forall|l2: int| 0 <= l2 < m2.levels.len() implies #[trigger] m2.chain_ok(l2) by {
        if l2 != l {
            assert(m.chain_ok(l2));
            lemma_chain_kept(m, m2, l2);
        }
    }
    assert(m.covers(c, piv));
    assert(m.covers(c, n.keys[0]));
    assert(lt(n.keys[0], piv));
    assert forall|x: int| 0 <= x < m2.nodes.len() implies #[trigger] m2.node_ok(x, Some(p)) by {
        if x == c || x == fresh {
        } else if x == p {
            assert forall|a: int, b: int| 0 <= a < b < pn2.keys.len() implies lt(
                pn2.keys[a],
                pn2.keys[b],
            ) by {
                let a1 = if a < j { a } else { a - 1 };
                let b1 = if b < j { b } else { b - 1 };
                if a != j && b != j {
                    assert(pn2.keys[a] == pn.keys[a1] && pn2.keys[b] == pn.keys[b1]);
                } else if a == j {
                    assert(pn2.keys[b] == pn.keys[b1]);
                    assert(lt(piv, pn.keys[j]));
                    if b1 > j {
                        assert(lt(pn.keys[j], pn.keys[b1]));
                    }
                } else {
                    assert(pn2.keys[a] == pn.keys[a1]);
                    assert(!lt(n.keys[0], pn.keys[j - 1]));
                    if a1 < j - 1 {
                        assert(lt(pn.keys[a1], pn.keys[j - 1]));
                    }
                    if !lt(pn.keys[a1], piv) {
                        if pn.keys[a1] != piv {
                            assert(lt(piv, pn.keys[a1]));
                        }
                        assert(lt(n.keys[0], pn.keys[a1]));
                        assert(lt(n.keys[0], pn.keys[j - 1]) || a1 == j - 1);
                    }
                }
            }
            assert(m.covers(p, piv)) by {
                if j > 0 {
                    assert(m.covers(p, pn.keys[j - 1]));
                    if m.nodes[p].low_key.is_some() && lt(piv, m.nodes[p].low_key.unwrap()) {
                        assert(lt(piv, pn.keys[j - 1]) || piv == pn.keys[j - 1] || lt(
                            pn.keys[j - 1],
                            piv,
                        ));
                        if lt(pn.keys[j - 1], piv) {
                            assert(lt(pn.keys[j - 1], m.nodes[p].low_key.unwrap()));
                        }
                    }
                }
                if j < pn.keys.len() {
                    assert(m.covers(p, pn.keys[j]));
                    assert(lt(piv, pn.keys[j]));
                }
            }
            assert forall|k: int| 0 <= k < pn2.keys.len() implies m2.covers(
                p,
                #[trigger] pn2.keys[k],
            ) by {
                if k < j {
                    assert(m.covers(p, pn.keys[k]));
                } else if k > j {
                    assert(m.covers(p, pn.keys[k - 1]));
                }
            }
            assert(m2.keys_ok(p));
            assert(m2.link_ok(p));
            assert(m2.levels[m.metas[p].level as int].contains(p));
            assert forall|t: int| 0 <= t < pn2.children.len() implies #[trigger] m2.child_ok(
                p,
                t,
            ) by {
                if t <= j {
                    assert(m.child_ok(p, t));
                    if t < j && pn.children[t] == pn.children[j] {
                        m.lemma_one_parent(slack, p, t, p, j);
                    }
                } else if t == j + 1 {
                } else {
                    assert(m.child_ok(p, t - 1));
                    if pn.children[t - 1] == pn.children[j] {
                        m.lemma_one_parent(slack, p, t - 1, p, j);
                    }
                    assert(pn2.children[t] == pn.children[t - 1]);
                }
            }
        } else {
            assert(m.node_ok(x, slack));
            if m.metas[x].live {
                assert forall|t: int| 0 <= t < m.nodes[x].children.len() implies same_place(
                    m,
                    m2,
                    #[trigger] m.nodes[x].children[t] as int,
                ) by {
                    assert(m.child_ok(x, t));
                    if m.nodes[x].children[t] == pn.children[j] {
                        m.lemma_one_parent(slack, x, t, p, j);
                    }
                }
                if m.metas[x].level == l {
                    lemma_insert_keeps(m.levels[l], m.place(c) + 1, fresh, x);
                }
            }
            lemma_steady(m, slack, m2, Some(p), x);
        }
    }
}

/// Cutting a root that holds one key too many, and putting a new root above
/// the halves, makes the tree well formed again and keeps its keys.
pub proof fn lemma_split_root<T: Ord>(m: Model<T>)
    requires
        total_order::<T>(),
        m.wf(Some(m.root)),
        m.nodes[m.root].keys.len() == 2 * m.min_ord + 1,
        m.nodes.len() + 1 < usize::MAX,
    ensures
        m.split_root().wf(None),
        forall|k: T| m.split_root().keys().contains(k) <==> m.keys().contains(k),
{
    let c = m.root;
    let slack = Some(c);
    let m2 = m.split_root();
    let fresh = m.nodes.len() as int;
    let top = fresh + 1;
    let n = m.nodes[c];
    let piv = n.pivot();
    let l = m.metas[c].level as int;
    crate::model::lemma_root_covers(m, slack, piv);
    assert(m.node_ok(c, slack));
    m.lemma_place(slack, c);
    assert(m.levels[l] =~= seq![c]);
    assert(m.place(c) == 0);
    assert(halved(m, c, m2));
    lemma_halved_lower(m, c, m2, None);
    lemma_halved_upper(m, c, m2, None);
    lemma_halved_chain(m, c, m2);
    lemma_halved_keys(m, c, m2);
    assert forall|l2: int| 0 <= l2 < m2.levels.len() implies #[trigger] m2.chain_ok(l2) by {
        if l2 == l + 1 {
            assert(m2.levels[l2] =~= seq![top]);
            assert(m2.chain_at(l2, 0));
        } else if l2 != l {
            assert(m.chain_ok(l2));
            lemma_chain_kept(m, m2, l2);
        }
    }
    assert forall|x: int| 0 <= x < m2.nodes.len() implies #[trigger] m2.node_ok(x, None) by {
        if x == c || x == fresh {
        } else if x == top {
            let r2 = m2.nodes[top];
            assert(m2.levels[l + 1][0] == top);
            assert(m2.levels[l + 1].contains(top));
            assert(m2.covers(top, piv));
            assert(m2.keys_ok(top));
            assert forall|t: int| 0 <= t < r2.children.len() implies #[trigger] m2.child_ok(
                top,
                t,
            ) by {
            }
        } else {
            assert(m.node_ok(x, slack));
            if m.metas[x].live {
                assert(m.metas[x].level < l) by {
                    m.lemma_place(slack, x);
                    if m.metas[x].level == l {
                        assert(m.levels[l][m.place(x)] == x);
                    }
                }
                assert forall|t: int| 0 <= t < m.nodes[x].children.len() implies same_place(
                    m,
                    m2,
                    #[trigger] m.nodes[x].children[t] as int,
                ) by {
                    assert(m.child_ok(x, t));
                }
            }
            lemma_steady(m, slack, m2, None, x);
        }
    }
    assert(m2.levels.last() =~= seq![m2.root]);
}

} // verus!
