//! One node of the tree: its keys, its child and sibling handles, and the latch
//! that guards them. A node is named by its handle, the place it was given when
//! it was made; a handle stays good for as long as the tree lives.

use crate::keys::{ascending, lemma_rank, lower_bound, slot};
use crate::latch::{LatchState, NodeLatch};
use crate::order::{above, below, less, same, total_order};
use vstd::prelude::*;

verus! {

/// What a node holds, as mathematical values.
pub struct NodeView<T> {
    pub min_ord: usize,
    pub root: bool,
    pub keys: Seq<T>,
    pub children: Seq<usize>,
    pub right_link: Option<usize>,
    pub out_link: Option<usize>,
    pub low_key: Option<T>,
    pub high_key: Option<T>,
}

/// The contents of a node.
///
/// `keys` is ascending. A leaf has no children; an internal node has one child
/// more than keys, and `keys[i]` is the least key that may stand under
/// `children[i + 1]`. `low_key` is the least key that belongs to this node,
/// and is absent on the leftmost node of a level; `high_key` is the least key
/// that belongs to the right of this node, and is absent on the rightmost
/// node of a level. `right_link` names the right sibling. `out_link` is set
/// once the node has been merged away and names the node that took its keys
/// over.
pub struct NodeInner<T> {
    pub min_ord: usize,
    pub root: bool,
    pub keys: Vec<T>,
    pub children: Vec<usize>,
    pub right_link: Option<usize>,
    pub out_link: Option<usize>,
    pub low_key: Option<T>,
    pub high_key: Option<T>,
}

impl<T> View for NodeInner<T> {
    type V = NodeView<T>;

    open spec fn view(&self) -> NodeView<T> {
        NodeView {
            min_ord: self.min_ord,
            root: self.root,
            keys: self.keys@,
            children: self.children@,
            right_link: self.right_link,
            out_link: self.out_link,
            low_key: self.low_key,
            high_key: self.high_key,
        }
    }
}

impl<T> NodeView<T> {
    /// The contents of a node that was just made.
    pub open spec fn fresh(min_ord: usize) -> NodeView<T> {
        NodeView {
            min_ord,
            root: false,
            keys: Seq::empty(),
            children: Seq::empty(),
            right_link: None,
            out_link: None,
            low_key: None,
            high_key: None,
        }
    }

    /// The node has as many children as its keys call for: none, or one more
    /// than keys.
    pub open spec fn shaped(self) -> bool {
        self.children.len() == 0 || self.children.len() == self.keys.len() + 1
    }

    /// The node has no children.
    pub open spec fn is_leaf(self) -> bool {
        self.children.len() == 0
    }

    /// One more key would be one too many.
    pub open spec fn full(self) -> bool {
        self.keys.len() == 2 * self.min_ord
    }

    /// One key less would be one too few.
    pub open spec fn lean(self) -> bool {
        self.keys.len() == self.min_ord
    }
}

impl<T: Ord> NodeView<T> {
    /// `key` belongs to the node: it does not sort before the low key and
    /// sorts before the high key, as far as the node has them.
    pub open spec fn spans(self, key: T) -> bool {
        above(self.low_key, key) && below(key, self.high_key)
    }

    /// What the node answers when asked for `key`: a leaf, whether it holds
    /// the key; an internal node, whether the key belongs to it, so that a
    /// search for the key passes through it.
    pub open spec fn has(self, key: T) -> bool {
        if self.is_leaf() {
            self.keys.contains(key)
        } else {
            self.spans(key)
        }
    }
}

impl<T> NodeInner<T> {
    /// An empty node of minimum order `min_ord` that is not the root.
    pub fn new(min_ord: usize) -> (r: NodeInner<T>)
        ensures
            r@ == NodeView::<T>::fresh(min_ord),
    {
        NodeInner {
            min_ord,
            root: false,
            keys: Vec::new(),
            children: Vec::new(),
            right_link: None,
            out_link: None,
            low_key: None,
            high_key: None,
        }
    }
}

/// A node behind its latch.
pub struct Node<T> {
    pub latch: NodeLatch,
    pub inner: NodeInner<T>,
}

/// The operations on a single node. Each one that reads asks that the caller
/// holds the node's latch in some mode, each one that writes that the caller
/// holds it exclusively.
pub trait BTreeNode<T: Ord>: Sized {
    /// The latch of the node.
    spec fn latch(&self) -> LatchState;

    /// The contents of the node.
    spec fn content(&self) -> NodeView<T>;

    /// The latch of the node is well formed: it keeps the holds that are out
    /// on it, so that it can be taken and given back.
    spec fn latch_kept(&self) -> bool;

    /// A new, empty node that is not the root and that nobody has latched.
    fn create(min_ord: usize) -> (r: Self)
        ensures
            r.content() == NodeView::<T>::fresh(min_ord),
            r.content().shaped(),
            ascending(r.content().keys),
            r.latch().is_free(),
            r.latch().consistent(),
            r.latch_kept(),
    ;

    /// Whether the node has `key`: for a leaf, whether the key is among its
    /// keys, found by binary search; for an internal node, whether the key
    /// lies between its low key and its high key.
    fn has_key(&self, key: &T) -> (r: bool)
        requires
            total_order::<T>(),
            self.latch().held(),
            ascending(self.content().keys),
        ensures
            r == self.content().has(*key),
    ;

    /// Whether the node is the root.
    fn is_root(&self) -> (r: bool)
        requires
            self.latch().held(),
        ensures
            r == self.content().root,
    ;

    /// Replaces the node's keys.
    fn set_keys(&mut self, keys: Vec<T>)
        requires
            old(self).latch().exclusive,
        ensures
            final(self).content() == (NodeView { keys: keys@, ..old(self).content() }),
            final(self).latch() == old(self).latch(),
            final(self).latch_kept() == old(self).latch_kept(),
    ;

    /// Replaces the node's children.
    fn set_children(&mut self, children: Vec<usize>)
        requires
            old(self).latch().exclusive,
        ensures
            final(self).content() == (NodeView { children: children@, ..old(self).content() }),
            final(self).latch() == old(self).latch(),
            final(self).latch_kept() == old(self).latch_kept(),
    ;

    /// Whether the node holds twice its minimum order of keys, so that one more
    /// key makes a split due.
    fn would_overflow(&self) -> (r: bool)
        requires
            self.latch().held(),
        ensures
            r == self.content().full(),
    ;

    /// Whether the node holds just its minimum order of keys, so that one key
    /// less makes a merge due.
    fn would_underflow(&self) -> (r: bool)
        requires
            self.latch().held(),
        ensures
            r == self.content().lean(),
    ;
}

impl<T: Ord> BTreeNode<T> for Node<T> {
    open spec fn latch(&self) -> LatchState {
        self.latch@
    }

    open spec fn content(&self) -> NodeView<T> {
        self.inner@
    }

    open spec fn latch_kept(&self) -> bool {
        self.latch.wf()
    }

    fn create(min_ord: usize) -> (r: Node<T>) {
        Node { latch: NodeLatch::new(), inner: NodeInner::new(min_ord) }
    }

    fn has_key(&self, key: &T) -> (r: bool) {
        if self.inner.children.len() == 0 {
            let p = lower_bound(&self.inner.keys, key);
            proof {
                lemma_rank(self.inner.keys@, *key);
            }
            p < self.inner.keys.len() && same(&self.inner.keys[p], key)
        } else {
            let not_left = match &self.inner.low_key {
                Some(low) => !less(key, low),
                None => true,
            };
            let not_right = match &self.inner.high_key {
                Some(high) => less(key, high),
                None => true,
            };
            not_left && not_right
        }
    }

    fn is_root(&self) -> (r: bool) {
        self.inner.root
    }

    fn set_keys(&mut self, keys: Vec<T>) {
        self.inner.keys = keys;
    }

    fn set_children(&mut self, children: Vec<usize>) {
        self.inner.children = children;
    }

    fn would_overflow(&self) -> (r: bool) {
        let n = self.inner.keys.len();
        let m = self.inner.min_ord;
        n >= m && n - m == m
    }

    fn would_underflow(&self) -> (r: bool) {
        self.inner.keys.len() == self.inner.min_ord
    }
}

impl<T: Ord> Node<T> {
    /// The child that `key` is routed to: the number of keys that do not sort
    /// after `key`.
    pub fn child_slot(&self, key: &T) -> (r: usize)
        requires
            total_order::<T>(),
            self.latch@.held(),
            ascending(self.inner@.keys),
        ensures
            r == slot(self.inner@.keys, *key),
            r <= self.inner@.keys.len(),
    {
        let p = lower_bound(&self.inner.keys, key);
        if p < self.inner.keys.len() && same(&self.inner.keys[p], key) {
            p + 1
        } else {
            p
        }
    }
}

} // verus!
