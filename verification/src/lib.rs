//! A B-link tree: an ordered set of keys in a tree whose nodes carry links to
//! their right siblings and are visited under latches.
//!
//! - `order`: the total order on keys that everything is stated over.
//! - `keys`: ascending key arrays, their search and their edits.
//! - `sync`: the latch primitives, over the locks of `parking_lot`.
//! - `latch`: the latch modes, and the latch of a node with the holds that
//!   are out on it.
//! - `node`: a node, and the operations on a single node.
//! - `model`: the tree as a mathematical value, and what makes it well
//!   formed.
//! - `steps`, `merge`, `rotate`: the single steps by which the tree changes,
//!   each with the proof that it keeps the tree well formed.
//! - `effect`: what an insertion and a deletion make of the tree.
//! - `tree`, `insert`, `delete`: the tree and its operations.
//! - `laws`: what follows for the keys of the tree, whatever its shape.

pub mod delete;
pub mod effect;
pub mod insert;
pub mod keys;
pub mod latch;
pub mod laws;
pub mod merge;
pub mod model;
pub mod node;
pub mod order;
pub mod rotate;
pub mod steps;
pub mod sync;
pub mod tree;
