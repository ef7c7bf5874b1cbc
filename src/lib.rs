//! Binary search trees over totally ordered keys, in three ownership styles:
//! nodes that own their children through boxes (`bst::BST`), nodes shared
//! through reference counts and rebuilt along the path of each change
//! (`btree::BTree`), and cells kept in one flat store that name their
//! children by position (`arena::ArenaTree`, built from `node::Node`).
//!
//! All three route a key equal to a node's key into its right subtree, so
//! each insert adds a node, and all three delete a node with two children by
//! giving it a copy of the key of its in-order successor, which is then
//! deleted from its right subtree. Their contracts describe each tree by its
//! shape (`shape::TreeShape`): an insert adds a leaf where the search ends,
//! and a delete follows the cases of `TreeShape::deleted`.

pub mod arena;
pub mod bst;
pub mod btree;
pub mod laws;
pub mod node;
pub mod order;
pub mod shape;
