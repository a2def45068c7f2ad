//! An in-memory ordered map: a balanced multiway search tree holding keyed
//! items, with node-splitting insertion, node-rebalancing removal, and an
//! indented textual dump. The contracts speak of the in-order key traversal
//! and the structural invariants of the tree.

pub mod item;
pub mod laws;
pub mod model;
pub mod node;
pub mod render;
pub mod tree;
