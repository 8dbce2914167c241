//! An ordered map and set built on a parent-linked red-black tree.
//!
//! Nodes live in an arena and refer to each other by index; each node keeps
//! a link to its parent and to both children. The tree's in-order sequence of
//! entries is tracked as ghost state, and every operation is proved against
//! that sequence: the links form one binary tree with consistent parent
//! links, the keys ascend in order, each operation changes the map it stands
//! for exactly as its contract says, no red node has a red child, and every
//! path from a node down to a missing child holds the same number of black
//! nodes; hence the tree is at most `2·log₂(n + 1)` high.
pub mod order;
pub mod node;
pub mod tree;
pub mod balance;
pub mod cursor;
pub mod map;
pub mod drain;
pub mod set;
pub mod set_ops;
pub mod height;

pub use map::{RbTreeMap, RedBlackTree};
pub use set::RbTreeSet;
