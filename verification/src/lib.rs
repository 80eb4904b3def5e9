//! An unbalanced binary search tree over `i32` keys, stored in an arena.
//!
//! Every vertex occupies one slot of a `Vec<BstNode>` and names its parent and
//! its two children by slot index.  A child link owns the subtree below it; the
//! parent link is a plain back-reference that is only ever followed upward.
//! Equal keys are allowed: a key that ties with a vertex is placed to its right.
//!
//! - `node`: the node type and the raw primitives that create and attach nodes.
//! - `shape`: the outline of a tree, the model that all contracts speak of.
//! - `links`: what it means that an arena draws a shape, in order, and the
//!   lemmas on arenas that change in a few slots.
//! - `search`: search, minimum and maximum below a node.
//! - `climb`: the way up: the root above a node and the successor.
//! - `nil`: the nil test and the short successor walk built on it.
//! - `insertion`, `deletion`: what the two updates do to the shape.
//! - `tree`: the tree itself, with insertion and deletion.
//! - `laws`: what holds of every well-formed tree.

pub mod climb;
pub mod deletion;
pub mod insertion;
pub mod laws;
pub mod links;
pub mod nil;
pub mod node;
pub mod search;
pub mod shape;
pub mod tree;
