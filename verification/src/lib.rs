//! A weighted, self-balancing interval tree.
//!
//! The tree attaches property sets to contiguous spans of an ordered sequence
//! of unit positions, such as the text of a buffer or a string. Every node
//! owns one span and both of its subtrees; the weight of a node is the length
//! of its own span plus the weights of its children, so the node that owns a
//! position is found by a search over weights.
//!
//! The meaning of a tree is the sequence of its spans in order ([`Span`]),
//! which is the view of an [`Interval`]. Rotations and balancing leave that
//! sequence as it is; a split divides one span, a removal drops one.
//!
//! A node owns its children, so no node can reach its parent by itself. A
//! node is named from an ancestor by the path of [`Side`] steps that lead
//! down to it, and walks that go up a tree start from such an ancestor.
//!
//! The modules:
//! - `node`, `properties`, `container`, `error`: the plain data.
//! - `interval`: the tree cell, its model and the queries on one node.
//! - `path`: paths, the owner of a position, neighbours, cached positions.
//! - `rotate`: the two rotations, in place and by value.
//! - `balance`: balancing by weight.
//! - `navigate`: `find`, `next`, `prev`, `update` and `locate`.
//! - `access`: the node at a path, by shared and by mutable reference.
//! - `edit`: `split_left`, `split_right`, `delete` and `merge_left`.
//! - `iter`: walks over all nodes.
//! - `laws`: what holds between the operations.

pub mod access;
pub mod balance;
pub mod container;
pub mod edit;
pub mod error;
pub mod interval;
pub mod iter;
pub mod laws;
pub mod navigate;
pub mod node;
pub mod path;
pub mod properties;
pub mod rotate;

pub use container::{Container, ContainerKind};
pub use error::IntervalError;
pub use interval::Interval;
pub use iter::{IntoIter, Iter, IterMut};
pub use node::{Node, Parent, Side, Span};
pub use properties::{Property, PropertyList};
