//! An online suffix tree over a borrowed sequence of comparable elements.
//!
//! A [`UkkonenTree`] is grown one element at a time with
//! [`UkkonenTree::extend_tree`] and answers at any moment, with
//! [`UkkonenTree::find`], at which offsets a pattern stands in the elements
//! taken in so far.
//!
//! - [`occurrence`] says what it means for a pattern to stand in a sequence;
//!   the contracts of the tree are stated over it.
//! - [`tree`] holds the tree, [`node`] its vertices.
//! - [`laws`] states what holds of every search.
//!
//! The elements are compared with `==`, which must decide whether two
//! elements are the same value (`vstd::laws_eq::obeys_concrete_eq`). The
//! children of a node are held in a list, so looking up the edge that begins
//! with a given element takes as many comparisons as the node has children.

pub mod node;
pub mod occurrence;
pub mod tree;
pub mod laws;

mod arena;
mod shape;
mod grow;
mod extend;
mod search;

pub use node::{EdgeEnd, Node, ROOT};
pub use tree::UkkonenTree;
