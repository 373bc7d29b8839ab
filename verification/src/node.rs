//! The vertices of the tree.

use vstd::prelude::*;

verus! {

/// The index of the root in the arena.
pub const ROOT: usize = 0;

/// Where the label of the edge that leads into a node stops.
#[derive(Clone, Copy, Debug, PartialEq, Eq, Structural)]
pub enum EdgeEnd {
    /// The label stops before this index of the sequence.
    Fixed(usize),
    /// The label runs to the end of the sequence, however long it has become.
    Open,
}

/// A vertex of the tree, held in an arena and named by its index there.
///
/// The edge that leads into the node is labelled by the elements of the
/// sequence from `start` up to `end`.
pub struct Node {
    /// The children, each named by its index in the arena. No two of them
    /// have edges that begin with equal elements.
    pub children: Vec<usize>,
    /// The node whose path is this node's path without its first element.
    pub suffix_link: Option<usize>,
    /// Index of the first element of the edge label.
    pub start: usize,
    /// End of the edge label.
    pub end: EdgeEnd,
    /// For a leaf, the index at which its suffix begins.
    pub suffix_start: Option<usize>,
}

impl Node {
    /// A node without children or suffix link, whose edge begins at
    /// `start_idx` and is open-ended.
    pub fn new(start_idx: usize) -> (node: Self)
        ensures
            node.children@ == Seq::<usize>::empty(),
            node.suffix_link == None::<usize>,
            node.start == start_idx,
            node.end == EdgeEnd::Open,
            node.suffix_start == None::<usize>,
    {
        Node {
            children: Vec::new(),
            suffix_link: None,
            start: start_idx,
            end: EdgeEnd::Open,
            suffix_start: None,
        }
    }
}

} // verus!
