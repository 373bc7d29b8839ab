//! The nodes of the tree together with the sequence that labels their edges,
//! and what it means for the two to form a suffix tree.

use vstd::prelude::*;
use vstd::laws_eq::obeys_concrete_eq;
use crate::node::{EdgeEnd, Node};
use crate::occurrence::{repeats, same_run};

verus! {

/// The sequence taken in so far and the nodes built over it. Node 0 is the
/// root. The elements are borrowed; the nodes name them by index.
pub(crate) struct Arena<'a, T> {
    pub(crate) nodes: Vec<Node>,
    pub(crate) sequence: Vec<&'a T>,
    /// For each node, the node above it.
    pub(crate) parent: Ghost<Seq<int>>,
    /// For each node, an index of the sequence from which its path can be read.
    pub(crate) head: Ghost<Seq<int>>,
    /// For each node, its place among the children of the node above it.
    pub(crate) slot: Ghost<Seq<int>>,
    /// For each suffix that ends in a leaf, that leaf.
    pub(crate) leaves: Ghost<Seq<int>>,
}

impl<'a, T> Arena<'a, T> {
    /// The elements taken in.
    pub(crate) open spec fn text(&self) -> Seq<T> {
        self.sequence@.unref()
    }

    /// The number of elements taken in.
    #[verifier::inline]
    pub(crate) open spec fn n(&self) -> int {
        self.sequence@.len() as int
    }

    /// The number of nodes.
    #[verifier::inline]
    pub(crate) open spec fn size(&self) -> int {
        self.nodes@.len() as int
    }

    /// Where the label of the edge into `v` begins.
    #[verifier::inline]
    pub(crate) open spec fn start(&self, v: int) -> int {
        self.nodes@[v].start as int
    }

    /// Where the label of the edge into `v` stops: for an open end, at the
    /// end of the sequence.
    pub(crate) open spec fn stop(&self, v: int) -> int {
        match self.nodes@[v].end {
            EdgeEnd::Fixed(e) => e as int,
            EdgeEnd::Open => self.n(),
        }
    }

    /// The edge into `v` is open-ended.
    #[verifier::inline]
    pub(crate) open spec fn is_leaf(&self, v: int) -> bool {
        self.nodes@[v].end == EdgeEnd::Open
    }

    /// The children of `v`.
    #[verifier::inline]
    pub(crate) open spec fn kids(&self, v: int) -> Seq<usize> {
        self.nodes@[v].children@
    }

    /// Length of the path from the root to `v`. The path is read off the
    /// sequence from `head[v]` on, and its last part is the label of the edge
    /// into `v`.
    pub(crate) open spec fn depth(&self, v: int) -> int {
        self.stop(v) - self.head@[v]
    }

    /// The path of `u` is a prefix of the path of `x`.
    pub(crate) open spec fn pre(&self, u: int, x: int) -> bool {
        &&& self.depth(u) <= self.depth(x)
        &&& same_run(self.text(), self.head@[u], self.head@[x], self.depth(u))
    }

    /// The path of `v` stands in the sequence at `j`, where a leaf begins.
    pub(crate) open spec fn under(&self, v: int, j: int) -> bool {
        &&& 0 <= j < self.leaves@.len()
        &&& j + self.depth(v) <= self.n()
        &&& same_run(self.text(), self.head@[v], j, self.depth(v))
    }

    /// Where the suffix link of `v` leads; a node without one is taken to
    /// link to the root.
    pub(crate) open spec fn target(&self, v: int) -> int {
        match self.nodes@[v].suffix_link {
            Some(t) => t as int,
            None => 0,
        }
    }

    /// The root has an empty path and no link.
    pub(crate) open spec fn root_ok(&self) -> bool {
        &&& self.nodes@[0].start == 0
        &&& self.nodes@[0].end == EdgeEnd::Fixed(0)
        &&& self.nodes@[0].suffix_link == None::<usize>
        &&& self.nodes@[0].suffix_start == None::<usize>
        &&& self.head@[0] == 0
        &&& self.parent@[0] == 0
    }

    /// The node `v`, which is not the root, hangs below an inner node, at
    /// its place among that node's children. Its label is not empty and lies
    /// in the sequence; before the label, from `head[v]` on, stands the path
    /// of its parent. A leaf has no children and holds the start of its
    /// suffix, which is `head[v]`; an inner node has two children or more.
    pub(crate) open spec fn node_ok(&self, v: int) -> bool {
        let p = self.parent@[v];
        &&& 0 <= p < self.size()
        &&& p != v
        &&& !self.is_leaf(p)
        &&& 0 <= self.head@[v] <= self.start(v)
        &&& self.start(v) < self.stop(v) <= self.n()
        &&& self.head@[v] < self.leaves@.len()
        &&& self.start(v) - self.head@[v] == self.depth(p)
        &&& same_run(self.text(), self.head@[p], self.head@[v], self.depth(p))
        &&& 0 <= self.slot@[v] < self.kids(p).len()
        &&& self.kids(p)[self.slot@[v]] == v
        &&& self.is_leaf(v) ==> self.kids(v).len() == 0
        &&& !self.is_leaf(v) ==> self.kids(v).len() >= 2
        &&& self.is_leaf(v) <==> self.nodes@[v].suffix_start == Some(self.head@[v] as usize)
        &&& self.is_leaf(v) <==> self.nodes@[v].suffix_start is Some
    }

    /// The children of `u` are nodes other than the root that know `u` as
    /// their parent, and their place below it.
    pub(crate) open spec fn kids_ok(&self, u: int) -> bool {
        &&& forall|k: int|
            0 <= k < self.kids(u).len() ==> {
                &&& 0 < #[trigger] self.kids(u)[k] < self.size()
                &&& self.parent@[self.kids(u)[k] as int] == u
                &&& self.slot@[self.kids(u)[k] as int] == k
            }
    }

    /// No two edges below `u` begin with the same element.
    pub(crate) open spec fn keys_differ(&self, u: int) -> bool {
        forall|k1: int, k2: int|
            0 <= k1 < k2 < self.kids(u).len() ==> self.text()[self.start(
                #[trigger] self.kids(u)[k1] as int,
            )] != self.text()[self.start(#[trigger] self.kids(u)[k2] as int)]
    }

    /// The suffix that begins at `j` ends in the leaf `leaves[j]`.
    pub(crate) open spec fn leaf_ok(&self, j: int) -> bool {
        &&& 0 < self.leaves@[j] < self.size()
        &&& self.is_leaf(self.leaves@[j])
        &&& self.head@[self.leaves@[j]] == j
    }

    /// The nodes form a tree whose paths are read off the sequence, whose
    /// edges below one node begin with different elements, and whose leaves
    /// are the suffixes that begin before `leaves.len()`, none of which
    /// stands at an earlier offset. Beside the root there are at most two
    /// nodes for each leaf.
    pub(crate) open spec fn structure(&self) -> bool {
        &&& self.size() >= 1
        &&& self.parent@.len() == self.size()
        &&& self.head@.len() == self.size()
        &&& self.slot@.len() == self.size()
        &&& self.leaves@.len() <= self.n()
        &&& (self.size() == 1 || self.size() <= 2 * self.leaves@.len())
        &&& self.root_ok()
        &&& forall|v: int| 0 < v < self.size() ==> #[trigger] self.node_ok(v)
        &&& forall|u: int| 0 <= u < self.size() ==> #[trigger] self.kids_ok(u)
        &&& forall|u: int| 0 <= u < self.size() ==> #[trigger] self.keys_differ(u)
        &&& forall|j: int| 0 <= j < self.leaves@.len() ==> #[trigger] self.leaf_ok(j)
        &&& forall|j: int| 0 <= j < self.leaves@.len() ==> !#[trigger] repeats(self.text(), j)
    }

    /// This arena has the sequence of `old` and its nodes, each with the end,
    /// the suffix link and the head it had.
    pub(crate) open spec fn keeps(&self, old: &Self) -> bool {
        &&& self.sequence@ == old.sequence@
        &&& self.size() >= old.size()
        &&& forall|v: int|
            0 <= v < old.size() ==> {
                &&& (#[trigger] self.nodes@[v]).end == old.nodes@[v].end
                &&& self.nodes@[v].suffix_link == old.nodes@[v].suffix_link
                &&& self.head@[v] == old.head@[v]
            }
    }

    /// This arena is `old` but for the suffix link of `p`.
    pub(crate) open spec fn relinks(&self, old: &Self, p: int) -> bool {
        &&& self.sequence@ == old.sequence@
        &&& self.size() == old.size()
        &&& self.parent@ == old.parent@
        &&& self.head@ == old.head@
        &&& self.slot@ == old.slot@
        &&& self.leaves@ == old.leaves@
        &&& forall|v: int|
            0 <= v < old.size() ==> {
                &&& (#[trigger] self.nodes@[v]).end == old.nodes@[v].end
                &&& self.nodes@[v].start == old.nodes@[v].start
                &&& self.nodes@[v].children == old.nodes@[v].children
                &&& self.nodes@[v].suffix_start == old.nodes@[v].suffix_start
                &&& v != p ==> self.nodes@[v].suffix_link == old.nodes@[v].suffix_link
            }
    }

    /// The elements of `text()` are those that `sequence` refers to.
    pub(crate) proof fn lemma_text(&self)
        ensures
            self.text().len() == self.n(),
            forall|i: int| 0 <= i < self.n() ==> #[trigger] self.text()[i] == *self.sequence@[i],
    {
    }

    /// The suffix link of `v` leads to the inner node whose path is the path
    /// of `v` without its first element.
    pub(crate) open spec fn link_ok(&self, v: int) -> bool {
        let t = self.target(v);
        &&& 0 <= t < self.size()
        &&& !self.is_leaf(t)
        &&& self.depth(t) + 1 == self.depth(v)
        &&& same_run(self.text(), self.head@[t], self.head@[v] + 1, self.depth(t))
    }

    /// Every inner node but the root and those in `skip` has a suffix link
    /// that leads where it should.
    pub(crate) open spec fn links_ok(&self, skip: Set<int>) -> bool {
        forall|v: int|
            0 < v < self.size() && !self.is_leaf(v) && !skip.contains(v) ==> #[trigger] self.link_ok(
                v,
            )
    }
}

impl<'a, T: Eq> Arena<'a, T> {
    /// The place among the children of `u` of the one whose edge begins with
    /// `key`, if there is one.
    pub(crate) fn find_child(&self, u: usize, key: &T) -> (r: Option<usize>)
        requires
            obeys_concrete_eq::<T>(),
            self.structure(),
            u < self.size(),
        ensures
            match r {
                Some(k) => {
                    &&& k < self.kids(u as int).len()
                    &&& self.text()[self.start(self.kids(u as int)[k as int] as int)] == *key
                },
                None => forall|k: int|
                    0 <= k < self.kids(u as int).len() ==> self.text()[self.start(
                        #[trigger] self.kids(u as int)[k] as int,
                    )] != *key,
            },
    {
        let mut k: usize = 0;
        while k < self.nodes[u].children.len()
            invariant
                obeys_concrete_eq::<T>(),
                self.structure(),
                u < self.size(),
                forall|i: int|
                    0 <= i < k ==> self.text()[self.start(#[trigger] self.kids(u as int)[i] as int)]
                        != *key,
            decreases self.kids(u as int).len() - k,
        {
            let c = self.nodes[u].children[k];
            proof {
                assert(self.kids_ok(u as int));
                assert(0 < self.kids(u as int)[k as int] < self.size());
                assert(self.node_ok(c as int));
                self.lemma_text();
                reveal(obeys_concrete_eq);
            }
            if *self.sequence[self.nodes[c].start] == *key {
                return Some(k);
            }
            k += 1;
        }
        None
    }
}

} // verus!
