//! The suffix tree with its construction cursor.

use vstd::prelude::*;
use crate::arena::Arena;
use crate::node::{EdgeEnd, Node};
use crate::occurrence::{occurs_at, repeats, same_run, lemma_run_part};

verus! {

/// A suffix tree over the elements taken in so far.
///
/// Besides the nodes it holds the cursor of the construction: the active
/// point, and the number of suffixes at the end of the sequence that do not
/// yet end in a leaf of their own.
pub struct UkkonenTree<'a, T> {
    pub(crate) arena: Arena<'a, T>,
    pub(crate) active_node: usize,
    pub(crate) active_edge: usize,
    pub(crate) active_length: usize,
    pub(crate) remainder: usize,
}

impl<'a, T> UkkonenTree<'a, T> {
    /// The sequence that the tree has taken in.
    pub closed spec fn view(&self) -> Seq<T> {
        self.arena.text()
    }

    /// The tree is a suffix tree of its sequence and its cursor is in place.
    pub closed spec fn wf(&self) -> bool {
        self.inv()
    }

    /// The active point spells the `len` elements of the sequence from `lo`
    /// on: the path of the active node, then `active_length` elements along
    /// the edge that begins with the element at `active_edge`.
    pub(crate) open spec fn cursor(&self, lo: int, len: int) -> bool {
        let a = self.active_node as int;
        &&& 0 <= a < self.arena.size()
        &&& !self.arena.is_leaf(a)
        &&& 0 <= lo
        &&& lo + len <= self.arena.n()
        &&& self.arena.depth(a) + self.active_length == len
        &&& same_run(self.arena.text(), self.arena.head@[a], lo, self.arena.depth(a))
        &&& self.active_length > 0 ==> self.active_edge == lo + self.arena.depth(a)
    }

    /// What holds between two extensions: the nodes form a suffix tree with
    /// all its suffix links, the last `remainder` suffixes have no leaf yet,
    /// the active point spells the longest of them, and that suffix stands
    /// at an earlier offset too.
    pub(crate) open spec fn inv(&self) -> bool {
        let n = self.arena.n();
        let r = self.remainder as int;
        &&& self.arena.structure()
        &&& self.arena.links_ok(Set::empty())
        &&& r <= n
        &&& self.arena.leaves@.len() == n - r
        &&& self.cursor(n - r, r)
        &&& r > 0 ==> exists|j: int|
            0 <= j < n - r && #[trigger] occurs_at(
                self.arena.text(),
                self.arena.text().subrange(n - r, n),
                j,
            )
    }

    /// The nodes of the tree. The root comes first.
    pub closed spec fn nodes(&self) -> Seq<Node> {
        self.arena.nodes@
    }

    /// What the public names stand for.
    pub(crate) proof fn lemma_open(&self)
        ensures
            self@ == self.arena.text(),
            self.wf() == self.inv(),
            self.nodes() == self.arena.nodes@,
            self.unresolved() == self.remainder,
    {
    }

    /// The suffix that begins at `j` ends in a leaf.
    pub open spec fn has_leaf(&self, j: int) -> bool {
        exists|i: int|
            0 < i < self.nodes().len() && (#[trigger] self.nodes()[i]).end == EdgeEnd::Open
                && self.nodes()[i].suffix_start == Some(j as usize)
    }

    /// The number of suffixes at the end of the sequence that do not yet end
    /// in a leaf of their own.
    pub closed spec fn unresolved(&self) -> nat {
        self.remainder as nat
    }

    /// The suffixes that do not yet end in a leaf are those that stand at an
    /// earlier offset too: the suffix that begins at `i` is one of the last
    /// `unresolved()` if and only if it repeats.
    pub proof fn lemma_unresolved(&self, i: int)
        requires
            self.wf(),
            0 <= i < self@.len(),
        ensures
            self.unresolved() <= self@.len(),
            repeats(self@, i) <==> i >= self@.len() - self.unresolved(),
    {
        let a = self.arena;
        let t = a.text();
        let n = a.n();
        let r = self.remainder as int;
        a.lemma_text();
        if i >= n - r {
            let j = choose|j: int| 0 <= j < n - r && #[trigger] occurs_at(t, t.subrange(n - r, n), j);
            let d = i - (n - r);
            lemma_run_part(t, j, n - r, r, d, r - d);
            assert(occurs_at(t, t.subrange(i, n), j + d));
        }
    }

    /// The shape of the nodes. The root is there, and beside it at most
    /// `2n - 1` nodes for a sequence of `n` elements. The children of every
    /// node are nodes other than the root. A node whose edge is open-ended is
    /// a leaf: it has no children, and holds the start of its suffix, which
    /// is not among the last `unresolved()`. Any other node but the root has
    /// a label that is not empty and at least two children. Every suffix but
    /// the last `unresolved()` has its leaf.
    pub proof fn lemma_nodes(&self)
        requires
            self.wf(),
        ensures
            self.nodes().len() >= 1,
            self.nodes().len() == 1 || self.nodes().len() <= 2 * self@.len(),
            self.nodes()[0].end == EdgeEnd::Fixed(0),
            forall|i: int, k: int|
                0 <= i < self.nodes().len() && 0 <= k < self.nodes()[i].children@.len() ==> 0
                    < #[trigger] self.nodes()[i].children@[k] < self.nodes().len(),
            forall|i: int|
                0 < i < self.nodes().len() ==> match (#[trigger] self.nodes()[i]).end {
                    EdgeEnd::Open => {
                        &&& self.nodes()[i].children@.len() == 0
                        &&& self.nodes()[i].suffix_start is Some
                        &&& self.nodes()[i].suffix_start->0 <= self.nodes()[i].start < self@.len()
                        &&& self.nodes()[i].suffix_start->0 < self@.len() - self.unresolved()
                    },
                    EdgeEnd::Fixed(end) => {
                        &&& self.nodes()[i].children@.len() >= 2
                        &&& self.nodes()[i].suffix_start is None
                        &&& self.nodes()[i].start < end <= self@.len()
                    },
                },
            forall|j: int| 0 <= j < self@.len() - self.unresolved() ==> #[trigger] self.has_leaf(j),
    {
        let a = self.arena;
        a.lemma_text();
        assert forall|i: int, k: int|
            0 <= i < self.nodes().len() && 0 <= k < self.nodes()[i].children@.len() implies 0
            < #[trigger] self.nodes()[i].children@[k] < self.nodes().len() by {
            assert(a.kids_ok(i));
        }
        assert forall|i: int| 0 < i < self.nodes().len() implies match (#[trigger] self.nodes()[i]).end {
            EdgeEnd::Open => {
                &&& self.nodes()[i].children@.len() == 0
                &&& self.nodes()[i].suffix_start is Some
                &&& self.nodes()[i].suffix_start->0 <= self.nodes()[i].start < self@.len()
                &&& self.nodes()[i].suffix_start->0 < self@.len() - self.unresolved()
            },
            EdgeEnd::Fixed(end) => {
                &&& self.nodes()[i].children@.len() >= 2
                &&& self.nodes()[i].suffix_start is None
                &&& self.nodes()[i].start < end <= self@.len()
            },
        } by {
            assert(a.node_ok(i));
        }
        assert forall|j: int| 0 <= j < self@.len() - self.unresolved() implies #[trigger] self.has_leaf(
            j,
        ) by {
            assert(a.leaf_ok(j));
            let x = a.leaves@[j];
            assert(a.node_ok(x));
            assert(self.nodes()[x].suffix_start == Some(j as usize));
        }
    }

    /// The number of elements taken in.
    pub fn len(&self) -> (n: usize)
        ensures
            n == self@.len(),
    {
        proof {
            self.arena.lemma_text();
        }
        self.arena.sequence.len()
    }

    /// The element at `index` of the sequence, if the sequence is that long.
    pub fn element(&self, index: usize) -> (e: Option<&'a T>)
        ensures
            match e {
                Some(x) => index < self@.len() && *x == self@[index as int],
                None => index >= self@.len(),
            },
    {
        proof {
            self.arena.lemma_text();
        }
        if index < self.arena.sequence.len() {
            Some(self.arena.sequence[index])
        } else {
            None
        }
    }

    /// The number of suffixes at the end of the sequence that do not yet end
    /// in a leaf of their own.
    pub fn remainder(&self) -> (r: usize)
        ensures
            r == self.unresolved(),
    {
        self.remainder
    }

    /// The number of nodes, the root among them.
    pub fn node_count(&self) -> (count: usize)
        ensures
            count == self.nodes().len(),
    {
        self.arena.nodes.len()
    }

    /// The node at `index`, if there is one. The root is at index 0.
    pub fn node(&self, index: usize) -> (node: Option<&Node>)
        ensures
            match node {
                Some(x) => index < self.nodes().len() && *x == self.nodes()[index as int],
                None => index >= self.nodes().len(),
            },
    {
        if index < self.arena.nodes.len() {
            Some(&self.arena.nodes[index])
        } else {
            None
        }
    }
}

} // verus!
