//! Consequences of the tree's structure: a path determines its node.

use vstd::prelude::*;
use crate::arena::Arena;
use crate::occurrence::{lemma_run_at, lemma_run_part};

verus! {

impl<'a, T> Arena<'a, T> {
    /// The path of a node's parent is a proper prefix of the node's path.
    pub(crate) proof fn lemma_parent_pre(&self, v: int)
        requires
            self.structure(),
            0 < v < self.size(),
        ensures
            0 <= self.parent@[v] < self.size(),
            self.pre(self.parent@[v], v),
            0 <= self.depth(self.parent@[v]) < self.depth(v),
            self.depth(v) <= self.n(),
    {
        assert(self.node_ok(v));
        let p = self.parent@[v];
        if p != 0 {
            assert(self.node_ok(p));
        }
    }

    /// The path of a node lies in the sequence; only the root's is empty.
    pub(crate) proof fn lemma_depth(&self, v: int)
        requires
            self.structure(),
            0 <= v < self.size(),
        ensures
            0 <= self.depth(v) <= self.n(),
            0 <= self.head@[v],
            self.head@[v] + self.depth(v) <= self.n(),
            v != 0 ==> self.depth(v) > 0,
            v == 0 ==> self.depth(v) == 0,
            self.pre(v, v),
    {
        if v != 0 {
            assert(self.node_ok(v));
        }
    }

    /// A prefix of a prefix is a prefix.
    pub(crate) proof fn lemma_pre_trans(&self, u: int, v: int, x: int)
        requires
            self.pre(u, v),
            self.pre(v, x),
        ensures
            self.pre(u, x),
    {
        lemma_run_part(self.text(), self.head@[v], self.head@[x], self.depth(v), 0, self.depth(u));
    }

    /// Two prefixes of one path: the shorter is a prefix of the longer.
    pub(crate) proof fn lemma_pre_both(&self, u: int, p: int, x: int)
        requires
            self.pre(u, x),
            self.pre(p, x),
            self.depth(u) <= self.depth(p),
        ensures
            self.pre(u, p),
    {
        lemma_run_part(self.text(), self.head@[p], self.head@[x], self.depth(p), 0, self.depth(u));
    }

    /// Two children of one node whose edges begin alike are one child.
    pub(crate) proof fn lemma_same_kid(&self, a: int, b: int)
        requires
            self.structure(),
            0 < a < self.size(),
            0 < b < self.size(),
            self.parent@[a] == self.parent@[b],
            self.text()[self.start(a)] == self.text()[self.start(b)],
        ensures
            a == b,
    {
        let p = self.parent@[a];
        assert(self.node_ok(a));
        assert(self.node_ok(b));
        assert(self.keys_differ(p));
        let ka = self.slot@[a];
        let kb = self.slot@[b];
        assert(self.kids(p)[ka] == a);
        assert(self.kids(p)[kb] == b);
        if ka < kb {
            assert(false);
        }
        if kb < ka {
            assert(false);
        }
    }

    /// The element with which the edge into `v` begins, read off any path
    /// that the path of `v` is a prefix of.
    pub(crate) proof fn lemma_key_on_path(&self, v: int, x: int)
        requires
            self.structure(),
            0 < v < self.size(),
            self.pre(v, x),
        ensures
            self.text()[self.start(v)] == self.text()[self.head@[x] + self.depth(self.parent@[v])],
            self.depth(self.parent@[v]) < self.depth(x),
    {
        assert(self.node_ok(v));
        lemma_run_at(
            self.text(),
            self.head@[v],
            self.head@[x],
            self.depth(v),
            self.depth(self.parent@[v]),
        );
    }

    /// A node is determined by its path: where the path of `u` is a prefix
    /// of the path of `x`, either the two are one node, or the path of `u` is
    /// already a prefix of the path of the parent of `x`.
    pub(crate) proof fn lemma_path_determines(&self, u: int, x: int)
        requires
            self.structure(),
            0 <= u < self.size(),
            0 <= x < self.size(),
            self.pre(u, x),
        ensures
            self.depth(u) == self.depth(x) ==> u == x,
            self.depth(u) < self.depth(x) ==> x != 0 && self.pre(u, self.parent@[x]),
        decreases self.depth(u) + self.depth(x),
    {
        self.lemma_depth(u);
        self.lemma_depth(x);
        if self.depth(u) == self.depth(x) {
            if self.depth(u) == 0 {
            } else {
                let p = self.parent@[x];
                let q = self.parent@[u];
                self.lemma_parent_pre(x);
                self.lemma_parent_pre(u);
                // q is above u, and so above x; p is above x, and so above u
                self.lemma_pre_trans(q, u, x);
                self.lemma_path_determines(q, x);
                assert(self.pre(x, u)) by {
                    assert(self.text().subrange(self.head@[u], self.head@[u] + self.depth(u))
                        == self.text().subrange(self.head@[x], self.head@[x] + self.depth(u)));
                }
                self.lemma_pre_trans(p, x, u);
                self.lemma_path_determines(p, u);
                self.lemma_path_determines(q, p);
                assert(q == p);
                self.lemma_key_on_path(u, x);
                self.lemma_key_on_path(x, x);
                self.lemma_same_kid(u, x);
            }
        } else {
            assert(x != 0);
            let p = self.parent@[x];
            self.lemma_parent_pre(x);
            if self.depth(u) <= self.depth(p) {
                self.lemma_pre_both(u, p, x);
            } else {
                let q = self.parent@[u];
                self.lemma_parent_pre(u);
                self.lemma_pre_both(p, u, x);
                self.lemma_path_determines(p, u);
                assert(self.pre(p, q));
                if self.depth(p) == self.depth(q) {
                    self.lemma_path_determines(p, q);
                    self.lemma_key_on_path(u, x);
                    self.lemma_key_on_path(x, x);
                    self.lemma_same_kid(u, x);
                    assert(false);
                } else {
                    self.lemma_pre_trans(q, u, x);
                    self.lemma_path_determines(q, x);
                    assert(false);
                }
            }
        }
    }

    /// Below an inner node `u` whose path is a proper prefix of the path of
    /// `x` there is a child whose path is a prefix of it too.
    pub(crate) proof fn lemma_child_toward(&self, u: int, x: int) -> (c: int)
        requires
            self.structure(),
            0 <= u < self.size(),
            0 <= x < self.size(),
            self.pre(u, x),
            self.depth(u) < self.depth(x),
        ensures
            0 < c < self.size(),
            self.parent@[c] == u,
            self.pre(c, x),
            0 <= self.slot@[c] < self.kids(u).len(),
            self.kids(u)[self.slot@[c]] == c,
            self.text()[self.start(c)] == self.text()[self.head@[x] + self.depth(u)],
        decreases self.depth(x),
    {
        self.lemma_depth(u);
        self.lemma_depth(x);
        self.lemma_path_determines(u, x);
        let p = self.parent@[x];
        self.lemma_parent_pre(x);
        let c = if self.depth(u) == self.depth(p) {
            self.lemma_path_determines(u, p);
            x
        } else {
            let c = self.lemma_child_toward(u, p);
            self.lemma_pre_trans(c, p, x);
            c
        };
        assert(self.node_ok(c));
        self.lemma_key_on_path(c, x);
        c
    }

    /// Nothing hangs below a leaf.
    pub(crate) proof fn lemma_leaf_is_last(&self, u: int, x: int)
        requires
            self.structure(),
            0 <= u < self.size(),
            0 <= x < self.size(),
            self.is_leaf(u),
            self.pre(u, x),
        ensures
            u == x,
        decreases self.depth(x),
    {
        self.lemma_path_determines(u, x);
        if self.depth(u) < self.depth(x) {
            self.lemma_parent_pre(x);
            self.lemma_leaf_is_last(u, self.parent@[x]);
            assert(self.node_ok(x));
        }
    }

    /// The leaf of the suffix that begins at `j`.
    pub(crate) proof fn lemma_leaf_at(&self, j: int) -> (x: int)
        requires
            self.structure(),
            0 <= j < self.leaves@.len(),
        ensures
            x == self.leaves@[j],
            0 < x < self.size(),
            self.is_leaf(x),
            self.head@[x] == j,
            self.depth(x) == self.n() - j,
            forall|v: int| self.under(v, j) <==> self.pre(v, x),
    {
        assert(self.leaf_ok(j));
        let x = self.leaves@[j];
        assert(self.node_ok(x));
        x
    }

    /// Where the path of a child stands, the path of its parent stands.
    pub(crate) proof fn lemma_under_up(&self, c: int, j: int)
        requires
            self.structure(),
            0 < c < self.size(),
            self.under(c, j),
        ensures
            self.under(self.parent@[c], j),
            self.text()[self.start(c)] == self.text()[j + self.depth(self.parent@[c])],
    {
        let x = self.lemma_leaf_at(j);
        self.lemma_parent_pre(c);
        self.lemma_pre_trans(self.parent@[c], c, x);
        self.lemma_key_on_path(c, x);
    }

    /// Where the path of an inner node stands at the start of a leaf's
    /// suffix, the path of one of its children stands there too.
    pub(crate) proof fn lemma_under_down(&self, u: int, j: int) -> (c: int)
        requires
            self.structure(),
            0 <= u < self.size(),
            self.under(u, j),
            !self.is_leaf(u),
        ensures
            0 < c < self.size(),
            self.parent@[c] == u,
            0 <= self.slot@[c] < self.kids(u).len(),
            self.kids(u)[self.slot@[c]] == c,
            self.under(c, j),
            j + self.depth(u) < self.n(),
            self.text()[self.start(c)] == self.text()[j + self.depth(u)],
    {
        let x = self.lemma_leaf_at(j);
        self.lemma_path_determines(u, x);
        self.lemma_child_toward(u, x)
    }

    /// A leaf's path stands at the start of its own suffix and at no other
    /// leaf's.
    pub(crate) proof fn lemma_under_leaf(&self, v: int)
        requires
            self.structure(),
            0 < v < self.size(),
            self.is_leaf(v),
        ensures
            forall|j: int| self.under(v, j) <==> j == self.head@[v],
    {
        assert(self.node_ok(v));
        self.lemma_depth(v);
        assert forall|j: int| self.under(v, j) implies j == self.head@[v] by {
            let x = self.lemma_leaf_at(j);
            self.lemma_leaf_is_last(v, x);
        }
    }
}

} // verus!
