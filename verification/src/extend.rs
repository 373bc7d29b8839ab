//! Taking in one more element: the extension of the tree.

use vstd::prelude::*;
use vstd::laws_eq::obeys_concrete_eq;
use crate::arena::Arena;
use crate::node::{EdgeEnd, Node, ROOT};
use crate::occurrence::{
    occurs_at, repeats, same_run, lemma_run_at, lemma_run_part, lemma_run_step, lemma_run_push,
    lemma_run_empty, lemma_repeats_before,
};
use crate::tree::UkkonenTree;

verus! {

impl<'a, T> Arena<'a, T> {
    /// The inner node `p`, made by the last insertion, still waits for its
    /// suffix link. Its path is the `r` elements before the last element of
    /// the sequence; at `pit` the same elements stand and are followed by
    /// another element than the last.
    pub(crate) open spec fn pending_ok(&self, r: int, p: int, pit: int) -> bool {
        let n = self.n();
        &&& 0 < p < self.size()
        &&& !self.is_leaf(p)
        &&& self.nodes@[p].suffix_link == None::<usize>
        &&& 1 <= r
        &&& r + 1 <= n
        &&& self.depth(p) == r
        &&& same_run(self.text(), self.head@[p], n - r - 1, r)
        &&& 0 <= pit
        &&& pit + r < n - 1
        &&& same_run(self.text(), pit, n - r - 1, r)
        &&& self.text()[pit + r] != self.text()[n - 1]
    }
}

/// The nodes that wait for a suffix link.
pub(crate) open spec fn waiting(pending: Option<usize>) -> Set<int> {
    match pending {
        Some(p) => Set::empty().insert(p as int),
        None => Set::empty(),
    }
}

impl<'a, T> UkkonenTree<'a, T> {
    /// What holds during an extension, before each insertion: `remainder`
    /// suffixes wait, the longest of them from `n - remainder` on; all but
    /// its last element is spelled by the active point and stands at
    /// `wit` too, where a leaf's suffix begins.
    pub(crate) open spec fn phase(&self, pending: Option<usize>, wit: int, pit: int) -> bool {
        let n = self.arena.n();
        let r = self.remainder as int;
        &&& self.arena.structure()
        &&& self.arena.links_ok(waiting(pending))
        &&& 1 <= r <= n
        &&& self.arena.leaves@.len() == n - r
        &&& self.cursor(n - r, r - 1)
        &&& r >= 2 ==> 0 <= wit < n - r && same_run(self.arena.text(), wit, n - r, r - 1)
        &&& pending matches Some(p) ==> self.arena.pending_ok(r, p as int, pit)
    }

    /// What holds after an insertion, before the cursor moves on to the next
    /// suffix: the leaf of the longest waiting suffix is there.
    pub(crate) open spec fn inserted(&self, pending: Option<usize>, wit: int, pit: int) -> bool {
        let n = self.arena.n();
        let r = self.remainder as int;
        &&& self.arena.structure()
        &&& self.arena.links_ok(
            if r == 1 {
                Set::empty()
            } else {
                waiting(pending)
            },
        )
        &&& 1 <= r <= n
        &&& self.arena.leaves@.len() == n - r + 1
        &&& self.cursor(n - r, r - 1)
        &&& r >= 2 ==> 0 <= wit < n - r && same_run(self.arena.text(), wit, n - r, r - 1)
        &&& r >= 2 ==> (pending matches Some(p) ==> self.arena.pending_ok(r - 1, p as int, pit))
        &&& self.active_node != 0 ==> self.arena.link_ok(self.active_node as int)
    }

    /// During an extension, while the active point lies inside an edge, that
    /// edge exists: it leads to the child `c` of the active node, on the way
    /// to the leaf of the suffix at `wit`.
    pub(crate) proof fn lemma_active_edge(&self, pending: Option<usize>, wit: int, pit: int) -> (c:
        int)
        requires
            self.phase(pending, wit, pit),
            self.active_length > 0,
        ensures
            0 < c < self.arena.size(),
            self.arena.parent@[c] == self.active_node,
            0 <= self.arena.slot@[c] < self.arena.kids(self.active_node as int).len(),
            self.arena.kids(self.active_node as int)[self.arena.slot@[c]] == c,
            self.active_edge < self.arena.n() - 1,
            self.arena.text()[self.arena.start(c)] == self.arena.text()[self.active_edge as int],
            self.arena.is_leaf(c) ==> self.arena.start(c) + self.active_length < self.arena.n() - 1,
            self.arena.depth(c) <= self.remainder - 1 ==> same_run(
                self.arena.text(),
                self.arena.head@[c],
                self.arena.n() - self.remainder,
                self.arena.depth(c),
            ),
            self.arena.depth(c) >= self.remainder - 1 ==> same_run(
                self.arena.text(),
                self.arena.head@[c],
                self.arena.n() - self.remainder,
                self.remainder - 1,
            ),
    {
        let a = self.arena;
        let t = a.text();
        let n = a.n();
        let r = self.remainder as int;
        let an = self.active_node as int;
        let d = a.depth(an);
        a.lemma_text();
        a.lemma_depth(an);
        let x = a.lemma_leaf_at(wit);
        lemma_run_part(t, wit, n - r, r - 1, 0, d);
        assert(a.pre(an, x));
        let c = a.lemma_child_toward(an, x);
        lemma_run_at(t, wit, n - r, r - 1, d);
        assert(a.node_ok(c));
        if a.is_leaf(c) {
            a.lemma_leaf_is_last(c, x);
        }
        if a.depth(c) <= r - 1 {
            lemma_run_part(t, wit, n - r, r - 1, 0, a.depth(c));
        } else {
            lemma_run_part(t, a.head@[c], wit, a.depth(c), 0, r - 1);
        }
        c
    }

    /// Where a node waits for its suffix link and the element that follows
    /// the active point is the new one, the active point is at a node.
    pub(crate) proof fn lemma_pending_at_node(&self, p: usize, wit: int, pit: int, k: int)
        requires
            self.phase(Some(p), wit, pit),
            0 <= k < self.arena.kids(self.active_node as int).len(),
            self.active_length > 0 ==> self.arena.text()[self.arena.start(
                self.arena.kids(self.active_node as int)[k] as int,
            )] == self.arena.text()[self.active_edge as int],
            self.arena.start(self.arena.kids(self.active_node as int)[k] as int) + self.active_length
                < self.arena.stop(self.arena.kids(self.active_node as int)[k] as int),
            self.arena.text()[self.arena.start(self.arena.kids(self.active_node as int)[k] as int)
                + self.active_length] == self.arena.text()[self.arena.n() - 1],
        ensures
            self.active_length == 0,
    {
        if self.active_length > 0 {
            let a = self.arena;
            let t = a.text();
            let n = a.n();
            let r = self.remainder as int;
            let an = self.active_node as int;
            let d = a.depth(an);
            let w = a.kids(an)[k] as int;
            a.lemma_text();
            a.lemma_depth(an);
            assert(a.kids_ok(an));
            assert(0 < a.kids(an)[k] < a.size());
            assert(a.node_ok(w));
            // the elements before the last stand at pit + 1 too, before another element
            lemma_run_part(t, pit, n - r - 1, r, 1, r - 1);
            let x = a.lemma_leaf_at(pit + 1);
            lemma_run_part(t, pit + 1, n - r, r - 1, 0, d);
            assert(a.pre(an, x));
            let c = a.lemma_child_toward(an, x);
            lemma_run_at(t, pit + 1, n - r, r - 1, d);
            a.lemma_same_kid(c, w);
            lemma_run_at(t, a.head@[w], pit + 1, a.depth(w), r - 1);
            assert(false);
        }
    }

    /// Where no edge goes on from the active point with the new element, the
    /// longest waiting suffix stands at no earlier offset: it gets its leaf.
    /// The active point is either at the active node, below which no edge
    /// begins with the new element, or inside the edge into the child at
    /// place `k`, which goes on with another element.
    pub(crate) proof fn lemma_fresh(&self, pending: Option<usize>, wit: int, pit: int, k: int)
        requires
            self.phase(pending, wit, pit),
            self.active_length == 0 ==> forall|i: int|
                0 <= i < self.arena.kids(self.active_node as int).len() ==> self.arena.text()[self.arena.start(
                    #[trigger] self.arena.kids(self.active_node as int)[i] as int,
                )] != self.arena.text()[self.arena.n() - 1],
            self.active_length > 0 ==> {
                let w = self.arena.kids(self.active_node as int)[k] as int;
                &&& 0 <= k < self.arena.kids(self.active_node as int).len()
                &&& self.arena.text()[self.arena.start(w)] == self.arena.text()[self.active_edge as int]
                &&& self.arena.start(w) + self.active_length < self.arena.stop(w)
                &&& self.arena.text()[self.arena.start(w) + self.active_length]
                    != self.arena.text()[self.arena.n() - 1]
            },
        ensures
            !repeats(self.arena.text(), self.arena.n() - self.remainder),
    {
        let a = self.arena;
        let t = a.text();
        let n = a.n();
        let r = self.remainder as int;
        let an = self.active_node as int;
        let d = a.depth(an);
        a.lemma_text();
        a.lemma_depth(an);
        if repeats(t, n - r) {
            let j = choose|j: int| 0 <= j < n - r && #[trigger] occurs_at(t, t.subrange(n - r, n), j);
            assert(same_run(t, j, n - r, r));
            let x = a.lemma_leaf_at(j);
            lemma_run_part(t, j, n - r, r, 0, d);
            assert(a.pre(an, x));
            let c = a.lemma_child_toward(an, x);
            lemma_run_at(t, j, n - r, r, d);
            if self.active_length == 0 {
                assert(t[a.start(a.kids(an)[a.slot@[c]] as int)] == t[n - 1]);
            } else {
                let w = a.kids(an)[k] as int;
                assert(a.kids_ok(an));
                assert(0 < a.kids(an)[k] < a.size());
                assert(a.node_ok(w));
                a.lemma_same_kid(c, w);
                lemma_run_at(t, a.head@[w], j, a.depth(w), r - 1);
                lemma_run_at(t, j, n - r, r, r - 1);
            }
            assert(false);
        }
    }

    /// After the cursor has moved on from an insertion, the extension goes
    /// on with the next suffix, or is done.
    pub(crate) proof fn lemma_next(o: &Self, s: &Self, pending: Option<usize>, wit: int, pit: int)
        requires
            o.inserted(pending, wit, pit),
            s.arena == o.arena,
            s.remainder == o.remainder - 1,
            s.active_node == o.arena.target(o.active_node as int),
            o.active_node == 0 && o.active_length > 0 ==> s.active_length == o.active_length - 1
                && s.active_edge == o.arena.n() - s.remainder,
            !(o.active_node == 0 && o.active_length > 0) ==> s.active_length == o.active_length
                && s.active_edge == o.active_edge,
        ensures
            s.remainder > 0 ==> s.phase(pending, wit + 1, pit),
            s.remainder == 0 ==> s.inv(),
    {
        let a = o.arena;
        let t = a.text();
        let n = a.n();
        let r = o.remainder as int;
        let an = o.active_node as int;
        a.lemma_text();
        a.lemma_depth(an);
        a.lemma_depth(0);
        if an != 0 {
            let tg = a.target(an);
            a.lemma_depth(tg);
            lemma_run_part(t, a.head@[an], n - r, a.depth(an), 1, a.depth(an) - 1);
        } else {
            lemma_run_empty(t, 0, n - r + 1);
        }
        if r >= 3 {
            lemma_run_part(t, wit, n - r, r - 1, 1, r - 2);
        }
    }

    /// Once the sequence has one more element and one more suffix waits, an
    /// extension can begin. Returns where the waiting suffixes stood before.
    pub(crate) proof fn lemma_taken_in(o: &Self, s: &Self, e: &T) -> (wit: int)
        requires
            o.inv(),
            s.arena.sequence@ == o.arena.sequence@.push(e),
            s.arena.nodes == o.arena.nodes,
            s.arena.parent == o.arena.parent,
            s.arena.head == o.arena.head,
            s.arena.slot == o.arena.slot,
            s.arena.leaves == o.arena.leaves,
            s.remainder == o.remainder + 1,
            s.active_node == o.active_node,
            s.active_edge == o.active_edge,
            s.active_length == o.active_length,
        ensures
            s.arena.text() == o.arena.text().push(*e),
            s.phase(None, wit, 0),
    {
        let a = o.arena;
        let b = s.arena;
        let t = a.text();
        let u = b.text();
        let n = a.n();
        let r = o.remainder as int;
        a.lemma_text();
        b.lemma_text();
        assert(u =~= t.push(*e));
        assert forall|v: int| 0 <= v < a.size() && !a.is_leaf(v) implies b.stop(v) == a.stop(v)
            && b.depth(v) == a.depth(v) by {}
        assert forall|v: int| 0 < v < b.size() implies #[trigger] b.node_ok(v) by {
            assert(a.node_ok(v));
            let p = a.parent@[v];
            a.lemma_depth(p);
            lemma_run_push(t, *e, a.head@[p], a.head@[v], a.depth(p));
        }
        assert forall|x: int| 0 <= x < b.size() implies #[trigger] b.kids_ok(x) by {
            assert(a.kids_ok(x));
        }
        assert forall|x: int| 0 <= x < b.size() implies #[trigger] b.keys_differ(x) by {
            assert(a.keys_differ(x));
            assert(a.kids_ok(x));
            assert forall|k1: int, k2: int| 0 <= k1 < k2 < b.kids(x).len() implies b.text()[b.start(
                #[trigger] b.kids(x)[k1] as int,
            )] != b.text()[b.start(#[trigger] b.kids(x)[k2] as int)] by {
                assert(a.node_ok(a.kids(x)[k1] as int));
                assert(a.node_ok(a.kids(x)[k2] as int));
            }
        }
        assert forall|j: int| 0 <= j < b.leaves@.len() implies #[trigger] b.leaf_ok(j) by {
            assert(a.leaf_ok(j));
        }
        assert forall|v: int|
            0 < v < b.size() && !b.is_leaf(v) && !waiting(None).contains(v) implies #[trigger] b.link_ok(
            v,
        ) by {
            assert(a.link_ok(v));
            let tg = a.target(v);
            a.lemma_depth(tg);
            a.lemma_depth(v);
            lemma_run_push(t, *e, a.head@[tg], a.head@[v] + 1, a.depth(tg));
        }
        assert forall|j: int| 0 <= j < b.leaves@.len() implies !#[trigger] repeats(u, j) by {
            if repeats(u, j) {
                lemma_repeats_before(t, *e, j);
            }
        }
        let an = o.active_node as int;
        a.lemma_depth(an);
        lemma_run_push(t, *e, a.head@[an], n - r, a.depth(an));
        let wit = if r > 0 {
            let j = choose|j: int| 0 <= j < n - r && #[trigger] occurs_at(t, t.subrange(n - r, n), j);
            lemma_run_push(t, *e, j, n - r, r);
            j
        } else {
            0
        };
        wit
    }
}

impl<'a, T: Eq> UkkonenTree<'a, T> {
    /// Gives the node made by the last insertion, if there is one, its
    /// suffix link: it leads to `node_to_link`.
    pub(crate) fn link_created_node(
        &mut self,
        last_created_node: Option<usize>,
        node_to_link: usize,
        Ghost(rest): Ghost<Set<int>>,
    ) -> (linked: Option<usize>)
        requires
            old(self).arena.structure(),
            node_to_link < old(self).arena.size(),
            !old(self).arena.is_leaf(node_to_link as int),
            match last_created_node {
                Some(p) => {
                    &&& 0 < p < old(self).arena.size()
                    &&& !old(self).arena.is_leaf(p as int)
                    &&& old(self).arena.links_ok(rest.insert(p as int))
                    &&& old(self).arena.depth(node_to_link as int) + 1 == old(self).arena.depth(
                        p as int,
                    )
                    &&& same_run(
                        old(self).arena.text(),
                        old(self).arena.head@[node_to_link as int],
                        old(self).arena.head@[p as int] + 1,
                        old(self).arena.depth(node_to_link as int),
                    )
                },
                None => old(self).arena.links_ok(rest),
            },
        ensures
            linked == last_created_node,
            final(self).arena.structure(),
            final(self).arena.links_ok(rest),
            match last_created_node {
                Some(p) => {
                    &&& final(self).arena.relinks(&old(self).arena, p as int)
                    &&& final(self).arena.nodes@[p as int].suffix_link == Some(node_to_link)
                },
                None => final(self).arena == old(self).arena,
            },
            final(self).active_node == old(self).active_node,
            final(self).active_edge == old(self).active_edge,
            final(self).active_length == old(self).active_length,
            final(self).remainder == old(self).remainder,
    {
        match last_created_node {
            Some(p) => {
                self.arena.nodes[p].suffix_link = Some(node_to_link);
                proof {
                    let o = old(self).arena;
                    let s = self.arena;
                    assert(s.text() == o.text());
                    assert forall|v: int| 0 <= v < o.size() implies s.stop(v) == o.stop(v)
                        && s.depth(v) == o.depth(v) && s.kids(v) == o.kids(v) by {}
                    assert forall|v: int| 0 < v < s.size() implies #[trigger] s.node_ok(v) by {
                        assert(o.node_ok(v));
                    }
                    assert forall|u: int| 0 <= u < s.size() implies #[trigger] s.kids_ok(u) by {
                        assert(o.kids_ok(u));
                    }
                    assert forall|u: int| 0 <= u < s.size() implies #[trigger] s.keys_differ(u) by {
                        assert(o.keys_differ(u));
                        assert(o.kids_ok(u));
                    }
                    assert forall|j: int| 0 <= j < s.leaves@.len() implies #[trigger] s.leaf_ok(
                        j,
                    ) by {
                        assert(o.leaf_ok(j));
                    }
                    assert forall|v: int|
                        0 < v < s.size() && !s.is_leaf(v) && !rest.contains(v) implies #[trigger] s.link_ok(
                        v,
                    ) by {
                        if v != p {
                            assert(o.link_ok(v));
                        }
                    }
                }
            },
            None => {},
        }
        last_created_node
    }

    /// Moves the active node along its suffix link, or to the root where it
    /// has none.
    pub(crate) fn update_active_node(&mut self)
        requires
            old(self).active_node < old(self).arena.size(),
        ensures
            final(self).active_node == old(self).arena.target(old(self).active_node as int),
            final(self).arena == old(self).arena,
            final(self).active_edge == old(self).active_edge,
            final(self).active_length == old(self).active_length,
            final(self).remainder == old(self).remainder,
    {
        match self.arena.nodes[self.active_node].suffix_link {
            Some(linked_node) => {
                self.active_node = linked_node;
            },
            None => {
                self.active_node = ROOT;
            },
        }
    }

    /// Where the active length reaches to the end of the edge it runs along
    /// or beyond, moves the active point onto the node at the end of that
    /// edge, and says whether it did. The edge into a leaf is never left.
    ///
    /// The edge is the one below the active node that begins with the
    /// element at `active_edge`; the caller has seen that it is there.
    pub(crate) fn walk_down(
        &mut self,
        Ghost(pending): Ghost<Option<usize>>,
        Ghost(wit): Ghost<int>,
        Ghost(pit): Ghost<int>,
    ) -> (advanced: bool)
        requires
            obeys_concrete_eq::<T>(),
            old(self).phase(pending, wit, pit),
            old(self).active_length == 0 ==> old(self).active_edge == old(self).arena.n() - 1,
            exists|k: int|
                0 <= k < old(self).arena.kids(old(self).active_node as int).len() && old(
                    self,
                ).arena.text()[old(self).arena.start(
                    #[trigger] old(self).arena.kids(old(self).active_node as int)[k] as int,
                )] == old(self).arena.text()[old(self).active_edge as int],
        ensures
            final(self).arena == old(self).arena,
            final(self).remainder == old(self).remainder,
            advanced ==> final(self).phase(pending, wit, pit) && final(self).active_length < old(
                self,
            ).active_length,
            !advanced ==> {
                &&& final(self).active_node == old(self).active_node
                &&& final(self).active_edge == old(self).active_edge
                &&& final(self).active_length == old(self).active_length
            },
            forall|k: int|
                0 <= k < old(self).arena.kids(old(self).active_node as int).len() && old(
                    self,
                ).arena.text()[old(self).arena.start(
                    #[trigger] old(self).arena.kids(old(self).active_node as int)[k] as int,
                )] == old(self).arena.text()[old(self).active_edge as int] ==> {
                    let w = old(self).arena.kids(old(self).active_node as int)[k] as int;
                    let len = old(self).arena.stop(w) - old(self).arena.start(w);
                    &&& advanced == (!old(self).arena.is_leaf(w) && old(self).active_length >= len)
                    &&& advanced ==> {
                        &&& final(self).active_node == w
                        &&& final(self).active_edge == old(self).active_edge + len
                        &&& final(self).active_length == old(self).active_length - len
                    }
                    &&& !advanced ==> {
                        &&& old(self).arena.start(w) + old(self).active_length < old(
                            self,
                        ).arena.stop(w)
                        &&& same_run(
                            old(self).arena.text(),
                            old(self).arena.head@[w],
                            old(self).arena.n() - old(self).remainder,
                            old(self).remainder - 1,
                        )
                    }
                },
    {
        let ghost a = self.arena;
        let ghost t = a.text();
        let ghost an = self.active_node as int;
        let ghost r = self.remainder as int;
        let n = self.arena.sequence.len();
        proof {
            a.lemma_text();
            a.lemma_depth(an);
        }
        let mut advanced = false;
        match self.arena.find_child(self.active_node, self.arena.sequence[self.active_edge]) {
            Some(slot) => {
                let child = self.arena.nodes[self.active_node].children[slot];
                proof {
                    assert(a.kids_ok(an));
                    assert(0 < a.kids(an)[slot as int] < a.size());
                    assert(a.node_ok(child as int));
                    if self.active_length > 0 {
                        let c = self.lemma_active_edge(pending, wit, pit);
                        a.lemma_same_kid(c, child as int);
                    }
                }
                match self.arena.nodes[child].end {
                    EdgeEnd::Fixed(end) => {
                        let edge_length = end - self.arena.nodes[child].start;
                        if self.active_length >= edge_length {
                            self.active_edge = self.active_edge + edge_length;
                            self.active_length -= edge_length;
                            self.active_node = child;
                            advanced = true;
                        }
                    },
                    EdgeEnd::Open => {},
                }
                proof {
                    assert forall|k: int|
                        0 <= k < a.kids(an).len() && t[a.start(#[trigger] a.kids(an)[k] as int)]
                            == t[old(self).active_edge as int] implies a.kids(an)[k] == child by {
                        assert(0 < a.kids(an)[k] < a.size());
                        a.lemma_same_kid(a.kids(an)[k] as int, child as int);
                    }
                }
            },
            None => {
                // the edge is there
                proof {
                    let k = choose|k: int|
                        0 <= k < a.kids(an).len() && t[a.start(#[trigger] a.kids(an)[k] as int)]
                            == t[self.active_edge as int];
                    assert(t[a.start(a.kids(an)[k] as int)] != *self.arena.sequence@[self.active_edge as int]);
                    assert(false);
                }
            },
        }
        advanced
    }

    /// The tree of `sequence`, built by taking in its elements one by one.
    pub fn new(sequence: &'a [T]) -> (tree: Self)
        requires
            obeys_concrete_eq::<T>(),
        ensures
            tree.wf(),
            tree@ == sequence@,
    {
        let mut root = Node::new(0);
        root.end = EdgeEnd::Fixed(0);
        let mut nodes: Vec<Node> = Vec::new();
        nodes.push(root);
        let ghost zero: Seq<int> = Seq::empty().push(0);
        let mut tree = UkkonenTree {
            arena: Arena {
                nodes,
                sequence: Vec::new(),
                parent: Ghost(zero),
                head: Ghost(zero),
                slot: Ghost(zero),
                leaves: Ghost(Seq::empty()),
            },
            active_node: ROOT,
            active_edge: 0,
            active_length: 0,
            remainder: 0,
        };
        proof {
            let a = tree.arena;
            a.lemma_text();
            lemma_run_empty(a.text(), 0, 0);
            assert(a.kids_ok(0));
            assert(a.keys_differ(0));
            assert(a.structure());
            assert(tree.inv());
            tree.lemma_open();
            assert(tree@ =~= sequence@.take(0));
        }
        // the elements stream into the tree
        let mut i: usize = 0;
        while i < sequence.len()
            invariant
                obeys_concrete_eq::<T>(),
                i <= sequence@.len(),
                tree.wf(),
                tree@ == sequence@.take(i as int),
            decreases sequence@.len() - i,
        {
            tree.extend_tree(&sequence[i]);
            proof {
                assert(sequence@.take(i + 1) =~= sequence@.take(i as int).push(sequence@[i as int]));
            }
            i += 1;
        }
        proof {
            assert(sequence@.take(i as int) =~= sequence@);
        }
        tree
    }

    /// Takes in one more element of the sequence.
    ///
    /// One more suffix waits for its leaf. As long as suffixes wait, the
    /// longest of them is looked at: where the tree goes on from the active
    /// point with the new element, the suffix and all shorter ones stay
    /// waiting and the extension ends; where it does not, the suffix gets
    /// its leaf, below the active node or below a new inner node that breaks
    /// the edge at the active point, and the active point moves on to the next
    /// shorter suffix. Each leaf brings at most two new nodes. The nodes that
    /// were there stay, each with its end and its suffix start.
    pub fn extend_tree(&mut self, element: &'a T)
        requires
            obeys_concrete_eq::<T>(),
            old(self).wf(),
        ensures
            final(self).wf(),
            final(self)@ == old(self)@.push(*element),
            final(self).unresolved() <= old(self).unresolved() + 1,
            old(self).nodes().len() <= final(self).nodes().len() <= old(self).nodes().len() + 2 * (
            old(self).unresolved() + 1 - final(self).unresolved()),
            forall|i: int|
                0 <= i < old(self).nodes().len() ==> {
                    &&& (#[trigger] final(self).nodes()[i]).end == old(self).nodes()[i].end
                    &&& final(self).nodes()[i].suffix_start == old(self).nodes()[i].suffix_start
                },
    {
        proof {
            self.lemma_open();
        }
        let ghost before = *self;
        self.arena.sequence.push(element);
        let n = self.arena.sequence.len();
        self.remainder += 1;
        let ghost mut wit: int = 0;
        let ghost mut pit: int = 0;
        proof {
            wit = Self::lemma_taken_in(&before, self, element);
        }
        // the inner node made by the last insertion of this extension
        let mut last_created_node: Option<usize> = None;
        while self.remainder > 0
            invariant_except_break
                self.remainder > 0 ==> self.phase(last_created_node, wit, pit),
            invariant
                obeys_concrete_eq::<T>(),
                self.arena.sequence@ == before.arena.sequence@.push(element),
                n == self.arena.n(),
                self.remainder <= before.remainder + 1,
                before.arena.size() <= self.arena.size() <= before.arena.size() + 2 * (
                before.remainder + 1 - self.remainder),
                forall|v: int|
                    0 <= v < before.arena.size() ==> {
                        &&& (#[trigger] self.arena.nodes@[v]).end == before.arena.nodes@[v].end
                        &&& self.arena.nodes@[v].suffix_start == before.arena.nodes@[v].suffix_start
                    },
                self.remainder == 0 ==> self.inv(),
            ensures
                self.inv(),
                self.arena.sequence@ == before.arena.sequence@.push(element),
            decreases self.remainder, self.active_length,
        {
            let ghost pending = last_created_node;
            let ghost r = self.remainder as int;
            // at a node, the edge to look at is the one that begins with the
            // new element
            if self.active_length == 0 {
                self.active_edge = n - 1;
            }
            proof {
                self.arena.lemma_text();
                self.arena.lemma_depth(self.active_node as int);
                assert(self.phase(pending, wit, pit));
            }
            let ghost a = self.arena;
            let ghost t = a.text();
            let ghost an = self.active_node as int;
            match self.arena.find_child(self.active_node, self.arena.sequence[self.active_edge]) {
                None => {
                    // no such edge: the active point is at the active node,
                    // and the suffix gets its leaf below it
                    proof {
                        if self.active_length > 0 {
                            let c = self.lemma_active_edge(pending, wit, pit);
                            assert(t[a.start(a.kids(an)[a.slot@[c]] as int)] == t[self.active_edge as int]);
                            assert(false);
                        }
                        self.lemma_fresh(pending, wit, pit, 0);
                    }
                    self.arena.attach_leaf(
                        self.active_node,
                        n - 1,
                        n - self.remainder,
                        Ghost(waiting(pending)),
                    );
                    proof {
                        self.arena.lemma_text();
                    }
                    if self.active_node != ROOT {
                        proof {
                            if let Some(p) = pending {
                                lemma_run_part(t, a.head@[p as int], n - r - 1, r, 1, r - 1);
                            }
                        }
                        self.link_created_node(
                            last_created_node,
                            self.active_node,
                            Ghost(Set::empty()),
                        );
                        last_created_node = None;
                    }
                    proof {
                        if self.active_node == 0 {
                            if let Some(p) = pending {
                                lemma_run_empty(t, 0, a.head@[p as int] + 1);
                                assert(self.arena.link_ok(p as int));
                            }
                        }
                        assert(self.inserted(last_created_node, wit, pit));
                    }
                },
                Some(slot) => {
                    proof {
                        assert(t[a.start(a.kids(an)[slot as int] as int)] == t[self.active_edge as int]);
                    }
                    // past the end of the edge, the active point moves down
                    // and the step begins again
                    if self.walk_down(Ghost(pending), Ghost(wit), Ghost(pit)) {
                        continue ;
                    }
                    let child = self.arena.nodes[self.active_node].children[slot];
                    proof {
                        assert(a.kids_ok(an));
                        assert(0 < a.kids(an)[slot as int] < a.size());
                        assert(a.node_ok(child as int));
                        reveal(obeys_concrete_eq);
                    }
                    let at = self.arena.nodes[child].start + self.active_length;
                    if *self.arena.sequence[at] == *element {
                        // the tree goes on with the new element: this suffix
                        // and all shorter ones are in the tree already
                        proof {
                            if let Some(p) = pending {
                                self.lemma_pending_at_node(p, wit, pit, slot as int);
                                lemma_run_part(t, a.head@[p as int], n - r - 1, r, 1, r - 1);
                            }
                        }
                        self.link_created_node(
                            last_created_node,
                            self.active_node,
                            Ghost(Set::empty()),
                        );
                        self.active_length += 1;
                        proof {
                            self.arena.lemma_text();
                            let h = a.head@[child as int];
                            lemma_run_step(t, h, n - r, r - 1);
                            assert(occurs_at(t, t.subrange(n - r, n as int), h));
                            assert(self.inv());
                        }
                        break ;
                    }
                    // the tree goes on with another element: the edge is
                    // broken at the active point, and the leaf hangs there
                    proof {
                        self.lemma_fresh(pending, wit, pit, slot as int);
                    }
                    let inner = self.arena.split_edge(
                        self.active_node,
                        slot,
                        self.active_length,
                        n - 1,
                        n - self.remainder,
                        Ghost(waiting(pending)),
                    );
                    proof {
                        self.arena.lemma_text();
                        if let Some(p) = pending {
                            lemma_run_part(t, a.head@[p as int], n - r - 1, r, 1, r - 1);
                            assert(waiting(pending).insert(inner as int) =~= Set::empty().insert(
                                inner as int,
                            ).insert(p as int));
                        }
                    }
                    self.link_created_node(
                        last_created_node,
                        inner,
                        Ghost(Set::empty().insert(inner as int)),
                    );
                    last_created_node = Some(inner);
                    proof {
                        pit = a.head@[child as int];
                        assert(self.arena.pending_ok(r - 1, inner as int, pit));
                        assert(self.inserted(last_created_node, wit, pit));
                    }
                },
            }
            // the suffix has its leaf; on to the next shorter one
            let ghost mid = *self;
            self.remainder -= 1;
            if self.active_node == ROOT && self.active_length > 0 {
                self.active_edge = n - self.remainder;
                self.active_length -= 1;
            }
            self.update_active_node();
            proof {
                Self::lemma_next(&mid, self, last_created_node, wit, pit);
                wit = wit + 1;
            }
        }
        proof {
            self.lemma_open();
            before.lemma_open();
            before.arena.lemma_text();
            self.arena.lemma_text();
            assert(self.arena.text() =~= before.arena.text().push(*element));
        }
    }
}

} // verus!
