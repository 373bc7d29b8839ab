//! The three changes that an extension makes to the nodes: a new leaf below
//! a node, a new inner node in the middle of an edge, and a suffix link.

use vstd::prelude::*;
use crate::arena::Arena;
use crate::node::{EdgeEnd, Node};
use crate::occurrence::{repeats, same_run};

verus! {

impl<'a, T> Arena<'a, T> {
    /// Hangs a new leaf below `parent`. Its edge begins at `start`, the last
    /// index of the sequence, and its suffix at `suffix_start`.
    pub(crate) fn attach_leaf(
        &mut self,
        parent: usize,
        start: usize,
        suffix_start: usize,
        Ghost(skip): Ghost<Set<int>>,
    )
        requires
            old(self).structure(),
            old(self).links_ok(skip),
            parent < old(self).size(),
            !old(self).is_leaf(parent as int),
            start + 1 == old(self).n(),
            suffix_start == old(self).leaves@.len(),
            !repeats(old(self).text(), suffix_start as int),
            suffix_start + old(self).depth(parent as int) == start,
            same_run(
                old(self).text(),
                old(self).head@[parent as int],
                suffix_start as int,
                old(self).depth(parent as int),
            ),
            forall|k: int|
                0 <= k < old(self).kids(parent as int).len() ==> old(self).text()[old(self).start(
                    #[trigger] old(self).kids(parent as int)[k] as int,
                )] != old(self).text()[start as int],
        ensures
            final(self).structure(),
            final(self).links_ok(skip),
            final(self).keeps(old(self)),
            final(self).size() == old(self).size() + 1,
            final(self).leaves@.len() == old(self).leaves@.len() + 1,
            final(self).nodes@[old(self).size()].start == start,
            final(self).nodes@[old(self).size()].end == EdgeEnd::Open,
            final(self).nodes@[old(self).size()].suffix_start == Some(suffix_start),
            final(self).nodes@[old(self).size()].suffix_link == None::<usize>,
            final(self).kids(old(self).size()) == Seq::<usize>::empty(),
            final(self).kids(parent as int) == old(self).kids(parent as int).push(
                old(self).size() as usize,
            ),
            forall|v: int|
                0 <= v < old(self).size() ==> {
                    &&& (#[trigger] final(self).nodes@[v]).start == old(self).nodes@[v].start
                    &&& final(self).nodes@[v].suffix_start == old(self).nodes@[v].suffix_start
                    &&& v != parent ==> final(self).nodes@[v].children == old(self).nodes@[v].children
                },
    {
        let id = self.nodes.len();
        let mut leaf = Node::new(start);
        leaf.suffix_start = Some(suffix_start);
        self.nodes.push(leaf);
        self.nodes[parent].children.push(id);
        proof {
            let place = old(self).kids(parent as int).len() as int;
            self.parent@ = self.parent@.push(parent as int);
            self.head@ = self.head@.push(suffix_start as int);
            self.slot@ = self.slot@.push(place);
            self.leaves@ = self.leaves@.push(id as int);
            let o = *old(self);
            let s = *self;
            assert(s.text() == o.text());
            assert forall|v: int| 0 <= v < o.size() implies s.stop(v) == o.stop(v) && s.depth(v)
                == o.depth(v) && s.start(v) == o.start(v) by {}
            assert forall|v: int| 0 < v < s.size() implies #[trigger] s.node_ok(v) by {
                if v < o.size() {
                    assert(o.node_ok(v));
                    let p = o.parent@[v];
                    assert(s.kids(p)[s.slot@[v]] == v);
                } else {
                    assert(s.kids(parent as int)[place] == id);
                }
            }
            assert forall|u: int| 0 <= u < s.size() implies #[trigger] s.kids_ok(u) by {
                if u < o.size() {
                    assert(o.kids_ok(u));
                    assert forall|k: int| 0 <= k < s.kids(u).len() implies {
                        &&& 0 < #[trigger] s.kids(u)[k] < s.size()
                        &&& s.parent@[s.kids(u)[k] as int] == u
                        &&& s.slot@[s.kids(u)[k] as int] == k
                    } by {
                        if u == parent && k == place {
                        } else {
                            assert(s.kids(u)[k] == o.kids(u)[k]);
                        }
                    }
                }
            }
            assert forall|u: int| 0 <= u < s.size() implies #[trigger] s.keys_differ(u) by {
                if u < o.size() {
                    assert(o.keys_differ(u));
                    assert(o.kids_ok(u));
                    assert forall|k1: int, k2: int| 0 <= k1 < k2 < s.kids(u).len() implies s.text()[s.start(
                        #[trigger] s.kids(u)[k1] as int,
                    )] != s.text()[s.start(#[trigger] s.kids(u)[k2] as int)] by {
                        assert(s.kids(u)[k1] == o.kids(u)[k1]);
                        if u == parent && k2 == place {
                        } else {
                            assert(s.kids(u)[k2] == o.kids(u)[k2]);
                        }
                    }
                }
            }
            assert forall|j: int| 0 <= j < s.leaves@.len() implies #[trigger] s.leaf_ok(j) by {
                if j < o.leaves@.len() {
                    assert(o.leaf_ok(j));
                }
            }
            assert forall|v: int|
                0 < v < s.size() && !s.is_leaf(v) && !skip.contains(v) implies #[trigger] s.link_ok(
                v,
            ) by {
                assert(o.link_ok(v));
            }
        }
    }

    /// Breaks the edge into the child at place `slot` below `parent` after
    /// `len` elements: a new inner node takes the first `len` elements of the
    /// label, and below it hang the old child with the rest of the label and
    /// a new leaf, whose edge begins at `start`, the last index of the
    /// sequence, and whose suffix begins at `suffix_start`. Returns the new
    /// inner node.
    pub(crate) fn split_edge(
        &mut self,
        parent: usize,
        slot: usize,
        len: usize,
        start: usize,
        suffix_start: usize,
        Ghost(skip): Ghost<Set<int>>,
    ) -> (inner: usize)
        requires
            old(self).structure(),
            old(self).links_ok(skip),
            parent < old(self).size(),
            slot < old(self).kids(parent as int).len(),
            0 < len,
            old(self).start(old(self).kids(parent as int)[slot as int] as int) + len < old(self).stop(
                old(self).kids(parent as int)[slot as int] as int,
            ),
            start + 1 == old(self).n(),
            suffix_start == old(self).leaves@.len(),
            !repeats(old(self).text(), suffix_start as int),
            suffix_start + old(self).depth(parent as int) + len == start,
            same_run(
                old(self).text(),
                old(self).head@[old(self).kids(parent as int)[slot as int] as int],
                suffix_start as int,
                old(self).depth(parent as int) + len,
            ),
            old(self).text()[old(self).start(old(self).kids(parent as int)[slot as int] as int) + len]
                != old(self).text()[start as int],
        ensures
            final(self).structure(),
            final(self).links_ok(skip.insert(inner as int)),
            final(self).keeps(old(self)),
            inner == old(self).size() + 1,
            final(self).size() == old(self).size() + 2,
            final(self).leaves@.len() == old(self).leaves@.len() + 1,
            !final(self).is_leaf(inner as int),
            final(self).nodes@[inner as int].suffix_link == None::<usize>,
            final(self).depth(inner as int) == old(self).depth(parent as int) + len,
            final(self).head@[inner as int] == old(self).head@[old(self).kids(
                parent as int,
            )[slot as int] as int],
            final(self).nodes@[old(self).size()].start == start,
            final(self).nodes@[old(self).size()].end == EdgeEnd::Open,
            final(self).nodes@[old(self).size()].suffix_start == Some(suffix_start),
            final(self).nodes@[old(self).size()].suffix_link == None::<usize>,
            final(self).kids(old(self).size()) == Seq::<usize>::empty(),
            final(self).nodes@[inner as int].start == old(self).start(
                old(self).kids(parent as int)[slot as int] as int,
            ),
            final(self).nodes@[inner as int].end == EdgeEnd::Fixed(
                (old(self).start(old(self).kids(parent as int)[slot as int] as int) + len) as usize,
            ),
            final(self).nodes@[inner as int].suffix_start == None::<usize>,
            final(self).kids(inner as int) == Seq::<usize>::empty().push(
                old(self).kids(parent as int)[slot as int],
            ).push(old(self).size() as usize),
            final(self).kids(parent as int) == old(self).kids(parent as int).update(
                slot as int,
                inner,
            ),
            final(self).start(old(self).kids(parent as int)[slot as int] as int) == old(self).start(
                old(self).kids(parent as int)[slot as int] as int,
            ) + len,
            forall|v: int|
                0 <= v < old(self).size() ==> {
                    &&& v != old(self).kids(parent as int)[slot as int] ==> (
                    #[trigger] final(self).nodes@[v]).start == old(self).nodes@[v].start
                    &&& final(self).nodes@[v].suffix_start == old(self).nodes@[v].suffix_start
                    &&& v != parent ==> final(self).nodes@[v].children == old(self).nodes@[v].children
                },
    {
        let child = self.nodes[parent].children[slot];
        proof {
            assert(self.kids_ok(parent as int));
            assert(0 < self.kids(parent as int)[slot as int] < self.size());
            assert(self.node_ok(child as int));
        }
        let child_start = self.nodes[child].start;
        let cut = child_start + len;

        let leaf_id = self.nodes.len();
        let mut leaf = Node::new(start);
        leaf.suffix_start = Some(suffix_start);
        self.nodes.push(leaf);

        let inner_id = self.nodes.len();
        let mut inner = Node::new(child_start);
        inner.end = EdgeEnd::Fixed(cut);
        inner.children.push(child);
        inner.children.push(leaf_id);
        self.nodes.push(inner);

        self.nodes[child].start = cut;
        self.nodes[parent].children[slot] = inner_id;
        proof {
            let o = *old(self);
            let w = child as int;
            let m = inner_id as int;
            let l = leaf_id as int;
            let pa = parent as int;
            self.parent@ = self.parent@.update(w, m).push(m).push(pa);
            self.head@ = self.head@.push(suffix_start as int).push(o.head@[w]);
            self.slot@ = self.slot@.update(w, 0).push(1).push(slot as int);
            self.leaves@ = self.leaves@.push(l);
            let s = *self;
            assert(s.text() == o.text());
            assert(s.kids(m) =~= seq![child, leaf_id]);
            assert forall|v: int| 0 <= v < o.size() implies s.stop(v) == o.stop(v) && s.depth(v)
                == o.depth(v) && (v != w ==> s.start(v) == o.start(v)) && (v != pa ==> s.kids(v)
                == o.kids(v)) by {}
            assert forall|k: int| 0 <= k < o.kids(pa).len() && k != slot implies #[trigger] o.kids(
                pa,
            )[k] != child && s.kids(pa)[k] == o.kids(pa)[k] by {}
            assert forall|v: int| 0 < v < s.size() implies #[trigger] s.node_ok(v) by {
                if v < o.size() {
                    assert(o.node_ok(v));
                    if v != w {
                        let p = o.parent@[v];
                        assert(o.kids_ok(p));
                        assert(s.kids(p)[s.slot@[v]] == v);
                    }
                }
            }
            assert forall|u: int| 0 <= u < s.size() implies #[trigger] s.kids_ok(u) by {
                if u < o.size() {
                    assert(o.kids_ok(u));
                    assert forall|k: int| 0 <= k < s.kids(u).len() implies {
                        &&& 0 < #[trigger] s.kids(u)[k] < s.size()
                        &&& s.parent@[s.kids(u)[k] as int] == u
                        &&& s.slot@[s.kids(u)[k] as int] == k
                    } by {
                        if u == pa && k == slot {
                        } else {
                            assert(s.kids(u)[k] == o.kids(u)[k]);
                            assert(o.kids(u)[k] != child);
                        }
                    }
                }
            }
            assert forall|u: int| 0 <= u < s.size() implies #[trigger] s.keys_differ(u) by {
                if u < o.size() {
                    assert(o.keys_differ(u));
                    assert(o.kids_ok(u));
                    assert forall|k1: int, k2: int| 0 <= k1 < k2 < s.kids(u).len() implies s.text()[s.start(
                        #[trigger] s.kids(u)[k1] as int,
                    )] != s.text()[s.start(#[trigger] s.kids(u)[k2] as int)] by {
                        assert(0 < o.kids(u)[k1] < o.size());
                        assert(0 < o.kids(u)[k2] < o.size());
                        if u == pa {
                            if k1 != slot {
                                assert(s.kids(u)[k1] == o.kids(u)[k1]);
                            }
                            if k2 != slot {
                                assert(s.kids(u)[k2] == o.kids(u)[k2]);
                            }
                        } else {
                            assert(o.kids(u)[k1] != child);
                            assert(o.kids(u)[k2] != child);
                        }
                    }
                } else if u == m {
                    assert forall|k1: int, k2: int| 0 <= k1 < k2 < s.kids(u).len() implies s.text()[s.start(
                        #[trigger] s.kids(u)[k1] as int,
                    )] != s.text()[s.start(#[trigger] s.kids(u)[k2] as int)] by {
                        assert(k1 == 0 && k2 == 1);
                    }
                }
            }
            assert forall|j: int| 0 <= j < s.leaves@.len() implies #[trigger] s.leaf_ok(j) by {
                if j < o.leaves@.len() {
                    assert(o.leaf_ok(j));
                }
            }
            assert forall|v: int|
                0 < v < s.size() && !s.is_leaf(v) && !skip.insert(m).contains(v) implies #[trigger] s.link_ok(
                v,
            ) by {
                assert(o.link_ok(v));
            }
        }
        inner_id
    }
}

} // verus!
