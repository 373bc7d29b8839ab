//! Looking a pattern up in the tree.

use vstd::prelude::*;
use vstd::laws_eq::obeys_concrete_eq;
use crate::arena::Arena;
use crate::node::{EdgeEnd, ROOT};
use crate::occurrence::{
    occurs_at, occurrences, occurrences_before, positions, lemma_run_empty, lemma_run_part,
};
use crate::tree::UkkonenTree;

verus! {

impl<'a, T> Arena<'a, T> {
    /// The path of one of the first `k` children of `node` stands at `j`.
    pub(crate) open spec fn below(&self, node: int, k: int, j: int) -> bool {
        exists|i: int| 0 <= i < k && #[trigger] self.under(self.kids(node)[i] as int, j)
    }

    /// From `from` on, `out` lists once each the starts of the leaves'
    /// suffixes at which the path of `node` stands.
    pub(crate) open spec fn lists(&self, node: int, out: Seq<usize>, from: int) -> bool {
        &&& forall|i: int| from <= i < out.len() ==> self.under(node, #[trigger] out[i] as int)
        &&& forall|i1: int, i2: int|
            from <= i1 < i2 < out.len() ==> #[trigger] out[i1] != #[trigger] out[i2]
        &&& forall|j: int|
            self.under(node, j) ==> exists|i: int| from <= i < out.len() && #[trigger] out[i] == j
    }
}

/// `out` lists once each the offsets before `bound` at which `pattern` stands
/// in `text`.
pub(crate) open spec fn found<T>(text: Seq<T>, pattern: Seq<T>, out: Seq<usize>, bound: int) -> bool {
    &&& forall|i: int|
        0 <= i < out.len() ==> (#[trigger] out[i]) < bound && occurs_at(text, pattern, out[i] as int)
    &&& forall|i1: int, i2: int|
        0 <= i1 < i2 < out.len() ==> #[trigger] out[i1] != #[trigger] out[i2]
    &&& forall|j: int|
        0 <= j < bound && #[trigger] occurs_at(text, pattern, j) ==> exists|i: int|
            0 <= i < out.len() && #[trigger] out[i] == j
}

/// A list of the offsets before `bound` at which `pattern` stands, each once.
pub(crate) proof fn lemma_found<T>(text: Seq<T>, pattern: Seq<T>, out: Seq<usize>, bound: int)
    requires
        found(text, pattern, out, bound),
    ensures
        out.no_duplicates(),
        positions(out) == occurrences_before(text, pattern, bound),
{
    assert forall|j: int|
        positions(out).contains(j) <==> occurrences_before(text, pattern, bound).contains(j) by {
        if positions(out).contains(j) {
            let i = choose|i: int| 0 <= i < out.len() && out[i] == j as usize;
            assert(occurs_at(text, pattern, out[i] as int));
        }
        if j < bound && occurs_at(text, pattern, j) {
            let i = choose|i: int| 0 <= i < out.len() && #[trigger] out[i] == j;
            assert(out.contains(j as usize));
        }
    }
    assert(positions(out) =~= occurrences_before(text, pattern, bound));
}

/// The same, from the set of the offsets back to the list.
pub(crate) proof fn lemma_found_back<T>(text: Seq<T>, pattern: Seq<T>, out: Seq<usize>, bound: int)
    requires
        out.no_duplicates(),
        positions(out) == occurrences_before(text, pattern, bound),
    ensures
        found(text, pattern, out, bound),
{
    assert forall|i: int| 0 <= i < out.len() implies (#[trigger] out[i]) < bound && occurs_at(
        text,
        pattern,
        out[i] as int,
    ) by {
        assert(out.contains(out[i]));
        assert(positions(out).contains(out[i] as int));
    }
    assert forall|j: int| 0 <= j < bound && #[trigger] occurs_at(text, pattern, j) implies exists|
        i: int,
    | 0 <= i < out.len() && #[trigger] out[i] == j by {
        assert(occurrences_before(text, pattern, bound).contains(j));
        assert(positions(out).contains(j));
        let i = choose|i: int| 0 <= i < out.len() && out[i] == j as usize;
        assert(out[i] == j);
    }
}

/// A list of all the offsets at which `pattern` stands, each once.
pub(crate) proof fn lemma_found_all<T>(text: Seq<T>, pattern: Seq<T>, out: Seq<usize>, bound: int)
    requires
        found(text, pattern, out, bound),
        forall|j: int| occurs_at(text, pattern, j) ==> j < bound,
    ensures
        out.no_duplicates(),
        positions(out) == occurrences(text, pattern),
{
    assert forall|j: int| positions(out).contains(j) <==> occurrences(text, pattern).contains(j) by {
        if positions(out).contains(j) {
            let i = choose|i: int| 0 <= i < out.len() && out[i] == j as usize;
            assert(occurs_at(text, pattern, out[i] as int));
        }
        if occurs_at(text, pattern, j) {
            let i = choose|i: int| 0 <= i < out.len() && #[trigger] out[i] == j;
            assert(out.contains(j as usize));
        }
    }
    assert(positions(out) =~= occurrences(text, pattern));
}

impl<'a, T> Arena<'a, T> {
    /// The path of `node` is a prefix of `pattern`.
    pub(crate) open spec fn spells(&self, node: int, pattern: Seq<T>) -> bool {
        &&& 0 <= self.head@[node]
        &&& 0 <= self.depth(node) <= pattern.len()
        &&& self.head@[node] + self.depth(node) <= self.n()
        &&& self.text().subrange(self.head@[node], self.head@[node] + self.depth(node))
            == pattern.subrange(0, self.depth(node))
    }

    /// Where `pattern` stands at the start of a leaf's suffix and the path of
    /// `u` is a proper prefix of it, the child of `u` whose edge begins with
    /// the next element of `pattern` has a path that stands there too.
    pub(crate) proof fn lemma_step_down(&self, u: int, pattern: Seq<T>, j: int) -> (c: int)
        requires
            self.structure(),
            0 <= u < self.size(),
            self.spells(u, pattern),
            self.depth(u) < pattern.len(),
            0 <= j < self.leaves@.len(),
            occurs_at(self.text(), pattern, j),
        ensures
            0 < c < self.size(),
            self.parent@[c] == u,
            0 <= self.slot@[c] < self.kids(u).len(),
            self.kids(u)[self.slot@[c]] == c,
            self.under(c, j),
            self.text()[self.start(c)] == pattern[self.depth(u)],
    {
        let d = self.depth(u);
        let t = self.text();
        self.lemma_text();
        assert(t.subrange(j, j + d) =~= t.subrange(j, j + pattern.len()).subrange(0, d));
        assert(self.under(u, j));
        if u != 0 {
            assert(self.node_ok(u));
        }
        if self.is_leaf(u) {
            self.lemma_under_leaf(u);
            assert(false);
        }
        let c = self.lemma_under_down(u, j);
        assert(t.subrange(j, j + pattern.len())[d] == t[j + d]);
        c
    }

    /// The child at place `k` below `u`, whose edge begins with the next
    /// element of `pattern`, lies on the way to every leaf at whose suffix
    /// `pattern` stands.
    pub(crate) proof fn lemma_way_down(&self, u: int, k: int, pattern: Seq<T>, j: int)
        requires
            self.structure(),
            0 <= u < self.size(),
            self.spells(u, pattern),
            self.depth(u) < pattern.len(),
            0 <= k < self.kids(u).len(),
            self.text()[self.start(self.kids(u)[k] as int)] == pattern[self.depth(u)],
            0 <= j < self.leaves@.len(),
            occurs_at(self.text(), pattern, j),
        ensures
            self.under(self.kids(u)[k] as int, j),
    {
        let c = self.lemma_step_down(u, pattern, j);
        assert(self.kids_ok(u));
        assert(0 < self.kids(u)[k] < self.size());
        self.lemma_same_kid(c, self.kids(u)[k] as int);
    }

    /// The label of the edge into `c`, as far as `pattern` reaches, agrees
    /// with `pattern` wherever `pattern` stands at the start of a leaf's
    /// suffix below `c`.
    pub(crate) proof fn lemma_label_on_way(&self, c: int, pattern: Seq<T>, j: int, take: int)
        requires
            self.structure(),
            0 < c < self.size(),
            self.under(c, j),
            occurs_at(self.text(), pattern, j),
            0 <= take,
            self.start(c) + take <= self.stop(c),
            self.depth(self.parent@[c]) + take <= pattern.len(),
        ensures
            self.text().subrange(self.start(c), self.start(c) + take) == pattern.subrange(
                self.depth(self.parent@[c]),
                self.depth(self.parent@[c]) + take,
            ),
    {
        let t = self.text();
        let o = self.depth(self.parent@[c]);
        assert(self.node_ok(c));
        lemma_run_part(t, self.head@[c], j, self.depth(c), o, take);
        assert(t.subrange(j + o, j + o + take) =~= t.subrange(j, j + pattern.len()).subrange(
            o,
            o + take,
        ));
    }

    /// After an edge whose label agrees with `pattern`, the path of the
    /// child is a prefix of `pattern` as the path of the parent was.
    pub(crate) proof fn lemma_spells_child(&self, c: int, pattern: Seq<T>, take: int)
        requires
            self.structure(),
            0 < c < self.size(),
            self.spells(self.parent@[c], pattern),
            0 <= take,
            self.start(c) + take <= self.stop(c),
            self.depth(self.parent@[c]) + take <= pattern.len(),
            self.text().subrange(self.start(c), self.start(c) + take) == pattern.subrange(
                self.depth(self.parent@[c]),
                self.depth(self.parent@[c]) + take,
            ),
        ensures
            self.text().subrange(
                self.head@[c],
                self.head@[c] + self.depth(self.parent@[c]) + take,
            ) == pattern.subrange(0, self.depth(self.parent@[c]) + take),
            self.start(c) + take == self.stop(c) ==> self.spells(c, pattern),
    {
        let t = self.text();
        let p = self.parent@[c];
        let o = self.depth(p);
        let h = self.head@[c];
        assert(self.node_ok(c));
        assert(t.subrange(h, h + o) == pattern.subrange(0, o));
        assert(t.subrange(h, h + o + take) =~= t.subrange(h, h + o) + t.subrange(
            self.start(c),
            self.start(c) + take,
        ));
        assert(pattern.subrange(0, o + take) =~= pattern.subrange(0, o) + pattern.subrange(
            o,
            o + take,
        ));
    }

    /// Where the path of `c` stands, so does every prefix of it.
    pub(crate) proof fn lemma_under_occurs(&self, c: int, pattern: Seq<T>, j: int)
        requires
            self.structure(),
            0 < c < self.size(),
            self.under(c, j),
            pattern.len() <= self.depth(c),
            self.text().subrange(self.head@[c], self.head@[c] + pattern.len()) == pattern,
        ensures
            occurs_at(self.text(), pattern, j),
    {
        self.lemma_text();
        lemma_run_part(self.text(), self.head@[c], j, self.depth(c), 0, pattern.len() as int);
    }
}

impl<'a, T> UkkonenTree<'a, T> {
    /// A pattern that stands at `i` stands at the start of a suffix that has
    /// its leaf: if not at `i`, then at an earlier offset, where the suffix
    /// that begins at `i` stands too.
    pub(crate) proof fn lemma_first_occurrence(&self, pattern: Seq<T>, i: int) -> (j: int)
        requires
            self.inv(),
            pattern.len() > 0,
            occurs_at(self.arena.text(), pattern, i),
        ensures
            0 <= j < self.arena.leaves@.len(),
            occurs_at(self.arena.text(), pattern, j),
        decreases i,
    {
        let t = self.arena.text();
        let n = self.arena.n();
        let k = pattern.len() as int;
        self.arena.lemma_text();
        self.lemma_open();
        if i < self.arena.leaves@.len() {
            i
        } else {
            self.lemma_unresolved(i);
            let e = choose|e: int| 0 <= e < i && #[trigger] occurs_at(t, t.subrange(i, n), e);
            lemma_run_part(t, e, i, n - i, 0, k);
            self.lemma_first_occurrence(pattern, e)
        }
    }
}

impl<'a, T: Eq> UkkonenTree<'a, T> {
    /// Whether the `len` elements of the sequence from `from` on are the
    /// `len` elements of `pattern` from `offset` on.
    pub(crate) fn label_matches(&self, from: usize, pattern: &[T], offset: usize, len: usize) -> (r:
        bool)
        requires
            obeys_concrete_eq::<T>(),
            from + len <= self.arena.n(),
            offset + len <= pattern@.len(),
        ensures
            r == (self.arena.text().subrange(from as int, from + len) == pattern@.subrange(
                offset as int,
                offset + len,
            )),
    {
        let ghost t = self.arena.text();
        let n = self.arena.sequence.len();
        let k = pattern.len();
        let mut i: usize = 0;
        while i < len
            invariant
                obeys_concrete_eq::<T>(),
                t == self.arena.text(),
                i <= len,
                n == self.arena.n(),
                k == pattern@.len(),
                from + len <= n,
                offset + len <= k,
                t.subrange(from as int, from + i) == pattern@.subrange(offset as int, offset + i),
            decreases len - i,
        {
            proof {
                self.arena.lemma_text();
                reveal(obeys_concrete_eq);
            }
            if !(*self.arena.sequence[from + i] == pattern[offset + i]) {
                proof {
                    assert(t.subrange(from as int, from + len)[i as int] == t[from + i]);
                    assert(pattern@.subrange(offset as int, offset + len)[i as int]
                        == pattern@[offset + i]);
                }
                return false;
            }
            proof {
                assert(t.subrange(from as int, from + i + 1) =~= t.subrange(
                    from as int,
                    from + i,
                ).push(t[from + i]));
                assert(pattern@.subrange(offset as int, offset + i + 1) =~= pattern@.subrange(
                    offset as int,
                    offset + i,
                ).push(pattern@[offset + i]));
            }
            i += 1;
        }
        true
    }

    /// Appends to `result` the start of the suffix of every leaf at or below
    /// `node`.
    pub(crate) fn dfs(&self, node: usize, result: &mut Vec<usize>)
        requires
            self.arena.structure(),
            node < self.arena.size(),
        ensures
            final(result)@.len() >= old(result)@.len(),
            forall|i: int| 0 <= i < old(result)@.len() ==> final(result)@[i] == old(result)@[i],
            self.arena.lists(node as int, final(result)@, old(result)@.len() as int),
        decreases self.arena.n() - self.arena.depth(node as int),
    {
        let ghost from = result@.len() as int;
        let ghost a = self.arena;
        proof {
            a.lemma_depth(node as int);
        }
        match self.arena.nodes[node].suffix_start {
            Some(j) => {
                result.push(j);
                proof {
                    if node != 0 {
                        assert(a.node_ok(node as int));
                    }
                    a.lemma_under_leaf(node as int);
                    assert(result@[from] == j);
                }
            },
            None => {
                let mut k: usize = 0;
                while k < self.arena.nodes[node].children.len()
                    invariant
                        a == self.arena,
                        a.structure(),
                        node < a.size(),
                        k <= a.kids(node as int).len(),
                        from == old(result)@.len(),
                        result@.len() >= from,
                        forall|i: int| 0 <= i < from ==> result@[i] == old(result)@[i],
                        forall|i: int|
                            from <= i < result@.len() ==> #[trigger] a.below(
                                node as int,
                                k as int,
                                result@[i] as int,
                            ),
                        forall|i1: int, i2: int|
                            from <= i1 < i2 < result@.len() ==> #[trigger] result@[i1]
                                != #[trigger] result@[i2],
                        forall|j: int|
                            a.below(node as int, k as int, j) ==> exists|i: int|
                                from <= i < result@.len() && #[trigger] result@[i] == j,
                    decreases a.kids(node as int).len() - k,
                {
                    let c = self.arena.nodes[node].children[k];
                    let ghost before = result@;
                    proof {
                        assert(a.kids_ok(node as int));
                        assert(0 < a.kids(node as int)[k as int] < a.size());
                        a.lemma_parent_pre(c as int);
                    }
                    self.dfs(c, result);
                    proof {
                        let mid = before.len() as int;
                        let k1 = k as int + 1;
                        assert forall|i: int| from <= i < result@.len() implies #[trigger] a.below(
                            node as int,
                            k1,
                            result@[i] as int,
                        ) by {
                            if i < mid {
                                assert(result@[i] == before[i]);
                                assert(a.below(node as int, k as int, before[i] as int));
                                let w = choose|w: int|
                                    0 <= w < k && #[trigger] a.under(
                                        a.kids(node as int)[w] as int,
                                        before[i] as int,
                                    );
                                assert(a.under(a.kids(node as int)[w] as int, result@[i] as int));
                            } else {
                                assert(a.under(a.kids(node as int)[k as int] as int, result@[i] as int));
                            }
                        }
                        assert forall|i1: int, i2: int|
                            from <= i1 < i2 < result@.len() implies #[trigger] result@[i1]
                            != #[trigger] result@[i2] by {
                            if i2 < mid {
                                assert(result@[i1] == before[i1]);
                                assert(result@[i2] == before[i2]);
                            } else if i1 >= mid {
                            } else {
                                assert(result@[i1] == before[i1]);
                                assert(a.below(node as int, k as int, before[i1] as int));
                                let w = choose|w: int|
                                    0 <= w < k && #[trigger] a.under(
                                        a.kids(node as int)[w] as int,
                                        before[i1] as int,
                                    );
                                if result@[i1] == result@[i2] {
                                    let j = result@[i2] as int;
                                    assert(a.under(c as int, j));
                                    assert(0 < a.kids(node as int)[w] < a.size());
                                    a.lemma_under_up(a.kids(node as int)[w] as int, j);
                                    a.lemma_under_up(c as int, j);
                                    assert(a.keys_differ(node as int));
                                    assert(false);
                                }
                            }
                        }
                        assert forall|j: int| #[trigger] a.below(node as int, k1, j) implies exists|i: int|
                            from <= i < result@.len() && #[trigger] result@[i] == j by {
                            let w = choose|w: int|
                                0 <= w < k1 && #[trigger] a.under(a.kids(node as int)[w] as int, j);
                            if w < k {
                                assert(a.below(node as int, k as int, j));
                                let i = choose|i: int|
                                    from <= i < before.len() && #[trigger] before[i] == j;
                                assert(result@[i] == j);
                            } else {
                                assert(a.under(c as int, j));
                            }
                        }
                    }
                    k += 1;
                }
                proof {
                    let klen = a.kids(node as int).len() as int;
                    if node != 0 {
                        assert(a.node_ok(node as int));
                    }
                    assert(!a.is_leaf(node as int));
                    assert(a.kids_ok(node as int));
                    assert forall|i: int| from <= i < result@.len() implies a.under(
                        node as int,
                        #[trigger] result@[i] as int,
                    ) by {
                        assert(a.below(node as int, klen, result@[i] as int));
                        let w = choose|w: int|
                            0 <= w < klen && #[trigger] a.under(
                                a.kids(node as int)[w] as int,
                                result@[i] as int,
                            );
                        assert(0 < a.kids(node as int)[w] < a.size());
                        a.lemma_under_up(a.kids(node as int)[w] as int, result@[i] as int);
                    }
                    assert forall|j: int| a.under(node as int, j) implies exists|i: int|
                        from <= i < result@.len() && #[trigger] result@[i] == j by {
                        let c = a.lemma_under_down(node as int, j);
                        assert(a.under(a.kids(node as int)[a.slot@[c]] as int, j));
                        assert(a.below(node as int, klen, j));
                    }
                }
            },
        }
    }

    /// The offsets at which `pattern` stands and whose suffix ends in a leaf,
    /// each once, in no particular order: all offsets at which `pattern`
    /// stands but those among the last `remainder` offsets of the sequence.
    ///
    /// The pattern is followed down from the root, edge by edge: the edge
    /// that begins with the next element of the pattern is looked up, and its
    /// label compared with the pattern as far as both reach. Where no such
    /// edge is there, or the label differs, the pattern stands nowhere. Where
    /// the pattern ends on an edge, the leaves at and below the node that the
    /// edge leads to hold the offsets.
    pub fn find_leaves(&self, pattern: &[T]) -> (result: Vec<usize>)
        requires
            obeys_concrete_eq::<T>(),
            self.wf(),
        ensures
            result@.no_duplicates(),
            positions(result@) == occurrences_before(
                self@,
                pattern@,
                self@.len() - self.unresolved(),
            ),
    {
        let ghost a = self.arena;
        let ghost t = a.text();
        let ghost pat = pattern@;
        proof {
            self.lemma_open();
            a.lemma_text();
        }
        let n = self.arena.sequence.len();
        let k = pattern.len();
        let mut result: Vec<usize> = Vec::new();
        if k == 0 {
            // the empty pattern ends at the root
            self.dfs(ROOT, &mut result);
            proof {
                a.lemma_depth(0);
                assert forall|i: int| 0 <= i < result@.len() implies (#[trigger] result@[i])
                    < a.leaves@.len() && occurs_at(t, pat, result@[i] as int) by {
                    assert(a.under(0, result@[i] as int));
                    assert(t.subrange(result@[i] as int, result@[i] as int + 0) =~= pat);
                }
                assert forall|j: int|
                    0 <= j < a.leaves@.len() && #[trigger] occurs_at(t, pat, j) implies exists|i: int|
                    0 <= i < result@.len() && #[trigger] result@[i] == j by {
                    lemma_run_empty(t, 0, j);
                    assert(a.under(0, j));
                }
                lemma_found(t, pat, result@, a.leaves@.len() as int);
            }
            return result;
        }
        let mut node: usize = ROOT;
        let mut offset: usize = 0;
        proof {
            a.lemma_depth(0);
            assert(t.subrange(0, 0) =~= pat.subrange(0, 0));
        }
        loop
            invariant_except_break
                node < a.size(),
                offset < k,
                a.depth(node as int) == offset,
                a.spells(node as int, pat),
                result@.len() == 0,
            invariant
                obeys_concrete_eq::<T>(),
                a == self.arena,
                t == a.text(),
                pat == pattern@,
                a.structure(),
                n == a.n(),
                k == pat.len(),
                k > 0,
            ensures
                found(t, pat, result@, a.leaves@.len() as int),
            decreases k - offset,
        {
            match self.arena.find_child(node, &pattern[offset]) {
                None => {
                    proof {
                        assert forall|j: int|
                            0 <= j < a.leaves@.len() && #[trigger] occurs_at(t, pat, j) implies false by {
                            let c = a.lemma_step_down(node as int, pat, j);
                            assert(a.text()[a.start(a.kids(node as int)[a.slot@[c]] as int)]
                                == pat[offset as int]);
                        }
                    }
                    break ;
                },
                Some(slot) => {
                    let child = self.arena.nodes[node].children[slot];
                    proof {
                        assert(a.kids_ok(node as int));
                        assert(0 < a.kids(node as int)[slot as int] < a.size());
                        assert(a.node_ok(child as int));
                        assert forall|j: int|
                            0 <= j < a.leaves@.len() && #[trigger] occurs_at(
                                t,
                                pat,
                                j,
                            ) implies a.under(child as int, j) by {
                            a.lemma_way_down(node as int, slot as int, pat, j);
                        }
                    }
                    let edge_start = self.arena.nodes[child].start;
                    let edge_end = match self.arena.nodes[child].end {
                        EdgeEnd::Fixed(end) => end,
                        EdgeEnd::Open => n,
                    };
                    let edge_len = edge_end - edge_start;
                    let rest = k - offset;
                    let walk_down = edge_len < rest;
                    let take = if walk_down {
                        edge_len
                    } else {
                        rest
                    };
                    if self.label_matches(edge_start, pattern, offset, take) {
                        proof {
                            a.lemma_spells_child(child as int, pat, take as int);
                        }
                        if walk_down {
                            node = child;
                            offset += edge_len;
                            continue ;
                        }
                        self.dfs(child, &mut result);
                        proof {
                            assert(pat.subrange(0, k as int) =~= pat);
                            assert forall|i: int| 0 <= i < result@.len() implies (
                            #[trigger] result@[i]) < a.leaves@.len() && occurs_at(
                                t,
                                pat,
                                result@[i] as int,
                            ) by {
                                a.lemma_under_occurs(child as int, pat, result@[i] as int);
                            }
                        }
                    } else {
                        proof {
                            assert forall|j: int|
                                0 <= j < a.leaves@.len() && #[trigger] occurs_at(
                                    t,
                                    pat,
                                    j,
                                ) implies false by {
                                a.lemma_label_on_way(child as int, pat, j, take as int);
                            }
                        }
                    }
                    break ;
                },
            }
        }
        proof {
            lemma_found(t, pat, result@, a.leaves@.len() as int);
        }
        result
    }

    /// Every offset at which `pattern` stands in the sequence taken in so
    /// far, each once, in no particular order.
    ///
    /// The offsets whose suffix ends in a leaf are read off the tree. Where
    /// the tree holds no such offset for a pattern that is not empty, the
    /// pattern stands nowhere. The last `remainder` offsets, whose suffixes
    /// end inside the tree, are compared with the pattern one by one. The
    /// empty pattern stands at every offset from 0 up to and including the
    /// length of the sequence.
    pub fn find(&self, pattern: &[T]) -> (result: Vec<usize>)
        requires
            obeys_concrete_eq::<T>(),
            self.wf(),
        ensures
            result@.no_duplicates(),
            positions(result@) == occurrences(self@, pattern@),
    {
        let ghost a = self.arena;
        let ghost t = a.text();
        let ghost pat = pattern@;
        let n = self.arena.sequence.len();
        let k = pattern.len();
        let mut result = self.find_leaves(pattern);
        proof {
            self.lemma_open();
            a.lemma_text();
            lemma_found_back(t, pat, result@, a.leaves@.len() as int);
        }
        if k > 0 && result.len() == 0 {
            // a pattern that stands nowhere in the tree stands nowhere
            proof {
                assert forall|j: int| occurs_at(t, pat, j) implies j < 0 by {
                    let i = self.lemma_first_occurrence(pat, j);
                }
                lemma_found_all(t, pat, result@, 0);
            }
            return result;
        }
        if k <= self.remainder {
            let last = n - k;
            let mut j = n - self.remainder;
            loop
                invariant_except_break
                    j <= last,
                    found(t, pat, result@, j as int),
                invariant
                    obeys_concrete_eq::<T>(),
                    a == self.arena,
                    t == a.text(),
                    pat == pattern@,
                    n == a.n(),
                    k == pat.len(),
                    last == n - k,
                ensures
                    found(t, pat, result@, last + 1),
                decreases last - j,
            {
                let ghost before = result@;
                let hit = self.label_matches(j, pattern, 0, k);
                proof {
                    assert(pat.subrange(0, k as int) =~= pat);
                }
                if hit {
                    result.push(j);
                }
                proof {
                    let j1 = j as int + 1;
                    assert forall|p: int|
                        0 <= p < j1 && #[trigger] occurs_at(t, pat, p) implies exists|i: int|
                        0 <= i < result@.len() && #[trigger] result@[i] == p by {
                        if p < j {
                            let i = choose|i: int| 0 <= i < before.len() && #[trigger] before[i] == p;
                            assert(result@[i] == p);
                        } else {
                            assert(result@[before.len() as int] == p);
                        }
                    }
                    assert forall|i: int| 0 <= i < result@.len() implies (#[trigger] result@[i]) < j1
                        && occurs_at(t, pat, result@[i] as int) by {
                        if i < before.len() {
                            assert(result@[i] == before[i]);
                        }
                    }
                    assert forall|i1: int, i2: int|
                        0 <= i1 < i2 < result@.len() implies #[trigger] result@[i1]
                        != #[trigger] result@[i2] by {
                        assert(result@[i1] == before[i1]);
                        if i2 < before.len() {
                            assert(result@[i2] == before[i2]);
                        }
                    }
                }
                if j == last {
                    break ;
                }
                j += 1;
            }
            proof {
                lemma_found_all(t, pat, result@, last + 1);
            }
        } else {
            proof {
                lemma_found_all(t, pat, result@, n - self.remainder);
            }
        }
        result
    }
}

} // verus!
