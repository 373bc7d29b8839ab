//! What holds of every search, stated over the sequence that a tree has
//! taken in and the list of positions that `find` returns.

use vstd::prelude::*;
use crate::occurrence::{occurs_at, occurrences, occurrences_before, positions};
use crate::tree::UkkonenTree;

verus! {

/// The sequence that a tree has after taking in the elements of `elements`
/// one at a time, starting from a tree over `base`: each extension pushes one
/// element onto the tree's sequence.
pub open spec fn taken_in<T>(base: Seq<T>, elements: Seq<T>) -> Seq<T>
    decreases elements.len(),
{
    if elements.len() == 0 {
        base
    } else {
        taken_in(base, elements.drop_last()).push(elements.last())
    }
}

/// Soundness: at every position that a search for `pattern` returns, the
/// elements of the sequence are those of `pattern`.
pub proof fn lemma_find_sound<T>(text: Seq<T>, pattern: Seq<T>, result: Seq<usize>, p: usize)
    requires
        positions(result) == occurrences(text, pattern),
        result.contains(p),
    ensures
        p + pattern.len() <= text.len(),
        text.subrange(p as int, p + pattern.len()) == pattern,
{
    assert(positions(result).contains(p as int));
    assert(occurs_at(text, pattern, p as int));
}

/// Completeness: a search for the `k` elements of the sequence from `i` on
/// returns `i`.
pub proof fn lemma_find_complete<T>(text: Seq<T>, i: int, k: int, result: Seq<usize>)
    requires
        0 <= i,
        0 <= k,
        i + k <= text.len(),
        positions(result) == occurrences(text, text.subrange(i, i + k)),
    ensures
        0 <= i <= usize::MAX,
        result.contains(i as usize),
{
    assert(occurs_at(text, text.subrange(i, i + k), i));
    assert(positions(result).contains(i));
}

/// Determinism: two searches for one pattern in one sequence return the same
/// set of positions, each position once.
pub proof fn lemma_find_deterministic<T>(
    text: Seq<T>,
    pattern: Seq<T>,
    first: Seq<usize>,
    second: Seq<usize>,
)
    requires
        first.no_duplicates(),
        positions(first) == occurrences(text, pattern),
        second.no_duplicates(),
        positions(second) == occurrences(text, pattern),
    ensures
        first.to_set() == second.to_set(),
        first.len() == second.len(),
{
    assert forall|p: usize| first.to_set().contains(p) <==> second.to_set().contains(p) by {
        if first.contains(p) {
            assert(positions(first).contains(p as int));
            assert(positions(second).contains(p as int));
        }
        if second.contains(p) {
            assert(positions(second).contains(p as int));
            assert(positions(first).contains(p as int));
        }
    }
    assert(first.to_set() =~= second.to_set());
    first.unique_seq_to_set();
    second.unique_seq_to_set();
}

/// Taking in elements one at a time appends them to the sequence.
pub proof fn lemma_taken_in<T>(base: Seq<T>, elements: Seq<T>)
    ensures
        taken_in(base, elements) == base + elements,
    decreases elements.len(),
{
    if elements.len() == 0 {
        assert(base + elements =~= base);
    } else {
        lemma_taken_in(base, elements.drop_last());
        assert(base + elements =~= (base + elements.drop_last()).push(elements.last()));
    }
}

/// Incremental equivalence: after the first `m` elements of `sequence` have
/// been taken in one at a time, starting from the empty tree, the tree has
/// the sequence of a tree built from those `m` elements at once, and so every
/// search in the two returns the same set of positions.
pub proof fn lemma_incremental_equivalence<T>(
    sequence: Seq<T>,
    m: int,
    pattern: Seq<T>,
    stepwise: Seq<usize>,
    direct: Seq<usize>,
)
    requires
        0 <= m <= sequence.len(),
        positions(stepwise) == occurrences(taken_in(Seq::empty(), sequence.take(m)), pattern),
        positions(direct) == occurrences(sequence.take(m), pattern),
    ensures
        taken_in(Seq::empty(), sequence.take(m)) == sequence.take(m),
        positions(stepwise) == positions(direct),
{
    lemma_taken_in(Seq::<T>::empty(), sequence.take(m));
    assert(Seq::<T>::empty() + sequence.take(m) =~= sequence.take(m));
}

/// The empty pattern stands at every offset of the sequence from 0 up to and
/// including its length, and nowhere else.
pub proof fn lemma_empty_pattern<T>(text: Seq<T>, i: int)
    ensures
        occurrences(text, Seq::<T>::empty()).contains(i) <==> 0 <= i <= text.len(),
{
    if 0 <= i <= text.len() {
        assert(text.subrange(i, i + 0) =~= Seq::<T>::empty());
    }
}

/// A search for the empty pattern returns every offset from 0 up to and
/// including the length of the sequence, each once.
pub proof fn lemma_find_empty_pattern<T>(text: Seq<T>, result: Seq<usize>)
    requires
        result.no_duplicates(),
        positions(result) == occurrences(text, Seq::<T>::empty()),
        text.len() <= usize::MAX,
    ensures
        result.len() == text.len() + 1,
        forall|p: usize| p <= text.len() <==> result.contains(p),
{
    let all = Set::new(|p: usize| p <= text.len());
    assert forall|p: usize| result.to_set().contains(p) <==> all.contains(p) by {
        lemma_empty_pattern(text, p as int);
        if result.contains(p) {
            assert(positions(result).contains(p as int));
        }
        if p <= text.len() {
            assert(positions(result).contains(p as int));
        }
    }
    assert(result.to_set() =~= all);
    assert forall|p: usize| p <= text.len() <==> result.contains(p) by {
        assert(all.contains(p) <==> result.to_set().contains(p));
    }
    result.unique_seq_to_set();
    lemma_count_up_to(text.len() as usize);
}

/// There are `n + 1` machine integers from 0 up to and including `n`.
proof fn lemma_count_up_to(n: usize)
    ensures
        Set::new(|p: usize| p <= n).finite(),
        Set::new(|p: usize| p <= n).len() == n + 1,
    decreases n,
{
    let s = Set::new(|p: usize| p <= n);
    if n == 0 {
        assert(s =~= Set::empty().insert(0usize));
    } else {
        let m = (n - 1) as usize;
        lemma_count_up_to(m);
        assert(s =~= Set::new(|p: usize| p <= m).insert(n));
    }
}

/// Where the last element of the sequence stands nowhere else in it, no
/// suffix repeats, and so every suffix has its leaf.
pub proof fn lemma_new_last_element<'a, T>(tree: &UkkonenTree<'a, T>)
    requires
        tree.wf(),
        tree@.len() > 0,
        forall|j: int| 0 <= j < tree@.len() - 1 ==> tree@[j] != tree@.last(),
    ensures
        tree.unresolved() == 0,
{
    let t = tree@;
    let n = t.len() as int;
    let i = n - tree.unresolved();
    tree.lemma_unresolved(n - 1);
    if tree.unresolved() > 0 {
        tree.lemma_unresolved(i);
        let j = choose|j: int| 0 <= j < i && #[trigger] occurs_at(t, t.subrange(i, n), j);
        assert(t.subrange(j, j + (n - i))[n - i - 1] == t.subrange(i, n)[n - i - 1]);
        assert(t[j + (n - i) - 1] == t.last());
    }
}

/// Where every suffix has its leaf, the leaves hold every offset at which a
/// pattern that is not empty stands.
pub proof fn lemma_leaves_hold_all<T>(text: Seq<T>, pattern: Seq<T>)
    requires
        pattern.len() > 0,
    ensures
        occurrences_before(text, pattern, text.len() as int) == occurrences(text, pattern),
{
    assert(occurrences_before(text, pattern, text.len() as int) =~= occurrences(text, pattern));
}

} // verus!
