//! What it means for a pattern to occur in a sequence, and facts about runs
//! of equal elements in one sequence.

use vstd::prelude::*;

verus! {

/// `pattern` stands in `text` at offset `i`.
pub open spec fn occurs_at<T>(text: Seq<T>, pattern: Seq<T>, i: int) -> bool {
    &&& 0 <= i
    &&& i + pattern.len() <= text.len()
    &&& text.subrange(i, i + pattern.len()) == pattern
}

/// Every offset at which `pattern` stands in `text`.
pub open spec fn occurrences<T>(text: Seq<T>, pattern: Seq<T>) -> Set<int> {
    Set::new(|i: int| occurs_at(text, pattern, i))
}

/// Every offset before `bound` at which `pattern` stands in `text`.
pub open spec fn occurrences_before<T>(text: Seq<T>, pattern: Seq<T>, bound: int) -> Set<int> {
    Set::new(|i: int| i < bound && occurs_at(text, pattern, i))
}

/// The suffix of `text` that begins at `i` stands at an earlier offset too.
pub open spec fn repeats<T>(text: Seq<T>, i: int) -> bool {
    exists|j: int| 0 <= j < i && #[trigger] occurs_at(text, text.subrange(i, text.len() as int), j)
}

/// The offsets that a list of positions holds.
pub open spec fn positions(list: Seq<usize>) -> Set<int> {
    Set::new(|i: int| 0 <= i <= usize::MAX && list.contains(i as usize))
}

/// The `len` elements of `t` from `a` on equal the `len` elements from `b` on.
pub(crate) open spec fn same_run<T>(t: Seq<T>, a: int, b: int, len: int) -> bool {
    &&& 0 <= a
    &&& 0 <= b
    &&& 0 <= len
    &&& a + len <= t.len()
    &&& b + len <= t.len()
    &&& t.subrange(a, a + len) == t.subrange(b, b + len)
}

/// Equal runs hold equal elements.
pub(crate) proof fn lemma_run_at<T>(t: Seq<T>, a: int, b: int, len: int, k: int)
    requires
        same_run(t, a, b, len),
        0 <= k < len,
    ensures
        t[a + k] == t[b + k],
{
    assert(t.subrange(a, a + len)[k] == t[a + k]);
    assert(t.subrange(b, b + len)[k] == t[b + k]);
}

/// Parts of equal runs, taken at the same place, are equal runs.
pub(crate) proof fn lemma_run_part<T>(t: Seq<T>, a: int, b: int, len: int, off: int, m: int)
    requires
        same_run(t, a, b, len),
        0 <= off,
        0 <= m,
        off + m <= len,
    ensures
        same_run(t, a + off, b + off, m),
{
    assert(t.subrange(a + off, a + off + m) =~= t.subrange(a, a + len).subrange(off, off + m));
    assert(t.subrange(b + off, b + off + m) =~= t.subrange(b, b + len).subrange(off, off + m));
}

/// Equal runs that are followed by equal runs make up equal runs.
pub(crate) proof fn lemma_run_join<T>(t: Seq<T>, a: int, b: int, len1: int, len2: int)
    requires
        same_run(t, a, b, len1),
        same_run(t, a + len1, b + len1, len2),
    ensures
        same_run(t, a, b, len1 + len2),
{
    assert(t.subrange(a, a + len1 + len2) =~= t.subrange(a, a + len1) + t.subrange(
        a + len1,
        a + len1 + len2,
    ));
    assert(t.subrange(b, b + len1 + len2) =~= t.subrange(b, b + len1) + t.subrange(
        b + len1,
        b + len1 + len2,
    ));
}

/// Equal runs that are followed by equal elements are equal runs with one
/// more element.
pub(crate) proof fn lemma_run_step<T>(t: Seq<T>, a: int, b: int, len: int)
    requires
        same_run(t, a, b, len),
        a + len < t.len(),
        b + len < t.len(),
        t[a + len] == t[b + len],
    ensures
        same_run(t, a, b, len + 1),
{
    assert(t.subrange(a + len, a + len + 1) =~= t.subrange(b + len, b + len + 1));
    lemma_run_join(t, a, b, len, 1);
}

/// Runs without elements are equal.
pub(crate) proof fn lemma_run_empty<T>(t: Seq<T>, a: int, b: int)
    requires
        0 <= a <= t.len(),
        0 <= b <= t.len(),
    ensures
        same_run(t, a, b, 0),
{
    assert(t.subrange(a, a + 0) =~= t.subrange(b, b + 0));
}

/// Runs that lie in `t` are the same runs in `t` with one more element.
pub(crate) proof fn lemma_run_push<T>(t: Seq<T>, e: T, a: int, b: int, len: int)
    requires
        0 <= a,
        0 <= b,
        0 <= len,
        a + len <= t.len(),
        b + len <= t.len(),
    ensures
        same_run(t.push(e), a, b, len) == same_run(t, a, b, len),
{
    assert(t.push(e).subrange(a, a + len) =~= t.subrange(a, a + len));
    assert(t.push(e).subrange(b, b + len) =~= t.subrange(b, b + len));
}

/// A suffix that stands at an earlier offset did so before the last element
/// came.
pub(crate) proof fn lemma_repeats_before<T>(t: Seq<T>, e: T, i: int)
    requires
        0 <= i <= t.len(),
        repeats(t.push(e), i),
    ensures
        repeats(t, i),
{
    let u = t.push(e);
    let n = t.len() as int;
    let j = choose|j: int| 0 <= j < i && #[trigger] occurs_at(u, u.subrange(i, u.len() as int), j);
    assert(u.subrange(j, j + (n + 1 - i)) == u.subrange(i, n + 1));
    assert(t.subrange(j, j + (n - i)) =~= u.subrange(j, j + (n + 1 - i)).subrange(0, n - i));
    assert(t.subrange(i, n) =~= u.subrange(i, n + 1).subrange(0, n - i));
    assert(occurs_at(t, t.subrange(i, n), j));
}

} // verus!
