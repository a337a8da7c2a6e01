//! The operations that every heap offers, and what they promise.

use vstd::prelude::*;
use crate::priority::{is_nan, rank};
use crate::slots::counted;

verus! {

/// `(k, p)` is an entry of `m`, and no entry of `m` has a smaller priority.
pub open spec fn is_min_entry(m: Map<usize, u32>, k: usize, p: u32) -> bool {
    &&& m.contains_key(k)
    &&& m[k] == p
    &&& forall|j: usize| m.contains_key(j) ==> rank(p) <= rank(#[trigger] m[j])
}

/// What a pop owes: nothing from an empty heap, which stays as it is; else
/// an entry of smallest priority, which leaves the heap.
pub open spec fn pops(
    before: Map<usize, u32>,
    count: usize,
    r: Option<(usize, u32)>,
    after: Map<usize, u32>,
    left: usize,
) -> bool {
    match r {
        None => count == 0 && after == before && left == 0,
        Some((k, p)) => count > 0 && is_min_entry(before, k, p) && after == before.remove(k)
            && left == count - 1,
    }
}

/// `trace` is what successive pops may return from a heap that holds `m`:
/// each entry is of smallest priority in what the pops before it left.
pub open spec fn pop_chain(m: Map<usize, u32>, trace: Seq<(usize, u32)>) -> bool
    decreases trace.len(),
{
    trace.len() == 0 || (is_min_entry(m, trace[0].0, trace[0].1) && pop_chain(
        m.remove(trace[0].0),
        trace.subrange(1, trace.len() as int),
    ))
}

/// Every popped pair is a key of the heap with the priority that the heap
/// held for it, and no key is popped twice.
pub proof fn lemma_pop_chain_entry(m: Map<usize, u32>, trace: Seq<(usize, u32)>, i: int)
    requires
        pop_chain(m, trace),
        0 <= i < trace.len(),
    ensures
        m.contains_key(trace[i].0),
        m[trace[i].0] == trace[i].1,
        forall|j: int| 0 <= j < i ==> (#[trigger] trace[j]).0 != trace[i].0,
    decreases trace.len(),
{
    if i > 0 {
        let rest = trace.subrange(1, trace.len() as int);
        lemma_pop_chain_entry(m.remove(trace[0].0), rest, i - 1);
        assert(rest[i - 1] == trace[i]);
        assert forall|j: int| 0 <= j < i implies (#[trigger] trace[j]).0 != trace[i].0 by {
            if j > 0 {
                assert(rest[j - 1] == trace[j]);
            }
        }
    }
}

/// Successive pops return priorities that never go down.
pub proof fn lemma_pop_chain_sorted(m: Map<usize, u32>, trace: Seq<(usize, u32)>, i: int, j: int)
    requires
        pop_chain(m, trace),
        0 <= i <= j < trace.len(),
    ensures
        rank(trace[i].1) <= rank(trace[j].1),
    decreases trace.len(),
{
    let rest = trace.subrange(1, trace.len() as int);
    if i > 0 {
        lemma_pop_chain_sorted(m.remove(trace[0].0), rest, i - 1, j - 1);
        assert(rest[i - 1] == trace[i]);
        assert(rest[j - 1] == trace[j]);
    } else if j > 0 {
        lemma_pop_chain_entry(m, trace, j);
    }
}

/// After a key's priority was lowered to `v`, a pop that returns the key
/// returns it with `v`.
pub proof fn lemma_decrease_then_pop(
    m: Map<usize, u32>,
    k: usize,
    v: u32,
    trace: Seq<(usize, u32)>,
    i: int,
)
    requires
        pop_chain(m.insert(k, v), trace),
        0 <= i < trace.len(),
        trace[i].0 == k,
    ensures
        trace[i].1 == v,
{
    lemma_pop_chain_entry(m.insert(k, v), trace, i);
}

/// No two keys of `m` have priorities of one rank.
pub open spec fn distinct_ranks(m: Map<usize, u32>) -> bool {
    forall|a: usize, b: usize|
        m.contains_key(a) && m.contains_key(b) && a != b ==> rank(#[trigger] m[a]) != rank(
            #[trigger] m[b],
        )
}

/// Two heaps that hold the same entries, all of different priorities, return
/// the same pairs in the same order, however each is laid out.
pub proof fn lemma_pop_chain_unique(
    m: Map<usize, u32>,
    first: Seq<(usize, u32)>,
    second: Seq<(usize, u32)>,
)
    requires
        distinct_ranks(m),
        pop_chain(m, first),
        pop_chain(m, second),
        first.len() == second.len(),
    ensures
        first == second,
    decreases first.len(),
{
    if first.len() > 0 {
        let k = first[0].0;
        assert(rank(m[k]) == rank(m[second[0].0]));
        assert(second[0].0 == k);
        assert(first[0] == second[0]);
        let rest = m.remove(k);
        assert(distinct_ranks(rest)) by {
            assert forall|a: usize, b: usize|
                rest.contains_key(a) && rest.contains_key(b) && a != b implies rank(
                #[trigger] rest[a],
            ) != rank(#[trigger] rest[b]) by {
                assert(rest[a] == m[a] && rest[b] == m[b]);
            }
        }
        let f = first.subrange(1, first.len() as int);
        let g = second.subrange(1, second.len() as int);
        lemma_pop_chain_unique(rest, f, g);
        assert forall|i: int| 0 <= i < first.len() implies first[i] == second[i] by {
            if i > 0 {
                assert(f[i - 1] == first[i]);
                assert(g[i - 1] == second[i]);
            }
        }
    }
    assert(first =~= second);
}

/// Two heaps that hold the same entries, all of different priorities, answer
/// a pop alike and hold the same entries after it.
pub proof fn lemma_pop_agrees(
    m: Map<usize, u32>,
    count: usize,
    r: Option<(usize, u32)>,
    after: Map<usize, u32>,
    left: usize,
    other_count: usize,
    other_r: Option<(usize, u32)>,
    other_after: Map<usize, u32>,
    other_left: usize,
)
    requires
        distinct_ranks(m),
        counted(m, count as int),
        counted(m, other_count as int),
        pops(m, count, r, after, left),
        pops(m, other_count, other_r, other_after, other_left),
    ensures
        r == other_r,
        after == other_after,
        left == other_left,
{
    if count > 0 {
        let k = r.unwrap().0;
        let j = other_r.unwrap().0;
        assert(rank(m[k]) == rank(m[j]));
        assert(k == j);
    }
}

/// One call on a heap, with what it was given and what it returned.
pub enum Step {
    Push { key: usize, elem: u32 },
    Pop { out: Option<(usize, u32)> },
    DecreaseKey { key: usize, value: u32 },
}

/// The call `step` leads from a heap that holds the `count` entries `m` to
/// one that holds the `left` entries `after`, as the operations promise.
pub open spec fn steps_to(
    m: Map<usize, u32>,
    count: usize,
    step: Step,
    after: Map<usize, u32>,
    left: usize,
) -> bool {
    match step {
        Step::Push { key, elem } => !m.contains_key(key) && after == m.insert(key, elem) && left
            == count + 1,
        Step::Pop { out } => pops(m, count, out, after, left),
        Step::DecreaseKey { key, value } => m.contains_key(key) && after == m.insert(key, value)
            && left == count,
    }
}

/// `trace` lists calls made one after another on a heap that held the `count`
/// entries `m`, each with the entries and the length that it left.
pub open spec fn follows(
    m: Map<usize, u32>,
    count: usize,
    trace: Seq<(Step, Map<usize, u32>, usize)>,
) -> bool
    decreases trace.len(),
{
    trace.len() == 0 || (steps_to(m, count, trace[0].0, trace[0].1, trace[0].2) && follows(
        trace[0].1,
        trace[0].2,
        trace.subrange(1, trace.len() as int),
    ))
}

/// The length that the last call of `trace` left.
pub open spec fn end_len(count: usize, trace: Seq<(Step, Map<usize, u32>, usize)>) -> usize {
    if trace.len() == 0 {
        count
    } else {
        trace.last().2
    }
}

/// The entries that the last call of `trace` left.
pub open spec fn end_view(m: Map<usize, u32>, trace: Seq<(Step, Map<usize, u32>, usize)>) -> Map<
    usize,
    u32,
> {
    if trace.len() == 0 {
        m
    } else {
        trace.last().1
    }
}

/// The number of pushes in `trace`.
pub open spec fn pushes(trace: Seq<(Step, Map<usize, u32>, usize)>) -> int
    decreases trace.len(),
{
    if trace.len() == 0 {
        0
    } else {
        (match trace[0].0 {
            Step::Push { .. } => 1int,
            _ => 0int,
        }) + pushes(trace.subrange(1, trace.len() as int))
    }
}

/// The number of pops in `trace` that returned an entry.
pub open spec fn taken(trace: Seq<(Step, Map<usize, u32>, usize)>) -> int
    decreases trace.len(),
{
    if trace.len() == 0 {
        0
    } else {
        (match trace[0].0 {
            Step::Pop { out: Some(_) } => 1int,
            _ => 0int,
        }) + taken(trace.subrange(1, trace.len() as int))
    }
}

/// After any calls the length is what it was, plus the pushes, minus the
/// pops that returned an entry; and it is the number of keys that the heap
/// holds, if it was so before.
pub proof fn lemma_length_accounting(
    m: Map<usize, u32>,
    count: usize,
    trace: Seq<(Step, Map<usize, u32>, usize)>,
)
    requires
        follows(m, count, trace),
    ensures
        end_len(count, trace) == count + pushes(trace) - taken(trace),
        counted(m, count as int) ==> counted(end_view(m, trace), end_len(count, trace) as int),
    decreases trace.len(),
{
    if trace.len() > 0 {
        let rest = trace.subrange(1, trace.len() as int);
        let next = trace[0].1;
        lemma_length_accounting(next, trace[0].2, rest);
        if rest.len() > 0 {
            assert(rest.last() == trace.last());
        }
        if counted(m, count as int) {
            match trace[0].0 {
                Step::Push { key, elem } => {
                    assert(next.dom() =~= m.dom().insert(key));
                },
                Step::Pop { out } => {
                    if out.is_some() {
                        assert(next.dom() =~= m.dom().remove(out.unwrap().0));
                    }
                },
                Step::DecreaseKey { key, value } => {
                    assert(next.dom() =~= m.dom());
                },
            }
        }
    }
}

/// An addressable minimum-priority queue. Priorities are bit patterns of
/// single-precision values, never a NaN; the key of an entry is the number of
/// entries that the heap held when it was pushed.
pub trait Heap: Sized {
    /// The priority of each key that the heap holds.
    spec fn view(&self) -> Map<usize, u32>;

    /// The heap's invariant: its slots are in heap order, each key leads to
    /// the slot that holds it, and it holds as many keys as `spec_len` says.
    spec fn wf(&self) -> bool;

    /// The number of entries.
    spec fn spec_len(&self) -> usize;

    /// An empty heap.
    fn new() -> (h: Self)
        ensures
            h.wf(),
            h.view() == Map::<usize, u32>::empty(),
            h.spec_len() == 0,
    ;

    /// Puts `elem` into the heap, under the key that is the number of
    /// entries before the call. That key must be free.
    fn push(&mut self, elem: u32)
        requires
            old(self).wf(),
            !is_nan(elem),
            !old(self).view().contains_key(old(self).spec_len()),
        ensures
            final(self).wf(),
            final(self).view() == old(self).view().insert(old(self).spec_len(), elem),
            final(self).spec_len() == old(self).spec_len() + 1,
    ;

    /// Takes an entry of smallest priority out of the heap, if there is one.
    fn pop(&mut self) -> (r: Option<(usize, u32)>)
        requires
            old(self).wf(),
        ensures
            final(self).wf(),
            pops(old(self).view(), old(self).spec_len(), r, final(self).view(), final(self).spec_len()),
    ;

    /// Lowers the priority of key `index` to `new_value`.
    fn decrease_key(&mut self, index: usize, new_value: u32)
        requires
            old(self).wf(),
            old(self).view().contains_key(index),
            !is_nan(new_value),
            rank(new_value) < rank(old(self).view()[index]),
        ensures
            final(self).wf(),
            final(self).view() == old(self).view().insert(index, new_value),
            final(self).spec_len() == old(self).spec_len(),
    ;

    /// The number of entries.
    fn len(&self) -> (n: usize)
        ensures
            n == self.spec_len(),
    ;
}

} // verus!
