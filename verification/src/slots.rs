//! The slot-level model that the heaps share: which key sits in which slot,
//! what a heap holds, and when its slots are in heap order.

use vstd::prelude::*;
use vstd::set_lib::lemma_len_subset;
use crate::priority::{is_nan, rank, INFINITY};
use crate::min_finder::is_first_min;

verus! {

/// `s` with the items at `i` and `j` exchanged.
pub open spec fn swapped<T>(s: Seq<T>, i: int, j: int) -> Seq<T> {
    s.update(i, s[j]).update(j, s[i])
}

/// Every occupied slot is found again through the key it holds.
pub open spec fn indexed(keys: Seq<usize>, reverse: Seq<usize>, len: int) -> bool {
    forall|s: int|
        0 <= s < len ==> (#[trigger] keys[s]) < reverse.len() && reverse[keys[s] as int] == s
}

/// Key `k` occupies a slot.
pub open spec fn holds(keys: Seq<usize>, reverse: Seq<usize>, len: int, k: usize) -> bool {
    k < reverse.len() && reverse[k as int] < len && keys[reverse[k as int] as int] == k
}

/// What a heap holds: the priority of each key that occupies a slot.
pub open spec fn contents(data: Seq<u32>, keys: Seq<usize>, reverse: Seq<usize>, len: int) -> Map<
    usize,
    u32,
> {
    Map::new(
        |k: usize| holds(keys, reverse, len, k),
        |k: usize| data[reverse[k as int] as int],
    )
}

/// The heap holds `len` keys.
pub open spec fn counted(m: Map<usize, u32>, len: int) -> bool {
    m.dom().finite() && m.dom().len() == len
}

/// The keys below `n`.
pub open spec fn keys_below(n: nat) -> Set<usize> {
    Set::new(|k: usize| k < n)
}

/// There are `n` keys below `n`.
pub proof fn lemma_keys_below(n: nat)
    requires
        n <= usize::MAX,
    ensures
        keys_below(n).finite(),
        keys_below(n).len() == n,
    decreases n,
{
    if n == 0 {
        assert(keys_below(0) =~= Set::<usize>::empty());
    } else {
        let m = (n - 1) as nat;
        lemma_keys_below(m);
        assert(keys_below(n) =~= keys_below(m).insert(m as usize));
    }
}

/// A heap whose keys are all below `n`, and which lacks one of them, holds
/// fewer than `n` keys.
pub proof fn lemma_room(m: Map<usize, u32>, n: nat, k: usize)
    requires
        m.dom().finite(),
        n <= usize::MAX,
        forall|j: usize| m.contains_key(j) ==> j < n,
        k < n,
        !m.contains_key(k),
    ensures
        m.dom().len() < n,
{
    lemma_keys_below(n);
    let with = m.dom().insert(k);
    assert(with.subset_of(keys_below(n)));
    lemma_len_subset(with, keys_below(n));
}

/// No occupied slot holds a NaN.
pub open spec fn no_nan(data: Seq<u32>, len: int) -> bool {
    forall|s: int| 0 <= s < len ==> !is_nan(#[trigger] data[s])
}

/// The backing storage is a whole number of groups, and every slot behind the
/// occupied ones holds positive infinity.
pub open spec fn padded(data: Seq<u32>, len: int) -> bool {
    &&& 0 <= len <= data.len()
    &&& data.len() % 16 == 0
    &&& forall|s: int| len <= s < data.len() ==> #[trigger] data[s] == INFINITY
}

/// Parent slot of slot `s >= 16` in the wide layout.
pub open spec fn wide_parent(s: int) -> int {
    s / 16 - 1
}

/// Heap order of the wide layout: no slot is below its parent.
pub open spec fn wide_ordered(data: Seq<u32>, len: int) -> bool {
    forall|s: int| 16 <= s < len ==> rank(data[#[trigger] wide_parent(s)]) <= rank(data[s])
}

/// Heap order but for slot `x` against its parent; the children of `x` are
/// already no lower than that parent.
pub open spec fn wide_ordered_above(data: Seq<u32>, len: int, x: int) -> bool {
    &&& forall|s: int|
        16 <= s < len && s != x ==> rank(data[#[trigger] wide_parent(s)]) <= rank(data[s])
    &&& forall|c: int|
        16 <= c < len && #[trigger] wide_parent(c) == x && x >= 16 ==> rank(
            data[wide_parent(x)],
        ) <= rank(data[c])
}

/// Heap order but for slot `x` against its children; they are already no
/// lower than the parent of `x`.
pub open spec fn wide_ordered_below(data: Seq<u32>, len: int, x: int) -> bool {
    &&& forall|s: int|
        16 <= s < len && #[trigger] wide_parent(s) != x ==> rank(data[wide_parent(s)]) <= rank(
            data[s],
        )
    &&& forall|c: int|
        16 <= c < len && #[trigger] wide_parent(c) == x && x >= 16 ==> rank(
            data[wide_parent(x)],
        ) <= rank(data[c])
}

/// The slot of the first group that slot `s` descends from.
pub open spec fn wide_root(s: int) -> int
    decreases s,
{
    if s < 16 {
        s
    } else {
        wide_root(wide_parent(s))
    }
}

/// In heap order no slot is below the slot of the first group it descends from.
pub proof fn lemma_wide_root(data: Seq<u32>, len: int, s: int)
    requires
        wide_ordered(data, len),
        0 <= s < len,
    ensures
        0 <= wide_root(s) < 16,
        wide_root(s) <= s,
        rank(data[wide_root(s)]) <= rank(data[s]),
    decreases s,
{
    if s >= 16 {
        lemma_wide_root(data, len, wide_parent(s));
    }
}

/// Exchanging a slot with a parent that is above it moves the one edge that
/// may be out of order one level up.
pub proof fn lemma_wide_up_swap(data: Seq<u32>, len: int, x: int)
    requires
        wide_ordered_above(data, len, x),
        16 <= x < len <= data.len(),
        rank(data[x]) < rank(data[wide_parent(x)]),
    ensures
        wide_ordered_above(swapped(data, x, wide_parent(x)), len, wide_parent(x)),
{
    let p = wide_parent(x);
    let after = swapped(data, x, p);
    assert forall|s: int| 16 <= s < len && s != p implies rank(after[#[trigger] wide_parent(s)])
        <= rank(after[s]) by {
    }
    assert forall|c: int| 16 <= c < len && #[trigger] wide_parent(c) == p && p >= 16 implies rank(
        after[wide_parent(p)],
    ) <= rank(after[c]) by {
        assert(wide_parent(p) < p);
    }
}

/// Once the slot is no lower than its parent, or has none, the heap is in order.
pub proof fn lemma_wide_up_done(data: Seq<u32>, len: int, x: int)
    requires
        wide_ordered_above(data, len, x),
        0 <= x,
        x < 16 || x >= len || rank(data[wide_parent(x)]) <= rank(data[x]),
    ensures
        wide_ordered(data, len),
{
}

/// Exchanging a slot with the smallest of its children, which is below it,
/// moves the edges that may be out of order one level down.
pub proof fn lemma_wide_down_swap(data: Seq<u32>, len: int, x: int, m: int)
    requires
        wide_ordered_below(data, len, x),
        0 <= x,
        16 <= m < len <= data.len(),
        wide_parent(m) == x,
        rank(data[m]) < rank(data[x]),
        forall|s: int| 16 <= s < len && #[trigger] wide_parent(s) == x ==> rank(data[m]) <= rank(data[s]),
    ensures
        wide_ordered_below(swapped(data, x, m), len, m),
{
    let after = swapped(data, x, m);
    assert forall|s: int| 16 <= s < len && #[trigger] wide_parent(s) != m implies rank(
        after[wide_parent(s)],
    ) <= rank(after[s]) by {
        if s == x {
            assert(wide_parent(m) == x);
        }
    }
    assert forall|c: int| 16 <= c < len && #[trigger] wide_parent(c) == m && m >= 16 implies rank(
        after[wide_parent(m)],
    ) <= rank(after[c]) by {
    }
}

/// Once no child is below the slot, the heap is in order.
pub proof fn lemma_wide_down_done(data: Seq<u32>, len: int, x: int)
    requires
        wide_ordered_below(data, len, x),
        forall|s: int| 16 <= s < len && #[trigger] wide_parent(s) == x ==> rank(data[x]) <= rank(data[s]),
    ensures
        wide_ordered(data, len),
{
}

/// The first minimum of a group that starts among the occupied slots is an
/// occupied slot; no slot of the group is below it, and every slot of the
/// group before it is above it.
pub proof fn lemma_group_min(data: Seq<u32>, len: int, base: int, r: int)
    requires
        padded(data, len),
        no_nan(data, len),
        0 <= base < len,
        base % 16 == 0,
        is_first_min(data.subrange(base, base + 16), r),
    ensures
        0 <= r < 16,
        base + r < len,
        base + 16 <= data.len(),
        forall|s: int| base <= s < base + 16 ==> rank(data[base + r]) <= rank(#[trigger] data[s]),
        forall|s: int| base <= s < base + r ==> rank(data[base + r]) < rank(#[trigger] data[s]),
{
    let total = data.len() as int;
    assert(total == 16 * (total / 16) && base == 16 * (base / 16));
    let group = data.subrange(base, base + 16);
    assert(group[0] == data[base]);
    assert(group[r] == data[base + r]);
    if base + r >= len {
        assert(data[base + r] == INFINITY);
        assert(!is_nan(data[base]));
        assert(rank(group[r]) < rank(group[0]));
    }
    assert forall|s: int| base <= s < base + 16 implies rank(data[base + r]) <= rank(
        #[trigger] data[s],
    ) by {
        assert(group[s - base] == data[s]);
    }
    assert forall|s: int| base <= s < base + r implies rank(data[base + r]) < rank(
        #[trigger] data[s],
    ) by {
        assert(group[s - base] == data[s]);
    }
}

/// Parent slot of slot `s >= 1` in the binary layout.
pub open spec fn binary_parent(s: int) -> int {
    (s - 1) / 2
}

/// Heap order of the binary layout: no slot is below its parent.
pub open spec fn binary_ordered(data: Seq<u32>, len: int) -> bool {
    forall|s: int| 1 <= s < len ==> rank(data[#[trigger] binary_parent(s)]) <= rank(data[s])
}

/// Heap order but for slot `x` against its parent; the children of `x` are
/// already no lower than that parent.
pub open spec fn binary_ordered_above(data: Seq<u32>, len: int, x: int) -> bool {
    &&& forall|s: int|
        1 <= s < len && s != x ==> rank(data[#[trigger] binary_parent(s)]) <= rank(data[s])
    &&& forall|c: int|
        1 <= c < len && #[trigger] binary_parent(c) == x && x >= 1 ==> rank(
            data[binary_parent(x)],
        ) <= rank(data[c])
}

/// Heap order but for slot `x` against its children; they are already no
/// lower than the parent of `x`.
pub open spec fn binary_ordered_below(data: Seq<u32>, len: int, x: int) -> bool {
    &&& forall|s: int|
        1 <= s < len && #[trigger] binary_parent(s) != x ==> rank(data[binary_parent(s)]) <= rank(
            data[s],
        )
    &&& forall|c: int|
        1 <= c < len && #[trigger] binary_parent(c) == x && x >= 1 ==> rank(
            data[binary_parent(x)],
        ) <= rank(data[c])
}

/// Exchanging a slot with a parent that is above it moves the one edge that
/// may be out of order one level up.
pub proof fn lemma_binary_up_swap(data: Seq<u32>, len: int, x: int)
    requires
        binary_ordered_above(data, len, x),
        1 <= x < len <= data.len(),
        rank(data[x]) < rank(data[binary_parent(x)]),
    ensures
        binary_ordered_above(swapped(data, x, binary_parent(x)), len, binary_parent(x)),
{
    let p = binary_parent(x);
    let after = swapped(data, x, p);
    assert forall|s: int| 1 <= s < len && s != p implies rank(after[#[trigger] binary_parent(s)])
        <= rank(after[s]) by {
    }
    assert forall|c: int| 1 <= c < len && #[trigger] binary_parent(c) == p && p >= 1 implies rank(
        after[binary_parent(p)],
    ) <= rank(after[c]) by {
        assert(binary_parent(p) < p);
    }
}

/// Once the slot is no lower than its parent, or has none, the heap is in order.
pub proof fn lemma_binary_up_done(data: Seq<u32>, len: int, x: int)
    requires
        binary_ordered_above(data, len, x),
        0 <= x,
        x < 1 || x >= len || rank(data[binary_parent(x)]) <= rank(data[x]),
    ensures
        binary_ordered(data, len),
{
}

/// Exchanging a slot with the smaller of its children, which is below it,
/// moves the edges that may be out of order one level down.
pub proof fn lemma_binary_down_swap(data: Seq<u32>, len: int, x: int, m: int)
    requires
        binary_ordered_below(data, len, x),
        0 <= x,
        1 <= m < len <= data.len(),
        binary_parent(m) == x,
        rank(data[m]) < rank(data[x]),
        forall|s: int| 1 <= s < len && #[trigger] binary_parent(s) == x ==> rank(data[m]) <= rank(data[s]),
    ensures
        binary_ordered_below(swapped(data, x, m), len, m),
{
    let after = swapped(data, x, m);
    assert forall|s: int| 1 <= s < len && #[trigger] binary_parent(s) != m implies rank(
        after[binary_parent(s)],
    ) <= rank(after[s]) by {
        if s == x {
            assert(binary_parent(m) == x);
        }
    }
    assert forall|c: int| 1 <= c < len && #[trigger] binary_parent(c) == m && m >= 1 implies rank(
        after[binary_parent(m)],
    ) <= rank(after[c]) by {
    }
}

/// Once no child is below the slot, the heap is in order.
pub proof fn lemma_binary_down_done(data: Seq<u32>, len: int, x: int)
    requires
        binary_ordered_below(data, len, x),
        forall|s: int| 1 <= s < len && #[trigger] binary_parent(s) == x ==> rank(data[x]) <= rank(data[s]),
    ensures
        binary_ordered(data, len),
{
}

/// In heap order no slot is below the first one.
pub proof fn lemma_binary_top(data: Seq<u32>, len: int, s: int)
    requires
        binary_ordered(data, len),
        0 <= s < len,
    ensures
        rank(data[0]) <= rank(data[s]),
    decreases s,
{
    if s >= 1 {
        lemma_binary_top(data, len, binary_parent(s));
    }
}

/// Slot `s` is slot `x` or lies below it in the wide layout: `x` is on the
/// way from `s` to the top.
pub open spec fn wide_descends(s: int, x: int) -> bool
    decreases s,
{
    s == x || (s > x && s >= 16 && wide_descends(wide_parent(s), x))
}

/// What lies on or below a slot lies on or below that slot's parent.
pub proof fn lemma_wide_descends_parent(s: int, x: int)
    requires
        wide_descends(s, x),
        x >= 16,
    ensures
        wide_descends(s, wide_parent(x)),
    decreases s,
{
    if s == x {
        assert(wide_descends(wide_parent(x), wide_parent(x)));
    } else {
        lemma_wide_descends_parent(wide_parent(s), x);
    }
}

/// Slot `s` is slot `x` or lies below it in the binary layout: `x` is on the
/// way from `s` to the top.
pub open spec fn binary_descends(s: int, x: int) -> bool
    decreases s,
{
    s == x || (s > x && s >= 1 && binary_descends(binary_parent(s), x))
}

/// What lies on or below a slot lies on or below that slot's parent.
pub proof fn lemma_binary_descends_parent(s: int, x: int)
    requires
        binary_descends(s, x),
        x >= 1,
    ensures
        binary_descends(s, binary_parent(x)),
    decreases s,
{
    if s == x {
        assert(binary_descends(binary_parent(x), binary_parent(x)));
    } else {
        lemma_binary_descends_parent(binary_parent(s), x);
    }
}

} // verus!
