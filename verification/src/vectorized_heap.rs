//! The wide heap over one flat array of priorities: sixteen children per
//! slot, one group of sixteen slots at the top.

use vstd::prelude::*;
use vstd::slice::slice_subrange;
use crate::heap::{is_min_entry, pops, Heap};
use crate::min_finder::{min_index, LANES};
use crate::priority::{is_nan, less, rank, INFINITY};
use crate::slots::{
    contents, counted, indexed, lemma_group_min, lemma_wide_descends_parent, lemma_wide_down_done, wide_descends, lemma_wide_down_swap,
    lemma_wide_root, lemma_wide_up_done, lemma_wide_up_swap, no_nan, padded, swapped,
    wide_ordered, wide_ordered_above, wide_ordered_below, wide_parent, wide_root,
};

verus! {

/// A wide heap whose keys are handed out in the order of the pushes. A
/// slot's sixteen children are one group; the first group holds the
/// candidates for the minimum.
pub struct VectorizedHeap {
    data: Vec<u32>,
    len: usize,
    keys: Vec<usize>,
    reverse: Vec<usize>,
}

/// Appends one group of slots that hold positive infinity.
fn grow(data: &mut Vec<u32>)
    ensures
        final(data)@.len() == old(data)@.len() + 16,
        forall|s: int| 0 <= s < old(data)@.len() ==> final(data)@[s] == old(data)@[s],
        forall|s: int| old(data)@.len() <= s < final(data)@.len() ==> final(data)@[s] == INFINITY,
{
    let ghost start = data@;
    let mut n: usize = 0;
    while n < LANES
        invariant
            0 <= n <= 16,
            data@.len() == start.len() + n,
            forall|s: int| 0 <= s < start.len() ==> data@[s] == start[s],
            forall|s: int| start.len() <= s < data@.len() ==> data@[s] == INFINITY,
        decreases 16 - n,
    {
        data.push(INFINITY);
        n = n + 1;
    }
}

impl VectorizedHeap {
    /// The priority in each slot of the backing storage.
    pub closed spec fn slots(&self) -> Seq<u32> {
        self.data@
    }

    /// The key in each slot.
    pub closed spec fn slot_keys(&self) -> Seq<usize> {
        self.keys@
    }

    /// The slot of each key.
    pub closed spec fn key_slots(&self) -> Seq<usize> {
        self.reverse@
    }

    /// The number of occupied slots.
    pub closed spec fn count(&self) -> usize {
        self.len
    }

    /// All of the invariant but the heap order.
    pub open spec fn framed(&self) -> bool {
        &&& padded(self.slots(), self.count() as int)
        &&& self.count() <= self.slot_keys().len()
        &&& self.count() <= self.key_slots().len()
        &&& no_nan(self.slots(), self.count() as int)
        &&& indexed(self.slot_keys(), self.key_slots(), self.count() as int)
        &&& counted(self.view(), self.count() as int)
    }

    /// An empty heap.
    fn new_() -> (h: VectorizedHeap)
        ensures
            h.wf(),
            h.view() == Map::<usize, u32>::empty(),
            h.spec_len() == 0,
    {
        let h = VectorizedHeap { data: Vec::new(), len: 0, keys: Vec::new(), reverse: Vec::new() };
        assert(h.view() =~= Map::<usize, u32>::empty());
        h
    }

    /// Whether `key` occupies a slot.
    pub fn contains(&self, key: usize) -> (r: bool)
        requires
            self.wf(),
        ensures
            r == self.view().contains_key(key),
    {
        key < self.reverse.len() && self.reverse[key] < self.len && self.keys[self.reverse[key]] == key
    }

    /// Exchanges the entries of two slots and keeps the index in step.
    fn swap(&mut self, i: usize, j: usize)
        requires
            old(self).framed(),
            i < old(self).count(),
            j < old(self).count(),
        ensures
            final(self).framed(),
            final(self).count() == old(self).count(),
            final(self).slots() == swapped(old(self).slots(), i as int, j as int),
            final(self).slot_keys() == swapped(old(self).slot_keys(), i as int, j as int),
            final(self).key_slots() == old(self).key_slots().update(
                old(self).slot_keys()[j as int] as int,
                i,
            ).update(old(self).slot_keys()[i as int] as int, j),
            final(self).view() == old(self).view(),
    {
        let ghost before = self.view();
        let a: u32 = self.data[i];
        let b: u32 = self.data[j];
        self.data[i] = b;
        self.data[j] = a;
        let ka: usize = self.keys[i];
        let kb: usize = self.keys[j];
        self.keys[i] = kb;
        self.keys[j] = ka;
        self.reverse[kb] = i;
        self.reverse[ka] = j;
        assert(self.view() =~= before);
    }

    /// The occupied slot of smallest priority in the group that starts at `i`.
    pub fn find_min(&self, i: usize) -> (m: usize)
        requires
            self.framed(),
            i < self.count(),
            i % 16 == 0,
        ensures
            i <= m < i + 16,
            m < self.count(),
            i + 16 <= self.slots().len(),
            forall|s: int|
                i <= s < i + 16 ==> rank(self.slots()[m as int]) <= rank(#[trigger] self.slots()[s]),
            forall|s: int|
                i <= s < m ==> rank(self.slots()[m as int]) < rank(#[trigger] self.slots()[s]),
    {
        let stored: usize = self.data.len();
        assert(i + 16 <= stored) by {
            let d = self.slots().len() as int;
            assert(d == 16 * (d / 16) && i == 16 * (i as int / 16));
        }
        let group = slice_subrange(self.data.as_slice(), i, i + LANES);
        assert forall|s: int| 0 <= s < 16 implies !is_nan(#[trigger] group@[s]) by {
            assert(group@[s] == self.data@[i + s]);
        }
        let r = min_index(group);
        proof {
            lemma_group_min(self.slots(), self.count() as int, i as int, r as int);
        }
        i + r
    }

    /// Moves the entry of slot `index` up until its parent is not above it.
    fn bubble_up(&mut self, index: usize)
        requires
            old(self).framed(),
            index < old(self).count(),
            wide_ordered_above(old(self).slots(), old(self).count() as int, index as int),
        ensures
            final(self).wf(),
            final(self).view() == old(self).view(),
            final(self).spec_len() == old(self).spec_len(),
            forall|s: int|
                0 <= s < old(self).count() && !#[trigger] wide_descends(index as int, s) ==> final(self).slots()[s]
                    == old(self).slots()[s] && final(self).slot_keys()[s] == old(self).slot_keys()[s],
    {
        let ghost start = self.view();
        let ghost total = self.count();
        let ghost first_slots = self.slots();
        let ghost first_keys = self.slot_keys();
        let mut at: usize = index;
        let mut settled = false;
        while !settled && at >= LANES
            invariant
                self.framed(),
                at < self.count(),
                self.view() == start,
                self.count() == total,
                wide_descends(index as int, at as int),
                forall|s: int|
                    0 <= s < total && !#[trigger] wide_descends(index as int, s) ==> self.slots()[s]
                        == first_slots[s] && self.slot_keys()[s] == first_keys[s],
                settled ==> wide_ordered(self.slots(), self.count() as int),
                !settled ==> wide_ordered_above(self.slots(), self.count() as int, at as int),
            decreases
                    (if settled {
                        0
                    } else {
                        at + 1
                    }),
        {
            let parent: usize = at / LANES - 1;
            assert(parent == wide_parent(at as int));
            if less(self.data[at], self.data[parent]) {
                proof {
                    lemma_wide_up_swap(self.slots(), self.count() as int, at as int);
                    lemma_wide_descends_parent(index as int, at as int);
                }
                self.swap(at, parent);
                at = parent;
            } else {
                proof {
                    lemma_wide_up_done(self.slots(), self.count() as int, at as int);
                }
                settled = true;
            }
        }
        proof {
            if !settled {
                lemma_wide_up_done(self.slots(), self.count() as int, at as int);
            }
        }
    }

    /// Moves the entry of slot `index` down until no child is below it.
    fn bubble_down(&mut self, index: usize)
        requires
            old(self).framed(),
            index <= old(self).count(),
            wide_ordered_below(old(self).slots(), old(self).count() as int, index as int),
        ensures
            final(self).wf(),
            final(self).view() == old(self).view(),
            final(self).spec_len() == old(self).spec_len(),
            forall|s: int|
                0 <= s < old(self).count() && !#[trigger] wide_descends(s, index as int) ==> final(self).slots()[s]
                    == old(self).slots()[s] && final(self).slot_keys()[s] == old(self).slot_keys()[s],
    {
        let ghost start = self.view();
        let ghost total = self.count();
        let ghost first_slots = self.slots();
        let ghost first_keys = self.slot_keys();
        let mut at: usize = index;
        let mut settled = false;
        while !settled
            invariant
                self.framed(),
                at <= self.count(),
                self.view() == start,
                self.count() == total,
                wide_descends(at as int, index as int),
                forall|s: int|
                    0 <= s < total && !#[trigger] wide_descends(s, index as int) ==> self.slots()[s]
                        == first_slots[s] && self.slot_keys()[s] == first_keys[s],
                settled ==> wide_ordered(self.slots(), self.count() as int),
                !settled ==> wide_ordered_below(self.slots(), self.count() as int, at as int),
            decreases
                    (if settled {
                        0
                    } else {
                        self.count() - at + 1
                    }),
        {
            if at >= usize::MAX / LANES || self.len <= (at + 1) * LANES {
                proof {
                    lemma_wide_down_done(self.slots(), self.count() as int, at as int);
                }
                settled = true;
            } else {
                let child: usize = (at + 1) * LANES;
                let child_min = self.find_min(child);
                assert(wide_parent(child_min as int) == at);
                if less(self.data[child_min], self.data[at]) {
                    proof {
                        lemma_wide_down_swap(
                            self.slots(),
                            self.count() as int,
                            at as int,
                            child_min as int,
                        );
                    }
                    self.swap(at, child_min);
                    at = child_min;
                } else {
                    proof {
                        lemma_wide_down_done(self.slots(), self.count() as int, at as int);
                    }
                    settled = true;
                }
            }
        }
    }

    /// Puts `elem` into the last slot, under the key that is the number of
    /// entries before the call, and moves it up.
    fn push_(&mut self, elem: u32)
        requires
            old(self).wf(),
            !is_nan(elem),
            !old(self).view().contains_key(old(self).spec_len()),
        ensures
            final(self).wf(),
            final(self).view() == old(self).view().insert(old(self).spec_len(), elem),
            final(self).spec_len() == old(self).spec_len() + 1,
    {
        let ghost before = self.view();
        let index: usize = self.len;
        if index < self.keys.len() {
            self.keys[index] = index;
        } else {
            self.keys.push(index);
        }
        if index < self.reverse.len() {
            self.reverse[index] = index;
        } else {
            self.reverse.push(index);
        }
        if index % LANES == 0 {
            grow(&mut self.data);
        }
        assert(index < self.data.len());
        self.len = index + 1;
        self.data[index] = elem;
        assert(self.view() =~= before.insert(index, elem));
        self.bubble_up(index);
    }

    /// Takes out the entry of smallest priority, fills its slot from the last
    /// one and moves that entry down.
    fn pop_(&mut self) -> (r: Option<(usize, u32)>)
        requires
            old(self).wf(),
        ensures
            final(self).wf(),
            pops(old(self).view(), old(self).spec_len(), r, final(self).view(), final(self).spec_len()),
    {
        if self.len == 0 {
            return None;
        }
        let ghost before = self.view();
        let min = self.find_min(0);
        let val: u32 = self.data[min];
        let index: usize = self.keys[min];
        proof {
            assert forall|j: usize| before.contains_key(j) implies rank(val) <= rank(
                #[trigger] before[j],
            ) by {
                let s = self.reverse@[j as int] as int;
                lemma_wide_root(self.slots(), self.count() as int, s);
                assert(rank(val) <= rank(self.slots()[wide_root(s)]));
            }
            assert(is_min_entry(before, index, val));
        }
        let last: usize = self.len - 1;
        let moved: u32 = self.data[last];
        let moved_key: usize = self.keys[last];
        self.data[min] = moved;
        self.keys[min] = moved_key;
        self.reverse[moved_key] = min;
        self.len = last;
        self.data[last] = INFINITY;
        assert(self.view() =~= before.remove(index));
        self.bubble_down(min);
        Some((index, val))
    }

    /// Lowers the priority in the slot of `key` and moves the entry up.
    fn decrease_key_(&mut self, key: usize, new_val: u32)
        requires
            old(self).wf(),
            old(self).view().contains_key(key),
            !is_nan(new_val),
            rank(new_val) < rank(old(self).view()[key]),
        ensures
            final(self).wf(),
            final(self).view() == old(self).view().insert(key, new_val),
            final(self).spec_len() == old(self).spec_len(),
    {
        let ghost before = self.view();
        let index: usize = self.reverse[key];
        self.data[index] = new_val;
        assert(self.view() =~= before.insert(key, new_val));
        self.bubble_up(index);
    }
}

impl Heap for VectorizedHeap {
    open spec fn view(&self) -> Map<usize, u32> {
        contents(self.slots(), self.slot_keys(), self.key_slots(), self.count() as int)
    }

    open spec fn wf(&self) -> bool {
        self.framed() && wide_ordered(self.slots(), self.count() as int)
    }

    open spec fn spec_len(&self) -> usize {
        self.count()
    }

    fn new() -> (h: Self) {
        Self::new_()
    }

    fn push(&mut self, elem: u32) {
        self.push_(elem)
    }

    fn pop(&mut self) -> (r: Option<(usize, u32)>) {
        self.pop_()
    }

    fn decrease_key(&mut self, index: usize, new_value: u32) {
        self.decrease_key_(index, new_value)
    }

    fn len(&self) -> (n: usize) {
        self.len
    }
}

} // verus!
