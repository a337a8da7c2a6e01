//! The classic array heap with two children per slot.

use vstd::prelude::*;
use crate::heap::{is_min_entry, pops, Heap};
use crate::priority::{is_nan, less, rank};
use crate::slots::{
    binary_ordered, binary_ordered_above, binary_ordered_below, binary_parent, contents, counted,
    indexed,
    lemma_binary_descends_parent, lemma_binary_down_done, binary_descends, lemma_binary_down_swap, lemma_binary_top, lemma_binary_up_done,
    lemma_binary_up_swap, no_nan, swapped,
};

verus! {

/// A binary heap whose keys are handed out in the order of the pushes.
pub struct BinaryHeap {
    data: Vec<u32>,
    keys: Vec<usize>,
    reverse: Vec<usize>,
}

impl BinaryHeap {
    /// The priority in each slot.
    pub closed spec fn slots(&self) -> Seq<u32> {
        self.data@
    }

    /// The key in each slot.
    pub closed spec fn slot_keys(&self) -> Seq<usize> {
        self.keys@
    }

    /// The slot of each key.
    pub closed spec fn key_slots(&self) -> Seq<usize> {
        self.reverse@
    }

    /// The number of slots, all of them occupied.
    pub open spec fn count(&self) -> usize {
        self.slots().len() as usize
    }

    /// All of the invariant but the heap order.
    pub open spec fn framed(&self) -> bool {
        &&& self.slots().len() <= usize::MAX
        &&& self.slot_keys().len() == self.slots().len()
        &&& self.slots().len() <= self.key_slots().len()
        &&& no_nan(self.slots(), self.count() as int)
        &&& indexed(self.slot_keys(), self.key_slots(), self.count() as int)
        &&& counted(self.view(), self.count() as int)
    }

    /// An empty heap.
    fn new_() -> (h: BinaryHeap)
        ensures
            h.wf(),
            h.view() == Map::<usize, u32>::empty(),
            h.spec_len() == 0,
    {
        let h = BinaryHeap { data: Vec::new(), keys: Vec::new(), reverse: Vec::new() };
        assert(h.view() =~= Map::<usize, u32>::empty());
        h
    }

    /// Whether `key` occupies a slot.
    pub fn contains(&self, key: usize) -> (r: bool)
        requires
            self.wf(),
        ensures
            r == self.view().contains_key(key),
    {
        key < self.reverse.len() && self.reverse[key] < self.data.len() && self.keys[self.reverse[key]] == key
    }

    /// Exchanges the entries of two slots and keeps the index in step.
    fn swap(&mut self, i: usize, j: usize)
        requires
            old(self).framed(),
            i < old(self).count(),
            j < old(self).count(),
        ensures
            final(self).framed(),
            final(self).count() == old(self).count(),
            final(self).slots() == swapped(old(self).slots(), i as int, j as int),
            final(self).slot_keys() == swapped(old(self).slot_keys(), i as int, j as int),
            final(self).key_slots() == old(self).key_slots().update(
                old(self).slot_keys()[j as int] as int,
                i,
            ).update(old(self).slot_keys()[i as int] as int, j),
            final(self).view() == old(self).view(),
    {
        let ghost before = self.view();
        let a: u32 = self.data[i];
        let b: u32 = self.data[j];
        self.data[i] = b;
        self.data[j] = a;
        let ka: usize = self.keys[i];
        let kb: usize = self.keys[j];
        self.keys[i] = kb;
        self.keys[j] = ka;
        self.reverse[kb] = i;
        self.reverse[ka] = j;
        assert(self.view() =~= before);
    }

    /// Moves the entry of slot `index` up until its parent is not above it.
    fn bubble_up(&mut self, index: usize)
        requires
            old(self).framed(),
            index < old(self).count(),
            binary_ordered_above(old(self).slots(), old(self).count() as int, index as int),
        ensures
            final(self).wf(),
            final(self).view() == old(self).view(),
            final(self).spec_len() == old(self).spec_len(),
            forall|s: int|
                0 <= s < old(self).count() && !#[trigger] binary_descends(index as int, s) ==> final(self).slots()[s]
                    == old(self).slots()[s] && final(self).slot_keys()[s] == old(self).slot_keys()[s],
    {
        let ghost start = self.view();
        let ghost total = self.count();
        let ghost first_slots = self.slots();
        let ghost first_keys = self.slot_keys();
        let mut at: usize = index;
        let mut settled = false;
        while !settled && at > 0
            invariant
                self.framed(),
                at < self.count(),
                self.view() == start,
                self.count() == total,
                binary_descends(index as int, at as int),
                forall|s: int|
                    0 <= s < total && !#[trigger] binary_descends(index as int, s) ==> self.slots()[s]
                        == first_slots[s] && self.slot_keys()[s] == first_keys[s],
                settled ==> binary_ordered(self.slots(), self.count() as int),
                !settled ==> binary_ordered_above(self.slots(), self.count() as int, at as int),
            decreases
                    (if settled {
                        0
                    } else {
                        at + 1
                    }),
        {
            let parent: usize = (at - 1) / 2;
            assert(parent == binary_parent(at as int));
            if less(self.data[at], self.data[parent]) {
                proof {
                    lemma_binary_up_swap(self.slots(), self.count() as int, at as int);
                    lemma_binary_descends_parent(index as int, at as int);
                }
                self.swap(at, parent);
                at = parent;
            } else {
                proof {
                    lemma_binary_up_done(self.slots(), self.count() as int, at as int);
                }
                settled = true;
            }
        }
        proof {
            if !settled {
                lemma_binary_up_done(self.slots(), self.count() as int, at as int);
            }
        }
    }

    /// Moves the entry of slot `index` down until no child is below it.
    fn bubble_down(&mut self, index: usize)
        requires
            old(self).framed(),
            index <= old(self).count(),
            binary_ordered_below(old(self).slots(), old(self).count() as int, index as int),
        ensures
            final(self).wf(),
            final(self).view() == old(self).view(),
            final(self).spec_len() == old(self).spec_len(),
            forall|s: int|
                0 <= s < old(self).count() && !#[trigger] binary_descends(s, index as int) ==> final(self).slots()[s]
                    == old(self).slots()[s] && final(self).slot_keys()[s] == old(self).slot_keys()[s],
    {
        let ghost start = self.view();
        let ghost total = self.count();
        let ghost first_slots = self.slots();
        let ghost first_keys = self.slot_keys();
        let mut at: usize = index;
        let mut settled = false;
        while !settled
            invariant
                self.framed(),
                at <= self.count(),
                self.view() == start,
                self.count() == total,
                binary_descends(at as int, index as int),
                forall|s: int|
                    0 <= s < total && !#[trigger] binary_descends(s, index as int) ==> self.slots()[s]
                        == first_slots[s] && self.slot_keys()[s] == first_keys[s],
                settled ==> binary_ordered(self.slots(), self.count() as int),
                !settled ==> binary_ordered_below(self.slots(), self.count() as int, at as int),
            decreases
                    (if settled {
                        0
                    } else {
                        self.count() - at + 1
                    }),
        {
            if at >= usize::MAX / 2 || self.data.len() <= at * 2 + 1 {
                proof {
                    lemma_binary_down_done(self.slots(), self.count() as int, at as int);
                }
                settled = true;
            } else {
                let left_child: usize = at * 2 + 1;
                let right_child: usize = left_child + 1;
                let child: usize = if self.data.len() > right_child && less(
                    self.data[right_child],
                    self.data[left_child],
                ) {
                    right_child
                } else {
                    left_child
                };
                assert(binary_parent(child as int) == at);
                if less(self.data[child], self.data[at]) {
                    proof {
                        lemma_binary_down_swap(
                            self.slots(),
                            self.count() as int,
                            at as int,
                            child as int,
                        );
                    }
                    self.swap(at, child);
                    at = child;
                } else {
                    proof {
                        lemma_binary_down_done(self.slots(), self.count() as int, at as int);
                    }
                    settled = true;
                }
            }
        }
    }

    /// Puts `elem` into the last slot, under the key that is the number of
    /// entries before the call, and moves it up.
    fn push_(&mut self, elem: u32)
        requires
            old(self).wf(),
            !is_nan(elem),
            !old(self).view().contains_key(old(self).spec_len()),
        ensures
            final(self).wf(),
            final(self).view() == old(self).view().insert(old(self).spec_len(), elem),
            final(self).spec_len() == old(self).spec_len() + 1,
    {
        let ghost before = self.view();
        let index: usize = self.data.len();
        self.keys.push(index);
        if index < self.reverse.len() {
            self.reverse[index] = index;
        } else {
            self.reverse.push(index);
        }
        self.data.push(elem);
        let last: usize = self.data.len() - 1;
        assert(self.view() =~= before.insert(index, elem));
        self.bubble_up(last);
    }

    /// Takes out the entry of smallest priority, fills its slot from the last
    /// one and moves that entry down.
    fn pop_(&mut self) -> (r: Option<(usize, u32)>)
        requires
            old(self).wf(),
        ensures
            final(self).wf(),
            pops(old(self).view(), old(self).spec_len(), r, final(self).view(), final(self).spec_len()),
    {
        if self.data.len() == 0 {
            return None;
        }
        let ghost before = self.view();
        let val: u32 = self.data[0];
        let index: usize = self.keys[0];
        proof {
            assert forall|j: usize| before.contains_key(j) implies rank(val) <= rank(
                #[trigger] before[j],
            ) by {
                let s = self.reverse@[j as int] as int;
                lemma_binary_top(self.slots(), self.count() as int, s);
            }
            assert(is_min_entry(before, index, val));
        }
        let last: usize = self.data.len() - 1;
        let moved: u32 = self.data[last];
        let moved_key: usize = self.keys[last];
        self.data[0] = moved;
        self.keys[0] = moved_key;
        self.reverse[moved_key] = 0;
        self.data.truncate(last);
        self.keys.truncate(last);
        assert(self.view() =~= before.remove(index));
        self.bubble_down(0);
        Some((index, val))
    }

    /// Lowers the priority in the slot of `key` and moves the entry up.
    fn decrease_key_(&mut self, key: usize, new_val: u32)
        requires
            old(self).wf(),
            old(self).view().contains_key(key),
            !is_nan(new_val),
            rank(new_val) < rank(old(self).view()[key]),
        ensures
            final(self).wf(),
            final(self).view() == old(self).view().insert(key, new_val),
            final(self).spec_len() == old(self).spec_len(),
    {
        let ghost before = self.view();
        let index: usize = self.reverse[key];
        self.data[index] = new_val;
        assert(self.view() =~= before.insert(key, new_val));
        self.bubble_up(index);
    }
}

impl Heap for BinaryHeap {
    open spec fn view(&self) -> Map<usize, u32> {
        contents(self.slots(), self.slot_keys(), self.key_slots(), self.count() as int)
    }

    open spec fn wf(&self) -> bool {
        self.framed() && binary_ordered(self.slots(), self.count() as int)
    }

    open spec fn spec_len(&self) -> usize {
        self.count()
    }

    fn new() -> (h: Self) {
        Self::new_()
    }

    fn push(&mut self, elem: u32) {
        self.push_(elem)
    }

    fn pop(&mut self) -> (r: Option<(usize, u32)>) {
        self.pop_()
    }

    fn decrease_key(&mut self, index: usize, new_value: u32) {
        self.decrease_key_(index, new_value)
    }

    fn len(&self) -> (n: usize) {
        self.data.len()
    }
}

} // verus!
