//! The wide heap for a key universe that is known up front: slots are stored
//! group by group, keys are chosen by the caller, and one operation pushes a
//! key or lowers it.

use vstd::prelude::*;
use crate::heap::{is_min_entry, pops};
use crate::min_finder::{min_index, LANES};
use crate::priority::{is_nan, less, rank, INFINITY};
use crate::slots::{
    contents, counted, holds, indexed, lemma_group_min, lemma_room, lemma_wide_descends_parent, lemma_wide_down_done, wide_descends,
    lemma_wide_down_swap, lemma_wide_root, lemma_wide_up_done, lemma_wide_up_swap, no_nan, padded,
    swapped, wide_ordered, wide_ordered_above, wide_ordered_below, wide_parent, wide_root,
};

verus! {

/// Marks a key that occupies no slot.
pub const ABSENT: usize = usize::MAX;

/// Sixteen slots: one node of the heap.
#[derive(Clone, Copy)]
struct Group {
    keys: [usize; 16],
    data: [u32; 16],
}

impl Group {
    /// A group whose slots all hold positive infinity.
    fn new() -> (g: Group)
        ensures
            forall|l: int| 0 <= l < 16 ==> #[trigger] g.data@[l] == INFINITY,
    {
        Group { keys: [0usize; 16], data: [INFINITY; 16] }
    }
}

/// A wide heap over the keys below a fixed bound. A slot's sixteen children
/// are one group; the first group holds the candidates for the minimum.
pub struct VectorizedHeap {
    data: Vec<Group>,
    len: usize,
    reverse: Vec<usize>,
}

impl VectorizedHeap {
    /// The priority in each slot of the backing storage, group after group.
    pub closed spec fn slots(&self) -> Seq<u32> {
        Seq::new((self.data@.len() * 16) as nat, |s: int| self.data@[s / 16].data@[s % 16])
    }

    /// The key in each slot.
    pub closed spec fn slot_keys(&self) -> Seq<usize> {
        Seq::new((self.data@.len() * 16) as nat, |s: int| self.data@[s / 16].keys@[s % 16])
    }

    /// The slot of each key of the universe, `ABSENT` for a key that has none.
    pub closed spec fn key_slots(&self) -> Seq<usize> {
        self.reverse@
    }

    /// The number of occupied slots.
    pub closed spec fn count(&self) -> usize {
        self.len
    }

    /// Every key of the universe either occupies a slot or is marked absent.
    pub open spec fn absent_marked(&self) -> bool {
        forall|k: usize|
            k < self.key_slots().len() ==> holds(
                self.slot_keys(),
                self.key_slots(),
                self.count() as int,
                k,
            ) || #[trigger] self.key_slots()[k as int] == ABSENT
    }

    /// All of the invariant but the heap order.
    pub open spec fn framed(&self) -> bool {
        &&& padded(self.slots(), self.count() as int)
        &&& self.slot_keys().len() == self.slots().len()
        &&& no_nan(self.slots(), self.count() as int)
        &&& indexed(self.slot_keys(), self.key_slots(), self.count() as int)
        &&& counted(self.view(), self.count() as int)
        &&& self.absent_marked()
    }

    /// The priority of each key that the heap holds.
    pub open spec fn view(&self) -> Map<usize, u32> {
        contents(self.slots(), self.slot_keys(), self.key_slots(), self.count() as int)
    }

    /// The heap's invariant: its slots are in heap order, each key that it
    /// holds leads to its slot, and every other key is marked absent.
    pub open spec fn wf(&self) -> bool {
        self.framed() && wide_ordered(self.slots(), self.count() as int)
    }

    /// The number of entries.
    pub open spec fn spec_len(&self) -> usize {
        self.count()
    }

    /// The number of keys that the heap was made for.
    pub open spec fn universe(&self) -> nat {
        self.key_slots().len()
    }

    /// An empty heap for the keys below `size`.
    pub fn new(size: usize) -> (h: VectorizedHeap)
        ensures
            h.wf(),
            h.view() == Map::<usize, u32>::empty(),
            h.spec_len() == 0,
            h.universe() == size,
    {
        let h = VectorizedHeap { data: Vec::new(), len: 0, reverse: vec![ABSENT; size] };
        assert(h.view() =~= Map::<usize, u32>::empty());
        h
    }

    /// The key in slot `i`.
    fn key(&self, i: usize) -> (k: usize)
        requires
            i < self.slot_keys().len(),
        ensures
            k == self.slot_keys()[i as int],
    {
        self.data[i / LANES].keys[i % LANES]
    }

    /// The priority in slot `i`.
    fn data(&self, i: usize) -> (p: u32)
        requires
            i < self.slots().len(),
        ensures
            p == self.slots()[i as int],
    {
        self.data[i / LANES].data[i % LANES]
    }

    /// Writes the key of slot `i`.
    fn set_key(&mut self, i: usize, k: usize)
        requires
            i < old(self).slot_keys().len(),
        ensures
            final(self).slot_keys() == old(self).slot_keys().update(i as int, k),
            final(self).slots() == old(self).slots(),
            final(self).key_slots() == old(self).key_slots(),
            final(self).count() == old(self).count(),
    {
        let ghost keys = self.slot_keys();
        let ghost slots = self.slots();
        let mut group: Group = self.data[i / LANES];
        group.keys[i % LANES] = k;
        self.data[i / LANES] = group;
        assert(self.slot_keys() =~= keys.update(i as int, k));
        assert(self.slots() =~= slots);
    }

    /// Writes the priority of slot `i`.
    fn set_data(&mut self, i: usize, p: u32)
        requires
            i < old(self).slots().len(),
        ensures
            final(self).slots() == old(self).slots().update(i as int, p),
            final(self).slot_keys() == old(self).slot_keys(),
            final(self).key_slots() == old(self).key_slots(),
            final(self).count() == old(self).count(),
    {
        let ghost keys = self.slot_keys();
        let ghost slots = self.slots();
        let mut group: Group = self.data[i / LANES];
        group.data[i % LANES] = p;
        self.data[i / LANES] = group;
        assert(self.slots() =~= slots.update(i as int, p));
        assert(self.slot_keys() =~= keys);
    }

    /// Appends one group of slots that hold positive infinity.
    fn grow(&mut self)
        ensures
            final(self).slots().len() == old(self).slots().len() + 16,
            final(self).slot_keys().len() == old(self).slot_keys().len() + 16,
            forall|s: int|
                0 <= s < old(self).slots().len() ==> final(self).slots()[s] == old(self).slots()[s],
            forall|s: int|
                0 <= s < old(self).slot_keys().len() ==> final(self).slot_keys()[s] == old(
                    self,
                ).slot_keys()[s],
            forall|s: int|
                old(self).slots().len() <= s < final(self).slots().len() ==> final(self).slots()[s]
                    == INFINITY,
            final(self).key_slots() == old(self).key_slots(),
            final(self).count() == old(self).count(),
    {
        self.data.push(Group::new());
    }

    /// Exchanges the entries of two slots and keeps the index in step.
    fn swap(&mut self, i: usize, j: usize)
        requires
            old(self).framed(),
            i < old(self).count(),
            j < old(self).count(),
        ensures
            final(self).framed(),
            final(self).count() == old(self).count(),
            final(self).slots() == swapped(old(self).slots(), i as int, j as int),
            final(self).slot_keys() == swapped(old(self).slot_keys(), i as int, j as int),
            final(self).key_slots() == old(self).key_slots().update(
                old(self).slot_keys()[j as int] as int,
                i,
            ).update(old(self).slot_keys()[i as int] as int, j),
            final(self).view() == old(self).view(),
            final(self).universe() == old(self).universe(),
    {
        let ghost before = self.view();
        let a: u32 = self.data(i);
        let b: u32 = self.data(j);
        self.set_data(i, b);
        self.set_data(j, a);
        let ka: usize = self.key(i);
        let kb: usize = self.key(j);
        self.set_key(i, kb);
        self.set_key(j, ka);
        self.reverse[kb] = i;
        self.reverse[ka] = j;
        assert(self.view() =~= before);
    }

    /// The lane of smallest priority among the occupied slots of group `i`.
    pub fn find_min(&self, i: usize) -> (m: usize)
        requires
            self.framed(),
            i * 16 < self.count(),
        ensures
            m < 16,
            i * 16 + m < self.count(),
            i * 16 + 16 <= self.slots().len(),
            forall|s: int|
                i * 16 <= s < i * 16 + 16 ==> rank(self.slots()[i * 16 + m]) <= rank(
                    #[trigger] self.slots()[s],
                ),
            forall|s: int|
                i * 16 <= s < i * 16 + m ==> rank(self.slots()[i * 16 + m]) < rank(
                    #[trigger] self.slots()[s],
                ),
    {
        let group: Group = self.data[i];
        let lanes = group.data.as_slice();
        assert(lanes@ =~= self.slots().subrange(i * 16, i * 16 + 16));
        assert forall|s: int| 0 <= s < 16 implies !is_nan(#[trigger] lanes@[s]) by {
            assert(lanes@[s] == self.slots()[i * 16 + s]);
        }
        let r = min_index(lanes);
        proof {
            lemma_group_min(self.slots(), self.count() as int, i * 16, r as int);
        }
        r
    }

    /// Moves the entry of slot `index` up until its parent is not above it.
    fn bubble_up(&mut self, index: usize)
        requires
            old(self).framed(),
            index < old(self).count(),
            wide_ordered_above(old(self).slots(), old(self).count() as int, index as int),
        ensures
            final(self).wf(),
            final(self).view() == old(self).view(),
            final(self).spec_len() == old(self).spec_len(),
            forall|s: int|
                0 <= s < old(self).count() && !#[trigger] wide_descends(index as int, s) ==> final(self).slots()[s]
                    == old(self).slots()[s] && final(self).slot_keys()[s] == old(self).slot_keys()[s],
            final(self).universe() == old(self).universe(),
    {
        let ghost start = self.view();
        let ghost total = self.count();
        let ghost first_slots = self.slots();
        let ghost first_keys = self.slot_keys();
        let ghost wide = self.universe();
        let mut at: usize = index;
        let mut settled = false;
        while !settled && at >= LANES
            invariant
                self.framed(),
                at < self.count(),
                self.view() == start,
                self.count() == total,
                wide_descends(index as int, at as int),
                forall|s: int|
                    0 <= s < total && !#[trigger] wide_descends(index as int, s) ==> self.slots()[s]
                        == first_slots[s] && self.slot_keys()[s] == first_keys[s],
                self.universe() == wide,
                settled ==> wide_ordered(self.slots(), self.count() as int),
                !settled ==> wide_ordered_above(self.slots(), self.count() as int, at as int),
            decreases
                    (if settled {
                        0
                    } else {
                        at + 1
                    }),
        {
            let parent: usize = at / LANES - 1;
            assert(parent == wide_parent(at as int));
            if less(self.data(at), self.data(parent)) {
                proof {
                    lemma_wide_up_swap(self.slots(), self.count() as int, at as int);
                    lemma_wide_descends_parent(index as int, at as int);
                }
                self.swap(at, parent);
                at = parent;
            } else {
                proof {
                    lemma_wide_up_done(self.slots(), self.count() as int, at as int);
                }
                settled = true;
            }
        }
        proof {
            if !settled {
                lemma_wide_up_done(self.slots(), self.count() as int, at as int);
            }
        }
    }

    /// Moves the entry of slot `index` down until no child is below it.
    fn bubble_down(&mut self, index: usize)
        requires
            old(self).framed(),
            index <= old(self).count(),
            wide_ordered_below(old(self).slots(), old(self).count() as int, index as int),
        ensures
            final(self).wf(),
            final(self).view() == old(self).view(),
            final(self).spec_len() == old(self).spec_len(),
            forall|s: int|
                0 <= s < old(self).count() && !#[trigger] wide_descends(s, index as int) ==> final(self).slots()[s]
                    == old(self).slots()[s] && final(self).slot_keys()[s] == old(self).slot_keys()[s],
            final(self).universe() == old(self).universe(),
    {
        let ghost start = self.view();
        let ghost total = self.count();
        let ghost first_slots = self.slots();
        let ghost first_keys = self.slot_keys();
        let ghost wide = self.universe();
        let mut at: usize = index;
        let mut settled = false;
        while !settled
            invariant
                self.framed(),
                at <= self.count(),
                self.view() == start,
                self.count() == total,
                wide_descends(at as int, index as int),
                forall|s: int|
                    0 <= s < total && !#[trigger] wide_descends(s, index as int) ==> self.slots()[s]
                        == first_slots[s] && self.slot_keys()[s] == first_keys[s],
                self.universe() == wide,
                settled ==> wide_ordered(self.slots(), self.count() as int),
                !settled ==> wide_ordered_below(self.slots(), self.count() as int, at as int),
            decreases
                    (if settled {
                        0
                    } else {
                        self.count() - at + 1
                    }),
        {
            if at >= usize::MAX / LANES || self.len <= (at + 1) * LANES {
                proof {
                    lemma_wide_down_done(self.slots(), self.count() as int, at as int);
                }
                settled = true;
            } else {
                let child: usize = (at + 1) * LANES;
                let child_min: usize = self.find_min(child / LANES) + child;
                assert(wide_parent(child_min as int) == at);
                if less(self.data(child_min), self.data(at)) {
                    proof {
                        lemma_wide_down_swap(
                            self.slots(),
                            self.count() as int,
                            at as int,
                            child_min as int,
                        );
                    }
                    self.swap(at, child_min);
                    at = child_min;
                } else {
                    proof {
                        lemma_wide_down_done(self.slots(), self.count() as int, at as int);
                    }
                    settled = true;
                }
            }
        }
    }

    /// Puts `key` into the heap with priority `elem`.
    pub fn push(&mut self, elem: u32, key: usize)
        requires
            old(self).wf(),
            !is_nan(elem),
            key < old(self).universe(),
            !old(self).view().contains_key(key),
        ensures
            final(self).wf(),
            final(self).view() == old(self).view().insert(key, elem),
            final(self).spec_len() == old(self).spec_len() + 1,
            final(self).universe() == old(self).universe(),
    {
        let ghost before = self.view();
        let index: usize = self.len;
        let universe: usize = self.reverse.len();
        proof {
            lemma_room(before, universe as nat, key);
        }
        if index % LANES == 0 {
            self.grow();
        }
        assert(index < self.slots().len());
        self.set_key(index, key);
        self.set_data(index, elem);
        self.reverse[key] = index;
        self.len = index + 1;
        assert(self.view() =~= before.insert(key, elem));
        self.bubble_up(index);
    }

    /// Takes an entry of smallest priority out of the heap, if there is one.
    pub fn pop(&mut self) -> (r: Option<(usize, u32)>)
        requires
            old(self).wf(),
        ensures
            final(self).wf(),
            pops(old(self).view(), old(self).spec_len(), r, final(self).view(), final(self).spec_len()),
            final(self).universe() == old(self).universe(),
    {
        if self.len == 0 {
            return None;
        }
        let ghost before = self.view();
        let min = self.find_min(0);
        let val: u32 = self.data(min);
        let index: usize = self.key(min);
        proof {
            assert forall|j: usize| before.contains_key(j) implies rank(val) <= rank(
                #[trigger] before[j],
            ) by {
                let s = self.reverse@[j as int] as int;
                lemma_wide_root(self.slots(), self.count() as int, s);
                assert(rank(val) <= rank(self.slots()[wide_root(s)]));
            }
            assert(is_min_entry(before, index, val));
        }
        let last: usize = self.len - 1;
        let moved: u32 = self.data(last);
        let moved_key: usize = self.key(last);
        self.set_data(min, moved);
        self.set_key(min, moved_key);
        self.reverse[moved_key] = min;
        self.len = last;
        self.set_data(last, INFINITY);
        self.reverse[index] = ABSENT;
        assert(self.view() =~= before.remove(index));
        self.bubble_down(min);
        Some((index, val))
    }

    /// Lowers the priority of `key` to `new_val`.
    pub fn decrease_key(&mut self, key: usize, new_val: u32)
        requires
            old(self).wf(),
            old(self).view().contains_key(key),
            !is_nan(new_val),
            rank(new_val) < rank(old(self).view()[key]),
        ensures
            final(self).wf(),
            final(self).view() == old(self).view().insert(key, new_val),
            final(self).spec_len() == old(self).spec_len(),
            final(self).universe() == old(self).universe(),
    {
        let ghost before = self.view();
        let index: usize = self.reverse[key];
        self.set_data(index, new_val);
        assert(self.view() =~= before.insert(key, new_val));
        self.bubble_up(index);
    }

    /// Pushes `key` if the heap does not hold it, and lowers its priority if
    /// it does.
    pub fn push_or_decrease_key(&mut self, key: usize, new_val: u32)
        requires
            old(self).wf(),
            key < old(self).universe(),
            !is_nan(new_val),
            old(self).view().contains_key(key) ==> rank(new_val) < rank(old(self).view()[key]),
        ensures
            final(self).wf(),
            final(self).view() == old(self).view().insert(key, new_val),
            final(self).spec_len() == old(self).spec_len() + (if old(self).view().contains_key(key) {
                0int
            } else {
                1int
            }),
            final(self).universe() == old(self).universe(),
    {
        if self.reverse[key] == ABSENT {
            self.push(new_val, key);
        } else {
            self.decrease_key(key, new_val);
        }
    }

    /// Whether `key` occupies a slot.
    pub fn contains(&self, key: usize) -> (r: bool)
        requires
            self.wf(),
            key < self.universe(),
        ensures
            r == self.view().contains_key(key),
    {
        self.reverse[key] != ABSENT
    }

    /// The number of entries.
    pub fn len(&self) -> (n: usize)
        ensures
            n == self.spec_len(),
    {
        self.len
    }

    /// Whether the heap holds no entry.
    pub fn is_empty(&self) -> (r: bool)
        ensures
            r == (self.spec_len() == 0),
    {
        self.len == 0
    }
}

} // verus!
