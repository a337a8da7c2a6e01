//! Tournament reduction that finds the smallest priority of one group.

use vstd::prelude::*;
use vstd::slice::slice_subrange;
use crate::priority::{float_le, is_nan, less_or_equal, rank};

verus! {

/// Width of a group: the branching factor of the wide heaps.
pub const LANES: usize = 16;

/// Slot `p` wins against slot `i`: its priority is smaller, or equal with
/// `p` not after `i`.
pub open spec fn beats(arr: Seq<u32>, p: int, i: int) -> bool {
    rank(arr[p]) < rank(arr[i]) || (rank(arr[p]) == rank(arr[i]) && p <= i)
}

/// `r` is the first slot of `arr` that holds its smallest priority.
pub open spec fn is_first_min(arr: Seq<u32>, r: int) -> bool {
    &&& 0 <= r < arr.len()
    &&& forall|i: int| 0 <= i < arr.len() ==> rank(arr[r]) <= rank(#[trigger] arr[i])
    &&& forall|i: int| 0 <= i < r ==> rank(arr[r]) < rank(#[trigger] arr[i])
}

/// Compares two vectors lane by lane: lane `j` of the mask says whether
/// `a[j] <= b[j]`. Despite its name the comparison is less-or-equal.
pub fn f32_lt(a: &[u32], b: &[u32]) -> (mask: Vec<bool>)
    requires
        a@.len() == b@.len(),
    ensures
        mask@.len() == a@.len(),
        forall|j: int| 0 <= j < a@.len() ==> #[trigger] mask@[j] == float_le(a@[j], b@[j]),
{
    let mut mask: Vec<bool> = Vec::new();
    let mut j: usize = 0;
    while j < a.len()
        invariant
            0 <= j <= a@.len(),
            a@.len() == b@.len(),
            mask@.len() == j,
            forall|k: int| 0 <= k < j ==> #[trigger] mask@[k] == float_le(a@[k], b@[k]),
        decreases a@.len() - j,
    {
        mask.push(less_or_equal(a[j], b[j]));
        j = j + 1;
    }
    mask
}

/// Index of the smallest priority of a group, the lowest such index where
/// several slots hold it.
///
/// The group is halved round by round: the lower half is compared with the
/// upper half lane by lane, and the winner of lane `j` stays there with the
/// index it came from, until one lane is left. The lower lane wins when its
/// priority is less or equal, unless the two are equal and the upper lane
/// carries the earlier index.
pub fn min_index(arr: &[u32]) -> (r: usize)
    requires
        arr@.len() == 16,
        forall|i: int| 0 <= i < 16 ==> !is_nan(#[trigger] arr@[i]),
    ensures
        is_first_min(arr@, r as int),
{
    let mut vals: [u32; 16] = [0u32; 16];
    let mut idxs: [usize; 16] = [0usize; 16];
    let mut i: usize = 0;
    while i < LANES
        invariant
            0 <= i <= 16,
            arr@.len() == 16,
            forall|j: int| 0 <= j < i ==> idxs@[j] == j && vals@[j] == arr@[j],
        decreases 16 - i,
    {
        vals[i] = arr[i];
        idxs[i] = i;
        i = i + 1;
    }
    let ghost mut cover: Seq<int> = Seq::new(16, |i: int| i);
    let mut width: usize = LANES;
    while width > 1
        invariant
            width == 16 || width == 8 || width == 4 || width == 2 || width == 1,
            vals@.len() == 16,
            idxs@.len() == 16,
            cover.len() == 16,
            arr@.len() == 16,
            forall|i: int| 0 <= i < 16 ==> !is_nan(#[trigger] arr@[i]),
            forall|j: int| 0 <= j < width ==> 0 <= #[trigger] idxs@[j] < 16 && vals@[j] == arr@[idxs@[j] as int],
            forall|i: int| 0 <= i < 16 ==> 0 <= #[trigger] cover[i] < width && beats(arr@, idxs@[cover[i]] as int, i),
        decreases width,
    {
        let half: usize = width / 2;
        let ghost before = idxs@;
        let lower = slice_subrange(vals.as_slice(), 0, half);
        let upper = slice_subrange(vals.as_slice(), half, width);
        let le = f32_lt(lower, upper);
        let ge = f32_lt(upper, lower);
        assert forall|k: int| 0 <= k < half implies le@[k] == (rank(arr@[before[k] as int]) <= rank(
            arr@[before[k + half] as int],
        )) && ge@[k] == (rank(arr@[before[k + half] as int]) <= rank(arr@[before[k] as int])) by {
            assert(lower@[k] == vals@[k]);
            assert(upper@[k] == vals@[k + half]);
            assert(le@[k] == float_le(lower@[k], upper@[k]));
            assert(ge@[k] == float_le(upper@[k], lower@[k]));
        }
        let mut j: usize = 0;
        while j < half
            invariant
                0 <= j <= half,
                width == 2 * half,
                1 <= width <= 16,
                vals@.len() == 16,
                idxs@.len() == 16,
                before.len() == 16,
                arr@.len() == 16,
                le@.len() == half,
                ge@.len() == half,
                forall|k: int|
                    0 <= k < half ==> le@[k] == (rank(arr@[before[k] as int]) <= rank(
                        arr@[before[k + half] as int],
                    )) && ge@[k] == (rank(arr@[before[k + half] as int]) <= rank(
                        arr@[before[k] as int],
                    )),
                forall|i: int| 0 <= i < 16 ==> !is_nan(#[trigger] arr@[i]),
                forall|k: int| 0 <= k < width ==> 0 <= #[trigger] before[k] < 16,
                forall|k: int| j <= k < 16 ==> idxs@[k] == before[k],
                forall|k: int| 0 <= k < width ==> 0 <= #[trigger] idxs@[k] < 16 && vals@[k] == arr@[idxs@[k] as int],
                forall|k: int| 0 <= k < j ==> beats(arr@, #[trigger] idxs@[k] as int, before[k] as int)
                    && beats(arr@, idxs@[k] as int, before[k + half] as int),
            decreases half - j,
        {
            let stays: bool = le[j] && (!ge[j] || idxs[j] < idxs[j + half]);
            if !stays {
                let v: u32 = vals[j + half];
                let x: usize = idxs[j + half];
                vals[j] = v;
                idxs[j] = x;
            }
            j = j + 1;
        }
        proof {
            let fresh = Seq::new(16, |i: int| if cover[i] >= half { cover[i] - half } else { cover[i] });
            assert forall|i: int| 0 <= i < 16 implies 0 <= #[trigger] fresh[i] < half && beats(
                arr@,
                idxs@[fresh[i]] as int,
                i,
            ) by {
                let c = cover[i];
                assert(beats(arr@, before[c] as int, i));
                let k = fresh[i];
                assert(beats(arr@, idxs@[k] as int, before[k] as int));
                assert(beats(arr@, idxs@[k] as int, before[k + half] as int));
            }
            cover = fresh;
        }
        width = half;
    }
    proof {
        let r = idxs@[0] as int;
        assert forall|i: int| 0 <= i < 16 implies rank(arr@[r]) <= rank(#[trigger] arr@[i]) by {
            assert(beats(arr@, idxs@[cover[i]] as int, i));
        }
        assert forall|i: int| 0 <= i < r implies rank(arr@[r]) < rank(#[trigger] arr@[i]) by {
            assert(beats(arr@, idxs@[cover[i]] as int, i));
        }
    }
    idxs[0]
}

} // verus!
