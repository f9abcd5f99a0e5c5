//! Balanced partitioning: rearrange a slice around a pivot index so that
//! nothing before the pivot is greater than it and nothing after is smaller,
//! steering the two sides toward equal size as it goes.

use vstd::prelude::*;
use vstd::laws_cmp::obeys_cmp;
use crate::order::le;
use crate::order::lemma_total_order;
use crate::slices::exchange;
use crate::slices::permutes_range;
use crate::slices::lemma_swap_permutes;

verus! {

/// `p` splits `s[lo..hi]`: every element of `lo..=p` is at most `s[p]`, and
/// every element of `p..hi` is at least `s[p]`.
pub open spec fn splits_at<T: Ord>(s: Seq<T>, lo: int, p: int, hi: int) -> bool {
    &&& lo <= p < hi
    &&& forall|i: int| lo <= i <= p ==> le(#[trigger] s[i], s[p])
    &&& forall|i: int| p <= i < hi ==> le(s[p], #[trigger] s[i])
}

/// Where the two elements taken from the unclassified gap go.
enum Placement {
    Split,
    Low,
    High,
}

/// The state of a partitioning of `s[lo..hi]`: `lo..=low` is the low side,
/// whose largest element stands at `low_max`, and `high..hi` the high side,
/// whose smallest element stands at `high_min`; no low element exceeds a high one.
spec fn partition_state<T: Ord>(
    s: Seq<T>,
    lo: int,
    hi: int,
    low: int,
    high: int,
    low_max: int,
    high_min: int,
) -> bool {
    &&& lo <= low_max <= low < high <= high_min < hi <= s.len()
    &&& le(s[low_max], s[high_min])
    &&& forall|i: int| lo <= i <= low ==> le(#[trigger] s[i], s[low_max])
    &&& forall|i: int| high <= i < hi ==> le(s[high_min], #[trigger] s[i])
}

/// Partitions `s[lo..hi]` around a pivot index, which it returns.
#[verifier::rlimit(30)]
pub(crate) fn partition_range<T: Ord>(s: &mut [T], lo: usize, hi: usize) -> (p: usize)
    requires
        obeys_cmp::<T>(),
        lo + 2 <= hi <= old(s)@.len(),
    ensures
        permutes_range(final(s)@, old(s)@, lo as int, hi as int),
        splits_at(final(s)@, lo as int, p as int, hi as int),
{
    let ghost s0 = s@;
    proof {
        lemma_total_order::<T>();
    }
    // Order the two ends, so that each can seed its side.
    if s[lo] > s[hi - 1] {
        let ghost prev = s@;
        exchange(s, lo, hi - 1);
        proof {
            lemma_swap_permutes(prev, lo as int, hi - 1, s0, lo as int, hi as int);
        }
    }
    let mut low: usize = lo;
    let mut high: usize = hi - 1;
    let mut low_max: usize = low;
    let mut high_min: usize = high;

    loop
        invariant
            obeys_cmp::<T>(),
            lo + 2 <= hi <= s0.len(),
            s0 == old(s)@,
            permutes_range(s@, s0, lo as int, hi as int),
            partition_state(
                s@,
                lo as int,
                hi as int,
                low as int,
                high as int,
                low_max as int,
                high_min as int,
            ),
        decreases high - low,
    {
        proof {
            lemma_total_order::<T>();
        }
        if high - low <= 3 {
            return finish_partition(s, lo, hi, low, high, low_max, high_min, Ghost(s0));
        }
        // Take the next element from each end of the gap.

        low = low + 1;
        high = high - 1;
        let ghost x = s@[low as int];
        let ghost y = s@[high as int];
        let nlow: usize = low - lo + 1;
        let nhigh: usize = hi - high;

        let place = if s[low] < s[low_max] && s[high] < s[low_max] {
            // Both are below the low side's maximum: they must go low.
            Placement::Low
        } else if s[low] > s[high_min] && s[high] > s[high_min] {
            // Both are above the high side's minimum: they must go high.
            Placement::High
        } else if nlow + 1 < nhigh && s[low] <= s[high_min] && s[high] <= s[high_min] {
            // The low side is short, and both may go there.
            Placement::Low
        } else if nhigh + 1 < nlow && s[low] >= s[low_max] && s[high] >= s[low_max] {
            // The high side is short, and both may go there.
            Placement::High
        } else {
            Placement::Split
        };

        match place {
            Placement::Low => {
                assert(le(x, s@[high_min as int]) && le(y, s@[high_min as int]));
                // Bring the high element down beside the low one.
                let ghost prev = s@;
                exchange(s, low + 1, high);
                proof {
                    lemma_swap_permutes(prev, low + 1, high as int, s0, lo as int, hi as int);
                }
                if s[low] > s[low_max] {
                    low_max = low;
                }
                if s[low + 1] > s[low_max] {
                    low_max = low + 1;
                }
                low = low + 1;
                high = high + 1;
            },
            Placement::High => {
                assert(le(s@[low_max as int], x) && le(s@[low_max as int], y));
                // Bring the low element up beside the high one.
                let ghost prev = s@;
                exchange(s, low, high - 1);
                proof {
                    lemma_swap_permutes(prev, low as int, high - 1, s0, lo as int, hi as int);
                }
                if s[high] < s[high_min] {
                    high_min = high;
                }
                if s[high - 1] < s[high_min] {
                    high_min = high - 1;
                }
                low = low - 1;
                high = high - 1;
            },
            Placement::Split => {
                // The smaller goes low and the larger high.
                if s[low] > s[high] {
                    let ghost prev = s@;
                    exchange(s, low, high);
                    proof {
                        lemma_swap_permutes(prev, low as int, high as int, s0, lo as int, hi as int);
                    }
                }
                if s[low] > s[low_max] {
                    low_max = low;
                }
                if s[high] < s[high_min] {
                    high_min = high;
                }
            },
        }
    }
}

/// Ends a partitioning once at most two elements remain unclassified: orders
/// them, moves into the low side those that fit there, and puts the low
/// side's maximum at the pivot index, which it returns.
fn finish_partition<T: Ord>(
    s: &mut [T],
    lo: usize,
    hi: usize,
    low: usize,
    high: usize,
    low_max: usize,
    high_min: usize,
    Ghost(s0): Ghost<Seq<T>>,
) -> (p: usize)
    requires
        obeys_cmp::<T>(),
        high - low <= 3,
        permutes_range(old(s)@, s0, lo as int, hi as int),
        partition_state(
            old(s)@,
            lo as int,
            hi as int,
            low as int,
            high as int,
            low_max as int,
            high_min as int,
        ),
    ensures
        permutes_range(final(s)@, s0, lo as int, hi as int),
        splits_at(final(s)@, lo as int, p as int, hi as int),
{
    proof {
        lemma_total_order::<T>();
    }
    let mut low = low;
    let mut low_max = low_max;
    // The gap holds at most two elements: one comparison puts them in order.
    if high - low == 3 && s[low + 1] > s[low + 2] {
        let ghost prev = s@;
        exchange(s, low + 1, low + 2);
        proof {
            lemma_swap_permutes(prev, low + 1, low + 2, s0, lo as int, hi as int);
        }
    }
    // Move into the low side every gap element that may go there.
    while low + 1 < high && s[low + 1] <= s[high_min]
        invariant
            obeys_cmp::<T>(),
            permutes_range(s@, s0, lo as int, hi as int),
            partition_state(
                s@,
                lo as int,
                hi as int,
                low as int,
                high as int,
                low_max as int,
                high_min as int,
            ),
            forall|i: int, j: int| low < i < j < high ==> le(#[trigger] s@[i], #[trigger] s@[j]),
        decreases high - low,
    {
        proof {
            lemma_total_order::<T>();
        }
        low = low + 1;
        if s[low] > s[low_max] {
            low_max = low;
        }
    }
    let pivot = low;
    let ghost before = s@;
    let ghost top = s@[low_max as int];
    proof {
        // What is left of the gap lies above the high side's minimum.
        assert forall|i: int| pivot < i < high implies le(before[high_min as int], #[trigger] before[i]) by {
            assert(!le(before[pivot + 1], before[high_min as int]));
            assert(le(before[high_min as int], before[pivot + 1]));
            if i > pivot + 1 {
                assert(le(before[pivot + 1], before[i]));
            }
        }
    }
    // The pivot holds the largest element of the low side.
    if low_max != pivot {
        exchange(s, low_max, pivot);
        proof {
            lemma_swap_permutes(before, low_max as int, pivot as int, s0, lo as int, hi as int);
        }
    }
    proof {
        assert(s@[pivot as int] == top);
        assert(le(top, top));
        assert forall|i: int| lo <= i <= pivot implies le(#[trigger] s@[i], s@[pivot as int]) by {
            if i == low_max {
                assert(le(before[pivot as int], top));
            } else if i != pivot {
                assert(le(before[i], top));
            }
        }
        assert forall|i: int| pivot <= i < hi implies le(s@[pivot as int], #[trigger] s@[i]) by {
            if pivot < i < high {
                assert(le(before[high_min as int], before[i]));
            } else if i >= high {
                assert(le(before[high_min as int], before[i]));
            }
        }
    }
    pivot
}

/// Rearranges `slice` and returns a pivot index `p`: every element at an
/// index up to `p` is at most `slice[p]`, and every element at an index from
/// `p` on is at least `slice[p]`. The sides are kept close to equal in size.
pub fn partition<T: Ord>(slice: &mut [T]) -> (p: usize)
    requires
        obeys_cmp::<T>(),
        old(slice)@.len() >= 2,
    ensures
        final(slice)@.len() == old(slice)@.len(),
        final(slice)@.to_multiset() == old(slice)@.to_multiset(),
        p < final(slice)@.len(),
        forall|i: int| 0 <= i <= p ==> le(#[trigger] final(slice)@[i], final(slice)@[p as int]),
        forall|i: int|
            p <= i < final(slice)@.len() ==> le(final(slice)@[p as int], #[trigger] final(slice)@[i]),
{
    let ghost s0 = slice@;
    let n = slice.len();
    let p = partition_range(slice, 0, n);
    assert(slice@.subrange(0, n as int) =~= slice@);
    assert(s0.subrange(0, n as int) =~= s0);
    p
}

} // verus!
