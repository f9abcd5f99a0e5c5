//! Quicksort driven by the balanced partition.

use vstd::prelude::*;
use vstd::laws_cmp::obeys_cmp;
use crate::order::le;
use crate::order::lemma_total_order;
use crate::partition::partition_range;
use crate::slices::permutes_range;
use crate::slices::lemma_permutes_wider;
use crate::slices::lemma_permutes_trans;
use crate::slices::lemma_permutes_member;

verus! {

/// `s[lo..hi]` is in non-decreasing order.
pub open spec fn sorted_between<T: Ord>(s: Seq<T>, lo: int, hi: int) -> bool {
    forall|i: int, j: int| lo <= i < j < hi ==> le(#[trigger] s[i], #[trigger] s[j])
}

/// `s` is in non-decreasing order.
pub open spec fn is_sorted<T: Ord>(s: Seq<T>) -> bool {
    sorted_between(s, 0, s.len() as int)
}

/// Sorts `s[lo..hi]`, leaving the rest of `s` as it was.
fn sort_range<T: Ord>(s: &mut [T], lo: usize, hi: usize)
    requires
        obeys_cmp::<T>(),
        lo <= hi <= old(s)@.len(),
    ensures
        permutes_range(final(s)@, old(s)@, lo as int, hi as int),
        sorted_between(final(s)@, lo as int, hi as int),
    decreases hi - lo,
{
    if hi - lo <= 1 {
        return;
    }
    let ghost s0 = s@;
    let p = partition_range(s, lo, hi);
    let ghost s1 = s@;
    sort_range(s, lo, p);
    let ghost s2 = s@;
    sort_range(s, p + 1, hi);
    let ghost s3 = s@;
    proof {
        lemma_total_order::<T>();
        let pivot = s1[p as int];
        assert(s3[p as int] == pivot);
        // Everything in front of the pivot came from the low side.
        assert forall|i: int| lo <= i <= p implies le(#[trigger] s3[i], pivot) by {
            if i < p {
                let m = lemma_permutes_member(s2, s1, lo as int, p as int, i);
                assert(le(s1[m], pivot));
            }
        }
        // Everything behind it came from the high side.
        assert forall|i: int| p <= i < hi implies le(pivot, #[trigger] s3[i]) by {
            if i > p {
                let m = lemma_permutes_member(s3, s2, p + 1, hi as int, i);
                assert(s2[m] == s1[m]);
                assert(le(pivot, s1[m]));
            }
        }
        assert forall|i: int, j: int| lo <= i < j < hi implies le(
            #[trigger] s3[i],
            #[trigger] s3[j],
        ) by {
            if j < p {
                assert(s3[i] == s2[i] && s3[j] == s2[j]);
            } else if i > p {
            } else {
                assert(le(s3[i], pivot) && le(pivot, s3[j]));
            }
        }
        lemma_permutes_wider(s2, s1, lo as int, p as int, lo as int, hi as int);
        lemma_permutes_wider(s3, s2, p + 1, hi as int, lo as int, hi as int);
        lemma_permutes_trans(s2, s1, s0, lo as int, hi as int);
        lemma_permutes_trans(s3, s2, s0, lo as int, hi as int);
    }
}

/// No two distinct values of `T` are each at most the other.
pub open spec fn antisymmetric<T: Ord>() -> bool {
    forall|a: T, b: T| le(a, b) && le(b, a) ==> a == b
}

/// Sorting is idempotent: where no two distinct values are equivalent, two
/// sorted sequences with the same elements are the same sequence, so sorting
/// a sorted sequence gives it back.
pub proof fn lemma_sorted_arrangement_unique<T: Ord>(s: Seq<T>, t: Seq<T>)
    requires
        obeys_cmp::<T>(),
        antisymmetric::<T>(),
        is_sorted(s),
        is_sorted(t),
        s.to_multiset() == t.to_multiset(),
    ensures
        s == t,
    decreases s.len(),
{
    broadcast use vstd::seq_lib::group_to_multiset_ensures;

    lemma_total_order::<T>();
    if s.len() == 0 {
        assert(t.to_multiset().len() == 0);
        assert(s =~= t);
    } else {
        assert(t.len() == t.to_multiset().len());
        assert(s.len() == s.to_multiset().len());
        // The first element of each is the least element of both.
        assert(s.contains(s[0]));
        assert(s.to_multiset().count(s[0]) > 0);
        assert(t.contains(s[0]));
        let m = choose|m: int| 0 <= m < t.len() && t[m] == s[0];
        assert(le(t[0], t[m]));
        assert(t.contains(t[0]));
        assert(t.to_multiset().count(t[0]) > 0);
        assert(s.contains(t[0]));
        let k = choose|k: int| 0 <= k < s.len() && s[k] == t[0];
        assert(le(s[0], s[k]));
        assert(s[0] == t[0]);
        let s1 = s.drop_first();
        let t1 = t.drop_first();
        assert(s.remove(0) =~= s1);
        assert(t.remove(0) =~= t1);
        assert(s1.to_multiset() == s.to_multiset().remove(s[0]));
        assert(t1.to_multiset() == t.to_multiset().remove(t[0]));
        assert forall|i: int, j: int| 0 <= i < j < s1.len() implies le(
            #[trigger] s1[i],
            #[trigger] s1[j],
        ) by {
            assert(le(s[i + 1], s[j + 1]));
        }
        assert forall|i: int, j: int| 0 <= i < j < t1.len() implies le(
            #[trigger] t1[i],
            #[trigger] t1[j],
        ) by {
            assert(le(t[i + 1], t[j + 1]));
        }
        lemma_sorted_arrangement_unique(s1, t1);
        assert(s =~= t) by {
            assert forall|i: int| 0 <= i < s.len() implies s[i] == t[i] by {
                if i > 0 {
                    assert(s[i] == s1[i - 1]);
                    assert(t[i] == t1[i - 1]);
                }
            }
        }
    }
}

/// Sorts `slice` into non-decreasing order, in place. The result holds the
/// same elements; equal elements may change places.
pub fn quicksort<T: Ord>(slice: &mut [T])
    requires
        obeys_cmp::<T>(),
    ensures
        final(slice)@.len() == old(slice)@.len(),
        final(slice)@.to_multiset() == old(slice)@.to_multiset(),
        is_sorted(final(slice)@),
        old(slice)@.len() <= 1 ==> final(slice)@ == old(slice)@,
        is_sorted(old(slice)@) && antisymmetric::<T>() ==> final(slice)@ == old(slice)@,
{
    let ghost s0 = slice@;
    let n = slice.len();
    sort_range(slice, 0, n);
    assert(slice@.subrange(0, n as int) =~= slice@);
    assert(s0.subrange(0, n as int) =~= s0);
    proof {
        if n <= 1 {
            broadcast use vstd::seq_lib::group_to_multiset_ensures;

            if n == 1 {
                assert(slice@.contains(slice@[0]));
                assert(slice@.to_multiset().count(slice@[0]) > 0);
                assert(s0.contains(slice@[0]));
                assert(slice@ =~= s0);
            } else {
                assert(slice@ =~= s0);
            }
        }
        if is_sorted(s0) && antisymmetric::<T>() {
            lemma_sorted_arrangement_unique(slice@, s0);
        }
    }
}

} // verus!
