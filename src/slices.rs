//! Exchanging two elements of a slice, and what an exchange keeps.

use vstd::prelude::*;
use vstd::seq_lib::lemma_multiset_commutative;
use vstd::seq_lib::to_multiset_update;

verus! {

/// Relies on `<[T]>::swap`: it exchanges the elements at `a` and `b`, and
/// panics only when either index is out of bounds.
#[verifier::external_body]
pub(crate) fn exchange<T>(s: &mut [T], a: usize, b: usize)
    requires
        a < old(s)@.len(),
        b < old(s)@.len(),
    ensures
        final(s)@ == old(s)@.update(a as int, old(s)@[b as int]).update(
            b as int,
            old(s)@[a as int],
        ),
{
    s.swap(a, b)
}

/// `s` with the elements at `i` and `j` exchanged.
pub open spec fn swapped<T>(s: Seq<T>, i: int, j: int) -> Seq<T> {
    s.update(i, s[j]).update(j, s[i])
}

/// An exchange inside `lo..hi` keeps the multiset of that range and every
/// element outside it.
pub proof fn lemma_swap_in_range<T>(s: Seq<T>, i: int, j: int, lo: int, hi: int)
    requires
        0 <= lo <= i < hi <= s.len(),
        lo <= j < hi,
    ensures
        swapped(s, i, j).len() == s.len(),
        swapped(s, i, j).subrange(lo, hi).to_multiset() =~= s.subrange(lo, hi).to_multiset(),
        forall|k: int| 0 <= k < s.len() && (k < lo || hi <= k) ==> swapped(s, i, j)[k] == s[k],
{
    let t = s.subrange(lo, hi);
    let a = i - lo;
    let b = j - lo;
    let u = t.update(a, t[b]);
    assert(swapped(s, i, j).subrange(lo, hi) =~= u.update(b, t[a]));
    to_multiset_update(t, a, t[b]);
    to_multiset_update(u, b, t[a]);
    if a == b {
        assert(u.update(b, t[a]) =~= t);
    } else {
        broadcast use vstd::seq_lib::group_to_multiset_ensures;

        assert(u[b] == t[b]);
        assert(t.contains(t[a]));
        let m = t.to_multiset();
        assert(m.count(t[a]) > 0);
        assert(m.insert(t[b]).remove(t[a]).insert(t[a]).remove(t[b]) =~= m);
    }
}

/// `new` is `old` with the elements of `lo..hi` rearranged among themselves
/// and every other element left where it was.
pub open spec fn permutes_range<T>(new: Seq<T>, old: Seq<T>, lo: int, hi: int) -> bool {
    &&& new.len() == old.len()
    &&& new.subrange(lo, hi).to_multiset() == old.subrange(lo, hi).to_multiset()
    &&& forall|k: int| 0 <= k < old.len() && (k < lo || hi <= k) ==> new[k] == old[k]
}

/// An exchange inside `lo..hi` of a rearrangement of `lo..hi` is one too.
pub proof fn lemma_swap_permutes<T>(s: Seq<T>, i: int, j: int, s0: Seq<T>, lo: int, hi: int)
    requires
        0 <= lo <= i < hi <= s.len(),
        lo <= j < hi,
        permutes_range(s, s0, lo, hi),
    ensures
        permutes_range(swapped(s, i, j), s0, lo, hi),
{
    lemma_swap_in_range(s, i, j, lo, hi);
}

/// A rearrangement of `lo..hi` is also one of any range that contains it.
pub proof fn lemma_permutes_wider<T>(new: Seq<T>, old: Seq<T>, lo: int, hi: int, a: int, b: int)
    requires
        0 <= a <= lo <= hi <= b <= old.len(),
        permutes_range(new, old, lo, hi),
    ensures
        permutes_range(new, old, a, b),
{
    let left = new.subrange(a, lo);
    let mid = new.subrange(lo, hi);
    let right = new.subrange(hi, b);
    assert(left =~= old.subrange(a, lo));
    assert(right =~= old.subrange(hi, b));
    assert(new.subrange(a, b) =~= left + mid + right);
    assert(old.subrange(a, b) =~= old.subrange(a, lo) + old.subrange(lo, hi) + right);
    lemma_multiset_commutative(left, mid);
    lemma_multiset_commutative(left + mid, right);
    lemma_multiset_commutative(left, old.subrange(lo, hi));
    lemma_multiset_commutative(left + old.subrange(lo, hi), right);
}

/// Rearranging `lo..hi` twice is rearranging it once.
pub proof fn lemma_permutes_trans<T>(s2: Seq<T>, s1: Seq<T>, s0: Seq<T>, lo: int, hi: int)
    requires
        permutes_range(s2, s1, lo, hi),
        permutes_range(s1, s0, lo, hi),
    ensures
        permutes_range(s2, s0, lo, hi),
{
}

/// Where a rearrangement of `lo..hi` put `new[k]`, `k` in that range, the
/// old sequence held it at some index of the range.
pub proof fn lemma_permutes_member<T>(new: Seq<T>, old: Seq<T>, lo: int, hi: int, k: int) -> (m: int)
    requires
        0 <= lo <= k < hi <= old.len(),
        permutes_range(new, old, lo, hi),
    ensures
        lo <= m < hi,
        old[m] == new[k],
{
    broadcast use vstd::seq_lib::group_to_multiset_ensures;

    let sub = new.subrange(lo, hi);
    let osub = old.subrange(lo, hi);
    assert(sub[k - lo] == new[k]);
    assert(sub.contains(new[k]));
    assert(osub.to_multiset().count(new[k]) > 0);
    assert(osub.contains(new[k]));
    let j = choose|j: int| 0 <= j < osub.len() && osub[j] == new[k];
    lo + j
}

} // verus!
