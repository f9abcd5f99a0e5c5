//! The ordering model: `le` over `T`'s comparison, and the facts about it
//! that follow from `T` obeying a total order.

use vstd::prelude::*;
use vstd::laws_cmp::obeys_cmp;
use vstd::laws_cmp::obeys_partial_cmp_spec_properties;
use vstd::laws_cmp::obeys_cmp_ord;
use vstd::laws_cmp::obeys_cmp_partial_ord;
use vstd::laws_eq::obeys_eq_spec_properties;
use vstd::std_specs::cmp::PartialEqSpec;
use vstd::std_specs::cmp::PartialOrdSpec;
use vstd::std_specs::cmp::OrdSpec;
use core::cmp::Ordering;

verus! {

/// `a` is at most `b` in `T`'s order.
pub open spec fn le<T: Ord>(a: T, b: T) -> bool {
    a.partial_cmp_spec(&b) matches Some(Ordering::Less | Ordering::Equal)
}

/// Under a total order, `le` is total and transitive, and the strict and
/// reflected comparisons are its negation and its mirror image.
pub proof fn lemma_total_order<T: Ord>()
    requires
        obeys_cmp::<T>(),
    ensures
        T::obeys_partial_cmp_spec(),
        forall|a: T, b: T| #[trigger] le(a, b) || le(b, a),
        forall|a: T, b: T, c: T| #[trigger] le(a, b) && #[trigger] le(b, c) ==> le(a, c),
        forall|a: T, b: T|
            #[trigger] a.partial_cmp_spec(&b) == Some(Ordering::Greater) <==> !le(a, b),
        forall|a: T, b: T| #[trigger] a.partial_cmp_spec(&b) == Some(Ordering::Less) <==> !le(b, a),
        forall|a: T, b: T|
            (#[trigger] a.partial_cmp_spec(&b) matches Some(Ordering::Greater | Ordering::Equal))
                <==> le(b, a),
{
    reveal(obeys_partial_cmp_spec_properties);
    reveal(obeys_cmp_ord);
    reveal(obeys_cmp_partial_ord);
    reveal(obeys_eq_spec_properties);
    assert forall|a: T, b: T|
        a.partial_cmp_spec(&b) == Some(Ordering::Equal) <==> b.partial_cmp_spec(&a) == Some(
            Ordering::Equal,
        ) by {
        assert(a.eq_spec(&b) <==> b.eq_spec(&a));
    }
    assert forall|a: T, b: T|
        a.partial_cmp_spec(&b) == Some(Ordering::Greater) <==> b.partial_cmp_spec(&a) == Some(
            Ordering::Less,
        ) by {
        assert(a.partial_cmp_spec(&b) == Some(a.cmp_spec(&b)));
        assert(b.partial_cmp_spec(&a) == Some(b.cmp_spec(&a)));
    }
    assert forall|a: T, b: T| #[trigger] le(a, b) || le(b, a) by {
        assert(a.partial_cmp_spec(&b) == Some(a.cmp_spec(&b)));
    }
    assert forall|a: T, b: T, c: T| #[trigger] le(a, b) && #[trigger] le(b, c) implies le(a, c) by {
        assert(a.partial_cmp_spec(&c) == Some(a.cmp_spec(&c)));
        assert(a.partial_cmp_spec(&b) == Some(a.cmp_spec(&b)));
        assert(b.partial_cmp_spec(&c) == Some(b.cmp_spec(&c)));
        if a.partial_cmp_spec(&c) == Some(Ordering::Greater) {
            assert(c.partial_cmp_spec(&a) == Some(Ordering::Less));
            if a.partial_cmp_spec(&b) == Some(Ordering::Equal) {
                assert(a.eq_spec(&b));
                if b.partial_cmp_spec(&c) == Some(Ordering::Equal) {
                    assert(b.eq_spec(&c));
                    assert(a.eq_spec(&c));
                } else {
                    // b < c < a, so b < a
                    assert(b.partial_cmp_spec(&a) == Some(Ordering::Less));
                }
            } else {
                // a < b
                if b.partial_cmp_spec(&c) == Some(Ordering::Equal) {
                    // c < a < b, so c < b
                    assert(c.partial_cmp_spec(&b) == Some(Ordering::Less));
                } else {
                    assert(a.partial_cmp_spec(&c) == Some(Ordering::Less));
                }
            }
        }
    }
    assert forall|a: T, b: T|
        #[trigger] a.partial_cmp_spec(&b) == Some(Ordering::Less) <==> !le(b, a) by {
        assert(a.partial_cmp_spec(&b) == Some(a.cmp_spec(&b)));
        assert(b.partial_cmp_spec(&a) == Some(b.cmp_spec(&a)));
    }
    assert forall|a: T, b: T|
        (#[trigger] a.partial_cmp_spec(&b) matches Some(Ordering::Greater | Ordering::Equal))
            <==> le(b, a) by {
        assert(a.partial_cmp_spec(&b) == Some(a.cmp_spec(&b)));
        assert(b.partial_cmp_spec(&a) == Some(b.cmp_spec(&a)));
    }
}

} // verus!
