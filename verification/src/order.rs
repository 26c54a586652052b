//! The comparison direction of a heap, and the total-order facts about
//! `cmp` that the restoration proofs rely on.

use core::cmp::Ordering;
use vstd::laws_cmp::obeys_cmp;
use vstd::multiset::Multiset;
use vstd::prelude::*;
use vstd::std_specs::cmp::OrdSpec;
use vstd::std_specs::cmp::PartialEqSpec;
use vstd::std_specs::cmp::PartialOrdSpec;

verus! {

/// A heap orders its elements in one of two directions: minimum-first
/// (`Ordering::Less`) or maximum-first (`Ordering::Greater`).
pub open spec fn valid_order(ord: Ordering) -> bool {
    ord == Ordering::Less || ord == Ordering::Greater
}

/// `a` wins against `b` under the direction `ord`: in a minimum-first heap
/// the strictly smaller element wins, in a maximum-first heap the strictly
/// larger one. Ties win in neither direction.
pub open spec fn beats<T: Ord>(ord: Ordering, a: T, b: T) -> bool {
    a.cmp_spec(&b) == ord
}

/// `x` is a top element of the collection `m` under the direction `ord`:
/// nothing in `m` wins against it. In a minimum-first heap this makes `x`
/// a minimum, in a maximum-first heap a maximum.
pub open spec fn top_of<T: Ord>(ord: Ordering, x: T, m: Multiset<T>) -> bool {
    forall|y: T| #[trigger] m.count(y) > 0 ==> !beats(ord, y, x)
}

/// A total order on `T` (in the sense of `vstd::laws_cmp::obeys_cmp`)
/// makes the trait-level comparison specifications available, and ties
/// `cmp` equality to `eq`.
pub proof fn lemma_obeys_cmp_basics<T: Ord>()
    requires
        obeys_cmp::<T>(),
    ensures
        T::obeys_cmp_spec(),
        T::obeys_eq_spec(),
        forall|x: T, y: T| #[trigger] x.eq_spec(&y) <==> x.cmp_spec(&y) == Ordering::Equal,
{
    reveal(vstd::laws_cmp::obeys_cmp_partial_ord);
    reveal(vstd::laws_cmp::obeys_cmp_ord);
    assert forall|x: T, y: T| #[trigger] x.eq_spec(&y) <==> x.cmp_spec(&y) == Ordering::Equal by {
        assert(x.partial_cmp_spec(&y) == Some(x.cmp_spec(&y)));
    };
}

/// Winning is asymmetric: if `a` wins against `b`, then `b` does not win
/// against `a`.
pub proof fn lemma_beats_asym<T: Ord>(ord: Ordering, a: T, b: T)
    requires
        obeys_cmp::<T>(),
        valid_order(ord),
        beats(ord, a, b),
    ensures
        !beats(ord, b, a),
{
    reveal(vstd::laws_cmp::obeys_cmp_ord);
    reveal(vstd::laws_cmp::obeys_partial_cmp_spec_properties);
    assert(a.partial_cmp_spec(&b) == Some(a.cmp_spec(&b)));
    assert(b.partial_cmp_spec(&a) == Some(b.cmp_spec(&a)));
}

/// No element wins against itself: an element always ties with itself
/// under a total order.
pub proof fn lemma_beats_irrefl<T: Ord>(ord: Ordering, a: T)
    requires
        obeys_cmp::<T>(),
        valid_order(ord),
    ensures
        !beats(ord, a, a),
{
    reveal(vstd::laws_cmp::obeys_cmp_ord);
    reveal(vstd::laws_cmp::obeys_partial_cmp_spec_properties);
    assert(a.partial_cmp_spec(&a) == Some(a.cmp_spec(&a)));
}

/// Winning is transitive: if `a` wins against `b` and `b` wins against
/// `c`, then `a` wins against `c`.
pub proof fn lemma_beats_trans<T: Ord>(ord: Ordering, a: T, b: T, c: T)
    requires
        obeys_cmp::<T>(),
        valid_order(ord),
        beats(ord, a, b),
        beats(ord, b, c),
    ensures
        beats(ord, a, c),
{
    reveal(vstd::laws_cmp::obeys_cmp_ord);
    reveal(vstd::laws_cmp::obeys_partial_cmp_spec_properties);
    assert(a.partial_cmp_spec(&b) == Some(a.cmp_spec(&b)));
    assert(b.partial_cmp_spec(&c) == Some(b.cmp_spec(&c)));
    assert(a.partial_cmp_spec(&c) == Some(a.cmp_spec(&c)));
}

/// Not winning is transitive: if `a` does not win against `b` and `b`
/// does not win against `c`, then `a` does not win against `c`. (For a
/// minimum-first heap this is transitivity of `>=`.)
pub proof fn lemma_not_beats_trans<T: Ord>(ord: Ordering, a: T, b: T, c: T)
    requires
        obeys_cmp::<T>(),
        valid_order(ord),
        !beats(ord, a, b),
        !beats(ord, b, c),
    ensures
        !beats(ord, a, c),
{
    reveal(vstd::laws_cmp::obeys_cmp_partial_ord);
    reveal(vstd::laws_cmp::obeys_cmp_ord);
    reveal(vstd::laws_cmp::obeys_partial_cmp_spec_properties);
    reveal(vstd::laws_eq::obeys_eq_spec_properties);
    assert(a.partial_cmp_spec(&b) == Some(a.cmp_spec(&b)));
    assert(b.partial_cmp_spec(&c) == Some(b.cmp_spec(&c)));
    assert(a.partial_cmp_spec(&c) == Some(a.cmp_spec(&c)));
    assert(b.partial_cmp_spec(&a) == Some(b.cmp_spec(&a)));
    assert(c.partial_cmp_spec(&b) == Some(c.cmp_spec(&b)));
    assert(c.partial_cmp_spec(&a) == Some(c.cmp_spec(&a)));
    if beats(ord, a, c) {
        // Case analysis over the (non-winning) outcomes of the two
        // given comparisons; each case contradicts a transitivity or
        // duality property of the order.
        if a.cmp_spec(&b) == Ordering::Equal {
            if b.cmp_spec(&c) == Ordering::Equal {
                assert(a.eq_spec(&b));
                assert(b.eq_spec(&c));
                assert(a.eq_spec(&c));
                assert(a.cmp_spec(&c) == Ordering::Equal);
            } else {
                // b loses to c, a ties b, yet a wins against c.
                assert(beats(ord, c, b));
                assert(beats(ord, a, c) && beats(ord, c, b));
                assert(beats(ord, a, b));
            }
        } else {
            assert(beats(ord, b, a));
            if b.cmp_spec(&c) == Ordering::Equal {
                assert(b.eq_spec(&c));
                assert(c.eq_spec(&b));
                assert(beats(ord, b, a) && beats(ord, a, c));
                assert(beats(ord, b, c));
            } else {
                assert(beats(ord, c, b));
                assert(beats(ord, b, a) && beats(ord, a, c));
                assert(beats(ord, b, c));
            }
        }
        assert(false);
    }
}

/// When neither element wins against the other, the comparison is a tie;
/// for a type whose equality is structural (`obeys_concrete_eq`), tied
/// elements are equal.
pub proof fn lemma_tie_is_equal<T: Ord>(ord: Ordering, a: T, b: T)
    requires
        obeys_cmp::<T>(),
        vstd::laws_eq::obeys_concrete_eq::<T>(),
        valid_order(ord),
        !beats(ord, a, b),
        !beats(ord, b, a),
    ensures
        a == b,
{
    reveal(vstd::laws_cmp::obeys_cmp_partial_ord);
    reveal(vstd::laws_cmp::obeys_cmp_ord);
    reveal(vstd::laws_cmp::obeys_partial_cmp_spec_properties);
    reveal(vstd::laws_eq::obeys_concrete_eq);
    assert(a.partial_cmp_spec(&b) == Some(a.cmp_spec(&b)));
    assert(b.partial_cmp_spec(&a) == Some(b.cmp_spec(&a)));
}

/// True exactly when the two comparison outcomes are the same variant.
pub(crate) fn ordering_is(a: Ordering, b: Ordering) -> (r: bool)
    ensures
        r == (a == b),
{
    match (a, b) {
        (Ordering::Less, Ordering::Less) => true,
        (Ordering::Equal, Ordering::Equal) => true,
        (Ordering::Greater, Ordering::Greater) => true,
        _ => false,
    }
}

/// Runs the three-way comparison and reports whether `a` wins against `b`
/// under the direction `ord`.
pub(crate) fn wins<T: Ord>(ord: Ordering, a: &T, b: &T) -> (r: bool)
    requires
        T::obeys_cmp_spec(),
    ensures
        r == beats(ord, *a, *b),
{
    ordering_is(a.cmp(b), ord)
}

} // verus!
