//! General laws of the heap operations, stated over the contents model
//! (a multiset) and the ordering direction that the operation contracts
//! use.

use core::cmp::Ordering;
use vstd::laws_cmp::obeys_cmp;
use vstd::multiset::Multiset;
use vstd::prelude::*;

use crate::order::beats;
use crate::order::lemma_tie_is_equal;
use crate::order::top_of;
use crate::order::valid_order;

verus! {

/// `vs` is a possible run of successful extract-top results starting
/// from the contents `m`: each extracted element is present in what
/// remains at its turn, nothing remaining wins against it, and the rest
/// of the run continues on the contents without it. The contract of
/// `Heap::top` produces exactly these conditions call by call.
pub open spec fn extraction_of<T: Ord>(ord: Ordering, m: Multiset<T>, vs: Seq<T>) -> bool
    decreases vs.len(),
{
    if vs.len() == 0 {
        true
    } else {
        &&& m.count(vs[0]) > 0
        &&& top_of(ord, vs[0], m)
        &&& extraction_of(ord, m.remove(vs[0]), vs.drop_first())
    }
}

/// One successful extraction in front of a run extends the run: the
/// clauses of `Heap::top`'s contract — the result was contained, nothing
/// remaining won against it, and the contents shrank by it — are exactly
/// one step of `extraction_of`.
pub proof fn lemma_extraction_step<T: Ord>(ord: Ordering, m: Multiset<T>, x: T, vs: Seq<T>)
    requires
        m.count(x) > 0,
        top_of(ord, x, m),
        extraction_of(ord, m.remove(x), vs),
    ensures
        extraction_of(ord, m, seq![x] + vs),
{
    let run = seq![x] + vs;
    assert(run[0] == x);
    assert(run.drop_first() =~= vs);
}

/// Every element of an extraction run is drawn from the contents it
/// started from.
pub proof fn lemma_extraction_member<T: Ord>(ord: Ordering, m: Multiset<T>, vs: Seq<T>, l: int)
    requires
        extraction_of(ord, m, vs),
        0 <= l < vs.len(),
    ensures
        m.count(vs[l]) > 0,
    decreases vs.len(),
{
    broadcast use vstd::multiset::group_multiset_axioms;

    if l > 0 {
        lemma_extraction_member(ord, m.remove(vs[0]), vs.drop_first(), l - 1);
        assert(vs.drop_first()[l - 1] == vs[l]);
    }
}

/// An extraction run that is as long as the contents accounts for all of
/// them: it is a permutation of what the heap held.
pub proof fn lemma_extraction_complete<T: Ord>(ord: Ordering, m: Multiset<T>, vs: Seq<T>)
    requires
        extraction_of(ord, m, vs),
        vs.len() == m.len(),
    ensures
        vs.to_multiset() == m,
    decreases vs.len(),
{
    broadcast use
        vstd::multiset::group_multiset_axioms,
        vstd::seq_lib::group_to_multiset_ensures;

    if vs.len() == 0 {
        assert(vs.to_multiset() =~= m);
    } else {
        lemma_extraction_complete(ord, m.remove(vs[0]), vs.drop_first());
        assert(vs.drop_first() =~= vs.remove(0));
        assert(vs.remove(0).to_multiset() == vs.to_multiset().remove(vs[0]));
        assert(vs.contains(vs[0]));
        assert forall|e: T| vs.to_multiset().count(e) == m.count(e) by {
            assert(vs.to_multiset().remove(vs[0]).count(e) == m.remove(vs[0]).count(e));
        };
        assert(vs.to_multiset() =~= m);
    }
}

/// The top is determined up to ties: any two elements of the contents
/// that nothing wins against tie with each other, and are equal outright
/// for a type whose equality is structural.
pub proof fn lemma_tops_tie<T: Ord>(ord: Ordering, m: Multiset<T>, x: T, y: T)
    requires
        obeys_cmp::<T>(),
        valid_order(ord),
        m.count(x) > 0,
        m.count(y) > 0,
        top_of(ord, x, m),
        top_of(ord, y, m),
    ensures
        !beats(ord, x, y),
        !beats(ord, y, x),
        vstd::laws_eq::obeys_concrete_eq::<T>() ==> x == y,
{
    if vstd::laws_eq::obeys_concrete_eq::<T>() {
        lemma_tie_is_equal(ord, x, y);
    }
}

/// Round trip: filling a heap and then extracting from the top until it
/// is empty yields the contents in the configured order — no extraction
/// wins against an earlier one. (For a minimum-first heap the run is
/// ascending, for a maximum-first heap descending.)
pub proof fn lemma_extraction_sorted<T: Ord>(
    ord: Ordering,
    m: Multiset<T>,
    vs: Seq<T>,
    i: int,
    j: int,
)
    requires
        obeys_cmp::<T>(),
        valid_order(ord),
        extraction_of(ord, m, vs),
        0 <= i <= j < vs.len(),
    ensures
        !beats(ord, vs[j], vs[i]),
    decreases vs.len(),
{
    if i == 0 {
        lemma_extraction_member(ord, m, vs, j);
        assert(m.count(vs[j]) > 0);
        assert(!beats(ord, vs[j], vs[0]));
    } else {
        lemma_extraction_sorted(ord, m.remove(vs[0]), vs.drop_first(), i - 1, j - 1);
        assert(vs.drop_first()[i - 1] == vs[i]);
        assert(vs.drop_first()[j - 1] == vs[j]);
    }
}

} // verus!
