//! The heap engine: a complete k-ary tree in one growable buffer, with the
//! two restoration walks and the operations built on them.

use core::cmp::Ordering;
use vstd::arithmetic::div_mod::lemma_div_is_ordered;
use vstd::arithmetic::div_mod::lemma_div_nonincreasing;
use vstd::arithmetic::div_mod::lemma_fundamental_div_mod;
use vstd::arithmetic::div_mod::lemma_mod_division_less_than_divisor;
use vstd::arithmetic::mul::lemma_mul_inequality;
use vstd::laws_cmp::obeys_cmp;
use vstd::prelude::*;
use vstd::std_specs::cmp::OrdSpec;
use vstd::std_specs::cmp::PartialEqSpec;

use crate::errors::Error;
use crate::errors::ErrorKind;
use crate::order::beats;
use crate::order::lemma_beats_asym;
use crate::order::lemma_beats_irrefl;
use crate::order::lemma_beats_trans;
use crate::order::lemma_not_beats_trans;
use crate::order::lemma_obeys_cmp_basics;
use crate::order::lemma_tie_is_equal;
use crate::order::top_of;
use crate::order::valid_order;
use crate::order::wins;
use crate::tree::children_lose_to;
use crate::tree::heap_ordered;
use crate::tree::heap_ordered_except_up;
use crate::tree::in_subtree;
use crate::tree::lemma_ancestor_step;
use crate::tree::lemma_childless;
use crate::tree::lemma_parent_bounds;
use crate::tree::lemma_parent_converse;
use crate::tree::lemma_root_best;
use crate::tree::lemma_sift_down_step;
use crate::tree::lemma_subtree_dominated;
use crate::tree::lemma_subtree_ge;
use crate::tree::parent_index;
use crate::tree::subtree_ordered;
use crate::tree::subtree_ordered_except_down;

verus! {

/// The comparison direction used by a heap configured with the given
/// `MAX_HEAP` flag: maximum-first heaps look for `Ordering::Greater`,
/// minimum-first heaps for `Ordering::Less`.
pub open spec fn configured_order(max_heap: bool) -> Ordering {
    if max_heap {
        Ordering::Greater
    } else {
        Ordering::Less
    }
}

/// A complete `BRANCHES`-ary tree stored in one contiguous buffer, in
/// which no element wins against the element at its parent position. The
/// best element under the configured direction is therefore always at the
/// root: the minimum of a minimum-first heap, the maximum of a
/// maximum-first one.
#[derive(Debug)]
pub struct Heap<T, const MAX_HEAP: bool, const BRANCHES: usize> where T: Ord + Eq + Copy {
    heap: Vec<T>,
    sort_order: Ordering,
}

impl<T, const MAX_HEAP: bool, const BRANCHES: usize> View for Heap<T, MAX_HEAP, BRANCHES> where
    T: Ord + Eq + Copy,
 {
    type V = Seq<T>;

    closed spec fn view(&self) -> Seq<T> {
        self.heap@
    }
}

impl<T, const MAX_HEAP: bool, const BRANCHES: usize> Clone for Heap<T, MAX_HEAP, BRANCHES> where
    T: Ord + Eq + Copy,
 {
    /// Copies the heap element by element: the clone has the same
    /// contents in the same layout and the same direction.
    fn clone(&self) -> (r: Self)
        ensures
            r@ == self@,
            r.spec_order() == self.spec_order(),
            self.well_formed() ==> r.well_formed(),
    {
        let mut heap: Vec<T> = Vec::new();
        let mut i: usize = 0;
        while i < self.heap.len()
            invariant
                i <= self.heap@.len(),
                heap@ == self.heap@.subrange(0, i as int),
            decreases self.heap@.len() - i,
        {
            heap.push(self.heap[i]);
            proof {
                assert(heap@ =~= self.heap@.subrange(0, i as int + 1));
            }
            i = i + 1;
        }
        proof {
            assert(heap@ =~= self.heap@);
        }
        Self { heap, sort_order: self.sort_order }
    }
}

/// Swaps the elements at positions `i` and `j`.
fn vec_swap<T: Copy>(v: &mut Vec<T>, i: usize, j: usize)
    requires
        i < old(v)@.len(),
        j < old(v)@.len(),
    ensures
        final(v)@ == old(v)@.update(i as int, old(v)@[j as int]).update(
            j as int,
            old(v)@[i as int],
        ),
        final(v)@.len() == old(v)@.len(),
        final(v)@.to_multiset() == old(v)@.to_multiset(),
{
    let ghost s = v@;
    let a: T = v[i];
    let b: T = v[j];
    v.set(i, b);
    v.set(j, a);
    proof {
        broadcast use vstd::seq_lib::group_to_multiset_ensures;

        if i == j {
            assert(final(v)@.to_multiset() =~= s.to_multiset());
        } else {
            assert(s.update(i as int, b)[j as int] == b);
            assert(final(v)@.to_multiset() =~= s.to_multiset());
        }
    }
}

impl<T, const MAX_HEAP: bool, const BRANCHES: usize> Heap<T, MAX_HEAP, BRANCHES> where
    T: Ord + Eq + Copy,
 {
    /// The comparison direction this heap was constructed with.
    pub closed spec fn spec_order(&self) -> Ordering {
        self.sort_order
    }

    /// A structurally sound heap: the branching factor is at least two,
    /// the stored direction matches the configuration, and the heap
    /// property holds throughout the buffer.
    pub open spec fn well_formed(&self) -> bool {
        &&& BRANCHES >= 2
        &&& self.spec_order() == configured_order(MAX_HEAP)
        &&& heap_ordered(self.spec_order(), BRANCHES as int, self@)
    }

    /// Creates an empty heap.
    pub fn new() -> (r: Self)
        requires
            BRANCHES >= 2,
        ensures
            r.well_formed(),
            r@ == Seq::<T>::empty(),
    {
        Self {
            heap: Vec::new(),
            sort_order: if MAX_HEAP {
                Ordering::Greater
            } else {
                Ordering::Less
            },
        }
    }

    /// Returns true if the heap contains no elements.
    pub fn is_empty(&self) -> (r: bool)
        ensures
            r == (self@.len() == 0),
    {
        self.heap.is_empty()
    }

    /// Returns the number of elements in the heap, also referred to as
    /// its 'length'.
    pub fn len(&self) -> (r: usize)
        ensures
            r == self@.len(),
    {
        self.heap.len()
    }

    /// Returns a read-only view of the backing sequence, in tree layout
    /// order.
    pub fn as_slice(&self) -> (r: &[T])
        ensures
            r@ == self@,
    {
        self.heap.as_slice()
    }

    /// Clears the heap, removing all elements.
    /// Note that this method has no effect on the allocated capacity of
    /// the heap.
    pub fn clear(&mut self)
        ensures
            final(self)@ == Seq::<T>::empty(),
            final(self).spec_order() == old(self).spec_order(),
            old(self).well_formed() ==> final(self).well_formed(),
    {
        self.heap.clear()
    }

    /// Returns a reference to the element on top of the heap without
    /// removing it: the element that no other element wins against.
    pub fn peek(&self) -> (r: Option<&T>)
        requires
            obeys_cmp::<T>(),
            self.well_formed(),
        ensures
            match r {
                Some(x) => self@.len() > 0 && *x == self@[0] && top_of(
                    self.spec_order(),
                    *x,
                    self@.to_multiset(),
                ),
                None => self@.len() == 0,
            },
    {
        if self.heap.is_empty() {
            None
        } else {
            proof {
                self.lemma_top_of_root();
            }
            Some(&self.heap[0])
        }
    }

    /// In a well-formed, non-empty heap the root element wins or ties
    /// against everything the heap contains.
    proof fn lemma_top_of_root(&self)
        requires
            obeys_cmp::<T>(),
            self.well_formed(),
            self@.len() > 0,
        ensures
            top_of(self.spec_order(), self@[0], self@.to_multiset()),
    {
        let ord = self.spec_order();
        let b = BRANCHES as int;
        broadcast use vstd::seq_lib::group_to_multiset_ensures;

        assert forall|y: T| self@.to_multiset().count(y) > 0 implies !beats(ord, y, self@[0]) by {
            assert(self@.contains(y));
            let i = choose|i: int| 0 <= i < self@.len() && self@[i] == y;
            lemma_root_best(ord, b, self@, i);
        };
    }

    /// Performs a linear search to find the index of an element on the
    /// heap. Returns `None` if the element was not found, and otherwise
    /// the first position holding an element equal to the target.
    pub fn find(&self, element: &T) -> (r: Option<usize>)
        requires
            T::obeys_eq_spec(),
        ensures
            match r {
                Some(i) => i < self@.len() && self@[i as int].eq_spec(element) && (forall|j: int|
                    0 <= j < i ==> !(#[trigger] self@[j].eq_spec(element))),
                None => forall|j: int|
                    0 <= j < self@.len() ==> !(#[trigger] self@[j].eq_spec(element)),
            },
    {
        let length = self.heap.len();
        let mut i: usize = 0;
        while i < length
            invariant
                T::obeys_eq_spec(),
                length == self@.len(),
                i <= length,
                forall|j: int| 0 <= j < i ==> !(#[trigger] self@[j].eq_spec(element)),
            decreases length - i,
        {
            if self.heap[i] == *element {
                return Some(i);
            }
            i = i + 1;
        }
        None
    }

    /// Sorts the heap by iterating up the tree starting at `index`: while
    /// the element at the current position wins against its parent, the
    /// two are swapped. On entry the heap property may fail only at the
    /// edge from `index` up to its parent; the children of `index` must
    /// not win against its parent's element.
    pub fn sort_up(heap: &mut Vec<T>, sort_order: Ordering, index: usize)
        requires
            obeys_cmp::<T>(),
            valid_order(sort_order),
            BRANCHES >= 2,
            index < old(heap)@.len(),
            heap_ordered_except_up(sort_order, BRANCHES as int, old(heap)@, index as int),
            index > 0 ==> children_lose_to(
                sort_order,
                BRANCHES as int,
                old(heap)@,
                index as int,
                old(heap)@[parent_index(BRANCHES as int, index as int)],
            ),
        ensures
            final(heap)@.len() == old(heap)@.len(),
            final(heap)@.to_multiset() == old(heap)@.to_multiset(),
            heap_ordered(sort_order, BRANCHES as int, final(heap)@),
            forall|j: int|
                0 <= j < old(heap)@.len() && !in_subtree(BRANCHES as int, j, index as int)
                    ==> final(heap)@[j] == old(heap)@[j],
    {
        let ghost b: int = BRANCHES as int;
        let ghost ord = sort_order;
        let mut cur = index;
        while cur > 0
            invariant
                obeys_cmp::<T>(),
                valid_order(ord),
                ord == sort_order,
                BRANCHES >= 2,
                b == BRANCHES as int,
                cur < heap@.len(),
                heap@.len() == old(heap)@.len(),
                heap@.to_multiset() == old(heap)@.to_multiset(),
                heap_ordered_except_up(ord, b, heap@, cur as int),
                cur > 0 ==> children_lose_to(
                    ord,
                    b,
                    heap@,
                    cur as int,
                    heap@[parent_index(b, cur as int)],
                ),
                in_subtree(b, cur as int, index as int),
                forall|j: int|
                    0 <= j < old(heap)@.len() && !in_subtree(b, j, index as int) ==> heap@[j]
                        == old(heap)@[j],
            decreases cur,
        {
            proof {
                lemma_obeys_cmp_basics::<T>();
                lemma_parent_bounds(b, cur as int);
            }
            let p: usize = (cur - 1) / BRANCHES;
            let child_val: T = heap[cur];
            let parent_val: T = heap[p];
            if wins(sort_order, &child_val, &parent_val) {
                proof {
                    Self::lemma_sort_up_step(ord, heap@, cur as int, p as int);
                    lemma_ancestor_step(b, cur as int, index as int);
                }
                vec_swap(heap, cur, p);
                cur = p;
            } else {
                // The current element does not win against its parent, so
                // the one possibly failing edge holds after all.
                assert(heap_ordered(ord, b, heap@));
                return ;
            }
        }
        assert(heap_ordered(ord, b, heap@));
    }

    /// One upward step preserves the walk's invariant: after swapping the
    /// winning element at `cur` with its parent `p`, the heap property
    /// can fail only at the edge from `p` up, and the children of `p` do
    /// not win against `p`'s parent element.
    proof fn lemma_sort_up_step(ord: Ordering, s: Seq<T>, cur: int, p: int)
        requires
            obeys_cmp::<T>(),
            valid_order(ord),
            BRANCHES >= 2,
            0 < cur < s.len(),
            p == parent_index(BRANCHES as int, cur),
            heap_ordered_except_up(ord, BRANCHES as int, s, cur),
            children_lose_to(ord, BRANCHES as int, s, cur, s[p]),
            beats(ord, s[cur], s[p]),
        ensures
            heap_ordered_except_up(
                ord,
                BRANCHES as int,
                s.update(cur, s[p]).update(p, s[cur]),
                p,
            ),
            p > 0 ==> children_lose_to(
                ord,
                BRANCHES as int,
                s.update(cur, s[p]).update(p, s[cur]),
                p,
                s.update(cur, s[p]).update(p, s[cur])[parent_index(BRANCHES as int, p)],
            ),
    {
        let b = BRANCHES as int;
        let s2 = s.update(cur, s[p]).update(p, s[cur]);
        lemma_parent_bounds(b, cur);
        assert forall|c: int| 1 <= c < s2.len() && c != p implies !beats(
            ord,
            s2[c],
            s2[parent_index(b, c)],
        ) by {
            let cp = parent_index(b, c);
            lemma_parent_bounds(b, c);
            if c == cur {
                lemma_beats_asym(ord, s[cur], s[p]);
            } else if cp == cur {
                // A child of `cur` does not win against `s[p]`, which now
                // sits at `cur`.
                assert(!beats(ord, s[c], s[p]));
            } else if cp == p {
                // A sibling of `cur` cannot win against the element that
                // won against their shared parent.
                if beats(ord, s[c], s[cur]) {
                    lemma_beats_trans(ord, s[c], s[cur], s[p]);
                }
            } else {
                assert(s2[c] == s[c] && s2[cp] == s[cp]);
            }
        };
        if p > 0 {
            let g = parent_index(b, p);
            lemma_parent_bounds(b, p);
            assert forall|c: int| 1 <= c < s2.len() && parent_index(b, c) == p implies !beats(
                ord,
                s2[c],
                s2[g],
            ) by {
                lemma_parent_bounds(b, c);
                if c == cur {
                    assert(!beats(ord, s[p], s[g]));
                } else {
                    lemma_not_beats_trans(ord, s[c], s[p], s[g]);
                }
            };
        }
    }

    /// Scans the positions `first_child .. end` of the buffer and
    /// returns the position holding the element that should be on top
    /// among them and `cur`: the returned position's element is not
    /// beaten from anywhere in the range, and wins against `cur`'s
    /// element whenever the result is not `cur` itself. Ties are resolved
    /// towards the later position scanned.
    fn winning_child(
        heap: &Vec<T>,
        sort_order: Ordering,
        cur: usize,
        first_child: usize,
        end: usize,
    ) -> (r: usize)
        requires
            obeys_cmp::<T>(),
            valid_order(sort_order),
            cur < heap@.len(),
            first_child <= end <= heap@.len(),
        ensures
            r == cur || first_child <= r < end,
            forall|j: int|
                first_child as int <= j < end as int ==> !beats(
                    sort_order,
                    heap@[j],
                    heap@[r as int],
                ),
            r != cur ==> !beats(sort_order, heap@[cur as int], heap@[r as int]),
    {
        let ghost ord = sort_order;
        let mut priority: usize = cur;
        let mut i: usize = first_child;
        while i < end
            invariant
                obeys_cmp::<T>(),
                valid_order(ord),
                ord == sort_order,
                cur < heap@.len(),
                first_child <= i <= end,
                end <= heap@.len(),
                priority < heap@.len(),
                priority == cur || first_child <= priority < i,
                forall|j: int|
                    first_child as int <= j < i as int ==> !beats(
                        ord,
                        heap@[j],
                        heap@[priority as int],
                    ),
                priority != cur ==> !beats(ord, heap@[cur as int], heap@[priority as int]),
            decreases end - i,
        {
            proof {
                lemma_obeys_cmp_basics::<T>();
            }
            let pv: T = heap[priority];
            let cv: T = heap[i];
            if wins(sort_order, &pv, &cv) {
                proof {
                    lemma_beats_asym(ord, pv, cv);
                }
            } else {
                proof {
                    lemma_beats_irrefl(ord, cv);
                    assert forall|j: int|
                        first_child as int <= j < i as int + 1 implies !beats(
                        ord,
                        heap@[j],
                        heap@[i as int],
                    ) by {
                        if j < i as int {
                            lemma_not_beats_trans(
                                ord,
                                heap@[j],
                                heap@[priority as int],
                                heap@[i as int],
                            );
                        }
                    };
                    if priority != cur {
                        lemma_not_beats_trans(
                            ord,
                            heap@[cur as int],
                            heap@[priority as int],
                            heap@[i as int],
                        );
                    }
                }
                priority = i;
            }
            i = i + 1;
        }
        priority
    }

    /// Sorts the heap by iterating down the tree starting at `index`:
    /// at each position the walk picks, among the position and its
    /// children, the element that should be on top, swaps it up if it is
    /// not there already, and continues from the child position it came
    /// from. On entry the heap property may fail, within the subtree of
    /// `index`, only at the edges leading down from `index` itself.
    ///
    /// Positions outside the subtree of `index` are left untouched, the
    /// contents are only rearranged, and every element then inside the
    /// subtree was inside it before.
    #[verifier::loop_isolation(false)]
    #[verifier::rlimit(60)]
    pub fn sort_down(heap: &mut Vec<T>, sort_order: Ordering, index: usize)
        requires
            obeys_cmp::<T>(),
            valid_order(sort_order),
            BRANCHES >= 2,
            index < old(heap)@.len(),
            subtree_ordered_except_down(
                sort_order,
                BRANCHES as int,
                old(heap)@,
                index as int,
                index as int,
            ),
        ensures
            final(heap)@.len() == old(heap)@.len(),
            final(heap)@.to_multiset() == old(heap)@.to_multiset(),
            subtree_ordered(sort_order, BRANCHES as int, final(heap)@, index as int),
            forall|j: int|
                0 <= j < old(heap)@.len() && !in_subtree(BRANCHES as int, index as int, j)
                    ==> final(heap)@[j] == old(heap)@[j],
            exists|k: int|
                0 <= k < old(heap)@.len() && #[trigger] in_subtree(BRANCHES as int, index as int, k)
                    && final(heap)@[index as int] == old(heap)@[k],
            subtree_ordered(sort_order, BRANCHES as int, old(heap)@, index as int)
                && vstd::laws_eq::obeys_concrete_eq::<T>() ==> final(heap)@ == old(heap)@,
    {
        let ghost b: int = BRANCHES as int;
        let ghost ord = sort_order;
        let ghost s0 = old(heap)@;
        let ghost idx: int = index as int;
        let length = heap.len();
        let mut cur = index;
        proof {
            assert(0 <= idx < s0.len() && in_subtree(b, idx, idx) && heap@[idx] == s0[idx]);
        }
        loop
            invariant
                cur < length,
                in_subtree(b, idx, cur as int),
                heap@.len() == s0.len(),
                heap@.to_multiset() == s0.to_multiset(),
                subtree_ordered_except_down(ord, b, heap@, idx, cur as int),
                cur as int != idx ==> children_lose_to(
                    ord,
                    b,
                    heap@,
                    cur as int,
                    heap@[parent_index(b, cur as int)],
                ),
                forall|j: int|
                    0 <= j < s0.len() && !in_subtree(b, idx, j) ==> heap@[j] == s0[j],
                cur as int == idx ==> heap@ == s0,
                exists|k: int|
                    0 <= k < s0.len() && #[trigger] in_subtree(b, idx, k) && heap@[idx] == s0[k],
                subtree_ordered(ord, b, s0, idx) && vstd::laws_eq::obeys_concrete_eq::<T>()
                    ==> heap@ == s0,
            decreases length - cur,
        {
            if length < 2 {
                proof {
                    lemma_childless(b, length as int, cur as int);
                }
                return ;
            }
            let last_parent: usize = (length - 2) / BRANCHES;
            if cur > last_parent {
                proof {
                    lemma_childless(b, length as int, cur as int);
                }
                return ;
            }
            // `cur` has at least one child; its children occupy exactly
            // the positions `first_child .. end`.
            proof {
                lemma_fundamental_div_mod(length as int - 2, b);
                lemma_mod_division_less_than_divisor(length as int - 2, b);
                lemma_mul_inequality(cur as int, (length as int - 2) / b, b);
                assert(cur as int * b <= length as int - 2);
            }
            let first_child: usize = cur * BRANCHES + 1;
            let rest: usize = length - first_child;
            let end: usize = if rest < BRANCHES {
                length
            } else {
                first_child + BRANCHES
            };
            proof {
                assert forall|c: int|
                    first_child as int <= c < end as int implies parent_index(b, c)
                    == cur as int by {
                    lemma_parent_converse(b, cur as int, c);
                };
                assert forall|c: int|
                    1 <= c < length as int && parent_index(b, c) == cur as int
                    implies first_child as int <= c < end as int by {
                    lemma_parent_bounds(b, c);
                };
            }
            let priority: usize = Self::winning_child(heap, sort_order, cur, first_child, end);
            if priority == cur {
                // No child wins against the current position, so the
                // whole subtree is now in order.
                proof {
                    assert forall|c: int|
                        1 <= c < heap@.len() && in_subtree(b, idx, parent_index(b, c))
                        implies !beats(ord, heap@[c], heap@[parent_index(b, c)]) by {
                        if parent_index(b, c) == cur as int {
                            assert(!beats(ord, heap@[c], heap@[cur as int]));
                        }
                    };
                }
                return ;
            }
            proof {
                lemma_sift_down_step(ord, b, heap@, idx, cur as int, priority as int);
                if subtree_ordered(ord, b, s0, idx) && vstd::laws_eq::obeys_concrete_eq::<T>() {
                    // A swap happens on an already-ordered subtree only
                    // between tied elements, which are then equal.
                    assert(heap@ == s0);
                    assert(!beats(ord, s0[priority as int], s0[cur as int]));
                    lemma_tie_is_equal(ord, s0[cur as int], s0[priority as int]);
                }
            }
            let ghost prev = heap@;
            vec_swap(heap, cur, priority);
            proof {
                if subtree_ordered(ord, b, s0, idx) && vstd::laws_eq::obeys_concrete_eq::<T>() {
                    assert(heap@ =~= s0);
                }
                if cur as int == idx {
                    // The walk's first swap: the element of a subtree
                    // position moved to the root of the subtree.
                    assert(heap@[idx] == s0[priority as int]);
                    assert(in_subtree(b, idx, priority as int));
                } else {
                    // Later swaps happen strictly below `index`.
                    assert(heap@[idx] == prev[idx]);
                    let k = choose|k: int|
                        0 <= k < s0.len() && #[trigger] in_subtree(b, idx, k) && prev[idx]
                            == s0[k];
                    assert(0 <= k < s0.len() && in_subtree(b, idx, k) && heap@[idx] == s0[k]);
                }
            }
            cur = priority;
            proof {
                assert(cur as int * b + 1 > cur as int) by (nonlinear_arith)
                    requires
                        b >= 2,
                        cur as int >= 0,
                ;
            }
        }
    }

    /// Removes and returns the element at `index` by swapping it with the
    /// last element, shrinking the buffer by one, and sifting the
    /// moved-in element whichever way restores the heap property.
    /// Returns an error, leaving the heap unchanged, if the heap is empty
    /// (`EmptyHeap`) or `index` is at or beyond its end (`InvalidIndex`).
    pub fn remove(&mut self, index: usize) -> (r: Result<T, Error>)
        requires
            obeys_cmp::<T>(),
            old(self).well_formed(),
        ensures
            final(self).well_formed(),
            final(self).spec_order() == old(self).spec_order(),
            match r {
                Ok(x) => index < old(self)@.len() && x == old(self)@[index as int] && final(self)@.len() == old(self)@.len() - 1 && final(self)@.to_multiset() == old(self)@.to_multiset().remove(x),
                Err(e) => *final(self) == *old(self) && index >= old(self)@.len() && e.spec_kind()
                    == (if old(self)@.len() == 0 {
                    ErrorKind::EmptyHeap
                } else {
                    ErrorKind::InvalidIndex
                }),
            },
    {
        let ghost b: int = BRANCHES as int;
        let ghost ord = self.spec_order();
        if self.heap.is_empty() {
            Err(Error::new(ErrorKind::EmptyHeap, "Can not remove elements from an empty heap."))
        } else if index >= self.heap.len() {
            Err(Error::new(ErrorKind::InvalidIndex, "Index is beyond the end of the heap."))
        } else {
            proof {
                lemma_obeys_cmp_basics::<T>();
            }
            let ghost s_old = self.heap@;
            let removed: T = self.heap.swap_remove(index);
            proof {
                Self::lemma_swap_remove_multiset(s_old, index as int);
            }
            let length = self.heap.len();
            if index < length {
                let moved: T = self.heap[index];
                if wins(self.sort_order, &moved, &removed) {
                    proof {
                        Self::lemma_removal_up_pre(ord, s_old, self.heap@, index as int);
                    }
                    Self::sort_up(&mut self.heap, self.sort_order, index);
                } else {
                    let ghost s1 = self.heap@;
                    proof {
                        Self::lemma_overwrite_down_pre(ord, s_old, s1, index as int);
                        Self::lemma_removal_down_edges(ord, s_old, s1, index as int);
                    }
                    Self::sort_down(&mut self.heap, self.sort_order, index);
                    proof {
                        Self::lemma_sift_down_compose(ord, s1, self.heap@, index as int);
                    }
                }
            } else {
                // The removed element was the last one; dropping it
                // removes a leaf, which cannot break any remaining edge.
                proof {
                    assert forall|c: int| 1 <= c < self.heap@.len() implies !beats(
                        ord,
                        #[trigger] self.heap@[c],
                        self.heap@[parent_index(b, c)],
                    ) by {
                        lemma_parent_bounds(b, c);
                        assert(self.heap@[c] == s_old[c]);
                        assert(self.heap@[parent_index(b, c)] == s_old[parent_index(b, c)]);
                    };
                }
            }
            Ok(removed)
        }
    }

    /// After swap-and-pop at `i`, if the moved-in element does not win
    /// against the removed one, every edge outside the subtree of `i`
    /// (the edge from `i` up included) is still in order, the children of
    /// `i` remain bounded by `i`'s parent element, and so is the moved-in
    /// element itself.
    proof fn lemma_removal_down_edges(ord: Ordering, s_old: Seq<T>, s1: Seq<T>, i: int)
        requires
            obeys_cmp::<T>(),
            valid_order(ord),
            BRANCHES >= 2,
            0 <= i < s1.len(),
            s1.len() == s_old.len() - 1,
            heap_ordered(ord, BRANCHES as int, s_old),
            forall|j: int| 0 <= j < s1.len() && j != i ==> s1[j] == s_old[j],
            !beats(ord, s1[i], s_old[i]),
        ensures
            i > 0 ==> children_lose_to(ord, BRANCHES as int, s1, i, s1[parent_index(
                BRANCHES as int,
                i,
            )]),
            i > 0 ==> !beats(ord, s1[i], s1[parent_index(BRANCHES as int, i)]),
            forall|c: int|
                1 <= c < s1.len() && !in_subtree(BRANCHES as int, i, parent_index(
                    BRANCHES as int,
                    c,
                )) ==> !beats(ord, #[trigger] s1[c], s1[parent_index(BRANCHES as int, c)]),
    {
        let b = BRANCHES as int;
        let removed = s_old[i];
        if i > 0 {
            let p = parent_index(b, i);
            lemma_parent_bounds(b, i);
            assert(!beats(ord, removed, s_old[p]));
            lemma_not_beats_trans(ord, s1[i], removed, s1[p]);
            assert forall|c: int| 1 <= c < s1.len() && parent_index(b, c) == i implies !beats(
                ord,
                s1[c],
                s1[p],
            ) by {
                lemma_parent_bounds(b, c);
                assert(!beats(ord, s_old[c], removed));
                lemma_not_beats_trans(ord, s_old[c], removed, s_old[p]);
            };
        }
        assert forall|c: int|
            1 <= c < s1.len() && !in_subtree(b, i, parent_index(b, c)) implies !beats(
            ord,
            #[trigger] s1[c],
            s1[parent_index(b, c)],
        ) by {
            let cp = parent_index(b, c);
            lemma_parent_bounds(b, c);
            if c == i {
                // Handled by the bound against the parent, shown above.
                assert(!beats(ord, s1[i], s1[cp]));
            } else {
                assert(s1[c] == s_old[c] && s1[cp] == s_old[cp]);
            }
        };
    }

    /// Removes and returns the element from the top of the heap: the one
    /// that no other element wins against. Returns `None` if the heap is
    /// empty, leaving it unchanged.
    pub fn top(&mut self) -> (r: Option<T>)
        requires
            obeys_cmp::<T>(),
            old(self).well_formed(),
        ensures
            final(self).well_formed(),
            final(self).spec_order() == old(self).spec_order(),
            match r {
                Some(x) => old(self)@.len() > 0 && x == old(self)@[0] && top_of(
                    old(self).spec_order(),
                    x,
                    old(self)@.to_multiset(),
                ) && final(self)@.len() == old(self)@.len() - 1 && final(self)@.to_multiset()
                    == old(self)@.to_multiset().remove(x),
                None => old(self)@.len() == 0 && *final(self) == *old(self),
            },
    {
        proof {
            if self@.len() > 0 {
                self.lemma_top_of_root();
            }
        }
        match self.remove(0) {
            Ok(x) => Some(x),
            Err(_) => None,
        }
    }

    /// Replaces the element at `index` with `element`, then restores the
    /// heap property by sifting the position up if the new element wins
    /// against its parent's, and down otherwise. Returns an error,
    /// leaving the heap unchanged, if the heap is empty (`EmptyHeap`) or
    /// `index` is at or beyond its end (`InvalidIndex`).
    pub fn update(&mut self, index: usize, element: T) -> (r: Result<(), Error>)
        requires
            obeys_cmp::<T>(),
            old(self).well_formed(),
        ensures
            final(self).well_formed(),
            final(self).spec_order() == old(self).spec_order(),
            match r {
                Ok(_) => index < old(self)@.len() && final(self)@.len() == old(self)@.len()
                    && final(self)@.to_multiset() == old(self)@.to_multiset().remove(
                    old(self)@[index as int],
                ).insert(element),
                Err(e) => *final(self) == *old(self) && index >= old(self)@.len() && e.spec_kind()
                    == (if old(self)@.len() == 0 {
                    ErrorKind::EmptyHeap
                } else {
                    ErrorKind::InvalidIndex
                }),
            },
    {
        let ghost b: int = BRANCHES as int;
        let ghost ord = self.spec_order();
        if self.heap.is_empty() {
            Err(Error::new(ErrorKind::EmptyHeap, "Can not remove elements from an empty heap."))
        } else if index >= self.heap.len() {
            Err(Error::new(ErrorKind::InvalidIndex, "Index is beyond the end of the heap."))
        } else {
            proof {
                lemma_obeys_cmp_basics::<T>();
            }
            let ghost s_old = self.heap@;
            let ghost old_val = s_old[index as int];
            self.heap.set(index, element);
            let ghost s1 = self.heap@;
            proof {
                broadcast use vstd::seq_lib::group_to_multiset_ensures;

                assert(s1.to_multiset() == s_old.to_multiset().insert(element).remove(old_val));
                assert(s1.to_multiset() =~= s_old.to_multiset().remove(old_val).insert(element));
            }
            let take_down: bool = if index == 0 {
                true
            } else {
                let parent_val: T = self.heap[(index - 1) / BRANCHES];
                proof {
                    lemma_parent_bounds(b, index as int);
                }
                !wins(self.sort_order, &element, &parent_val)
            };
            if take_down {
                proof {
                    Self::lemma_overwrite_down_pre(ord, s_old, s1, index as int);
                    Self::lemma_update_down_edges(ord, s_old, s1, index as int);
                }
                Self::sort_down(&mut self.heap, self.sort_order, index);
                proof {
                    Self::lemma_sift_down_compose(ord, s1, self.heap@, index as int);
                }
            } else {
                proof {
                    Self::lemma_update_up_pre(ord, s_old, s1, index as int);
                }
                Self::sort_up(&mut self.heap, self.sort_order, index);
            }
            Ok(())
        }
    }

    /// Overwriting position `i` of a heap-ordered sequence with an
    /// element that does not win against `i`'s parent element leaves
    /// every edge outside the subtree of `i` in order, with the children
    /// of `i` (and the new element) still bounded by that parent element.
    proof fn lemma_update_down_edges(ord: Ordering, s_old: Seq<T>, s1: Seq<T>, i: int)
        requires
            obeys_cmp::<T>(),
            valid_order(ord),
            BRANCHES >= 2,
            0 <= i < s1.len(),
            s1.len() == s_old.len(),
            heap_ordered(ord, BRANCHES as int, s_old),
            forall|j: int| 0 <= j < s1.len() && j != i ==> s1[j] == s_old[j],
            i > 0 ==> !beats(ord, s1[i], s_old[parent_index(BRANCHES as int, i)]),
        ensures
            i > 0 ==> children_lose_to(ord, BRANCHES as int, s1, i, s1[parent_index(
                BRANCHES as int,
                i,
            )]),
            i > 0 ==> !beats(ord, s1[i], s1[parent_index(BRANCHES as int, i)]),
            forall|c: int|
                1 <= c < s1.len() && !in_subtree(BRANCHES as int, i, parent_index(
                    BRANCHES as int,
                    c,
                )) ==> !beats(ord, #[trigger] s1[c], s1[parent_index(BRANCHES as int, c)]),
    {
        let b = BRANCHES as int;
        let old_val = s_old[i];
        if i > 0 {
            let p = parent_index(b, i);
            lemma_parent_bounds(b, i);
            assert forall|c: int| 1 <= c < s1.len() && parent_index(b, c) == i implies !beats(
                ord,
                s1[c],
                s1[p],
            ) by {
                lemma_parent_bounds(b, c);
                assert(!beats(ord, s_old[c], old_val));
                assert(!beats(ord, old_val, s_old[p]));
                lemma_not_beats_trans(ord, s_old[c], old_val, s_old[p]);
            };
        }
        assert forall|c: int|
            1 <= c < s1.len() && !in_subtree(b, i, parent_index(b, c)) implies !beats(
            ord,
            #[trigger] s1[c],
            s1[parent_index(b, c)],
        ) by {
            let cp = parent_index(b, c);
            lemma_parent_bounds(b, c);
            if c == i {
                assert(!beats(ord, s1[i], s1[cp]));
            } else {
                assert(s1[c] == s_old[c] && s1[cp] == s_old[cp]);
            }
        };
    }

    /// Overwriting position `i` of a heap-ordered sequence with an
    /// element that wins against `i`'s parent element can break the heap
    /// property only at the edge from `i` up, and the children of `i`
    /// stay bounded by that parent element.
    proof fn lemma_update_up_pre(ord: Ordering, s_old: Seq<T>, s1: Seq<T>, i: int)
        requires
            obeys_cmp::<T>(),
            valid_order(ord),
            BRANCHES >= 2,
            0 < i < s1.len(),
            s1.len() == s_old.len(),
            heap_ordered(ord, BRANCHES as int, s_old),
            forall|j: int| 0 <= j < s1.len() && j != i ==> s1[j] == s_old[j],
            beats(ord, s1[i], s_old[parent_index(BRANCHES as int, i)]),
        ensures
            heap_ordered_except_up(ord, BRANCHES as int, s1, i),
            children_lose_to(ord, BRANCHES as int, s1, i, s1[parent_index(BRANCHES as int, i)]),
    {
        let b = BRANCHES as int;
        let old_val = s_old[i];
        let p = parent_index(b, i);
        lemma_parent_bounds(b, i);
        // The new element sits below everything its children were bounded
        // by: children of `i` lose neither to the parent element nor to
        // the new element.
        assert forall|c: int| 1 <= c < s1.len() && parent_index(b, c) == i implies !beats(
            ord,
            s1[c],
            s1[p],
        ) && !beats(ord, s1[c], s1[i]) by {
            lemma_parent_bounds(b, c);
            assert(!beats(ord, s_old[c], old_val));
            assert(!beats(ord, old_val, s_old[p]));
            lemma_not_beats_trans(ord, s_old[c], old_val, s_old[p]);
            if beats(ord, s1[c], s1[i]) {
                lemma_beats_trans(ord, s1[c], s1[i], s1[p]);
            }
        };
        assert forall|c: int| 1 <= c < s1.len() && c != i implies !beats(
            ord,
            s1[c],
            s1[parent_index(b, c)],
        ) by {
            let cp = parent_index(b, c);
            lemma_parent_bounds(b, c);
            if cp == i {
                assert(!beats(ord, s1[c], s1[i]));
            } else {
                assert(s1[c] == s_old[c] && s1[cp] == s_old[cp]);
            }
        };
    }

    /// Performs an in-place bulk restoration of the heap property (Floyd
    /// heapify): every internal position, from the last parent down to the
    /// root, is sifted down over an already-ordered set of subtrees. The
    /// buffer's contents are only rearranged.
    #[verifier::loop_isolation(false)]
    pub fn heap_sort(heap: &mut Vec<T>, sort_order: Ordering)
        requires
            obeys_cmp::<T>(),
            valid_order(sort_order),
            BRANCHES >= 2,
        ensures
            final(heap)@.len() == old(heap)@.len(),
            final(heap)@.to_multiset() == old(heap)@.to_multiset(),
            heap_ordered(sort_order, BRANCHES as int, final(heap)@),
            heap_ordered(sort_order, BRANCHES as int, old(heap)@)
                && vstd::laws_eq::obeys_concrete_eq::<T>() ==> final(heap)@ == old(heap)@,
    {
        let ghost b: int = BRANCHES as int;
        let ghost ord = sort_order;
        let len = heap.len();
        if len > 1 {
            proof {
                lemma_div_nonincreasing(len as int - 2, b);
            }
            let last_parent: usize = (len - 2) / BRANCHES;
            let mut index: usize = last_parent + 1;
            proof {
                // Positions past the last parent have no children, so the
                // suffix of processed parents starts out trivially ordered.
                assert forall|c: int|
                    1 <= c < len && parent_index(b, c) >= index as int implies false by {
                    lemma_parent_bounds(b, c);
                    lemma_div_is_ordered(c - 1, len as int - 2, b);
                };
            }
            while index > 0
                invariant
                    index <= last_parent + 1,
                    heap@.len() == len,
                    heap@.to_multiset() == old(heap)@.to_multiset(),
                    heap_ordered(ord, b, old(heap)@) && vstd::laws_eq::obeys_concrete_eq::<T>()
                        ==> heap@ == old(heap)@,
                    forall|c: int|
                        1 <= c < len && parent_index(b, c) >= index as int ==> !beats(
                            ord,
                            #[trigger] heap@[c],
                            heap@[parent_index(b, c)],
                        ),
                decreases index,
            {
                index = index - 1;
                let ghost prev = heap@;
                proof {
                    // Within the subtree of `index`, every strictly lower
                    // parent has already been processed.
                    assert forall|c: int|
                        1 <= c < prev.len() && in_subtree(b, index as int, parent_index(b, c))
                            && parent_index(b, c) != index as int implies !beats(
                        ord,
                        prev[c],
                        prev[parent_index(b, c)],
                    ) by {
                        lemma_subtree_ge(b, index as int, parent_index(b, c));
                    };
                }
                proof {
                    if heap_ordered(ord, b, old(heap)@)
                        && vstd::laws_eq::obeys_concrete_eq::<T>() {
                        assert(heap@ == old(heap)@);
                        assert(subtree_ordered(ord, b, heap@, index as int));
                    }
                }
                Self::sort_down(heap, sort_order, index);
                proof {
                    assert forall|c: int|
                        1 <= c < len && parent_index(b, c) >= index as int implies !beats(
                        ord,
                        #[trigger] heap@[c],
                        heap@[parent_index(b, c)],
                    ) by {
                        let p = parent_index(b, c);
                        lemma_parent_bounds(b, c);
                        if !in_subtree(b, index as int, p) {
                            // The edge lies outside the processed subtree
                            // and was already in order.
                            if in_subtree(b, index as int, c) {
                                assert(c != index as int);
                                assert(in_subtree(b, index as int, p));
                                assert(false);
                            }
                            assert(heap@[c] == prev[c] && heap@[p] == prev[p]);
                            assert(p != index as int);
                        }
                    };
                }
            }
            proof {
                assert forall|c: int| 1 <= c < heap@.len() implies !beats(
                    ord,
                    #[trigger] heap@[c],
                    heap@[parent_index(b, c)],
                ) by {
                    lemma_parent_bounds(b, c);
                };
            }
        }
    }

    /// Swap-and-pop on the model: overwriting position `i` with the last
    /// element and dropping the last position removes exactly the element
    /// at `i` from the contents.
    proof fn lemma_swap_remove_multiset(s: Seq<T>, i: int)
        requires
            0 <= i < s.len(),
        ensures
            s.update(i, s.last()).drop_last().len() == s.len() - 1,
            s.update(i, s.last()).drop_last().to_multiset() == s.to_multiset().remove(s[i]),
            forall|j: int|
                0 <= j < s.len() - 1 && j != i ==> s.update(i, s.last()).drop_last()[j] == s[j],
            i < s.len() - 1 ==> s.update(i, s.last()).drop_last()[i] == s.last(),
    {
        broadcast use vstd::seq_lib::group_to_multiset_ensures;

        let n = s.len() as int;
        let s1u = s.update(i, s.last());
        if i == n - 1 {
            assert(s1u.drop_last() =~= s.remove(n - 1));
            assert(s.remove(n - 1).to_multiset() == s.to_multiset().remove(s[n - 1]));
        } else {
            assert(s1u.drop_last() =~= s1u.remove(n - 1));
            assert(s1u.to_multiset() == s.to_multiset().insert(s.last()).remove(s[i]));
            assert(s1u.remove(n - 1).to_multiset() == s1u.to_multiset().remove(s1u[n - 1]));
            assert(s1u[n - 1] == s.last());
            assert(s.to_multiset().insert(s.last()).remove(s[i]).remove(s.last())
                =~= s.to_multiset().remove(s[i]));
        }
    }

    /// After swap-and-pop at `i`, if the moved-in element wins against
    /// the removed one, only the edge from `i` up can be out of order,
    /// and the children of `i` still lose to its parent element.
    proof fn lemma_removal_up_pre(ord: Ordering, s_old: Seq<T>, s1: Seq<T>, i: int)
        requires
            obeys_cmp::<T>(),
            valid_order(ord),
            BRANCHES >= 2,
            0 <= i < s1.len(),
            s1.len() == s_old.len() - 1,
            heap_ordered(ord, BRANCHES as int, s_old),
            forall|j: int| 0 <= j < s1.len() && j != i ==> s1[j] == s_old[j],
            beats(ord, s1[i], s_old[i]),
        ensures
            heap_ordered_except_up(ord, BRANCHES as int, s1, i),
            i > 0 ==> children_lose_to(ord, BRANCHES as int, s1, i, s1[parent_index(
                BRANCHES as int,
                i,
            )]),
    {
        let b = BRANCHES as int;
        let moved = s1[i];
        let removed = s_old[i];
        assert forall|c: int| 1 <= c < s1.len() && c != i implies !beats(
            ord,
            s1[c],
            s1[parent_index(b, c)],
        ) by {
            let cp = parent_index(b, c);
            lemma_parent_bounds(b, c);
            if cp == i {
                // The old edge bounded this child by the removed element,
                // which the moved-in element wins against.
                if beats(ord, s1[c], moved) {
                    lemma_beats_trans(ord, s1[c], moved, removed);
                }
            } else {
                assert(s1[c] == s_old[c] && s1[cp] == s_old[cp]);
            }
        };
        if i > 0 {
            let p = parent_index(b, i);
            lemma_parent_bounds(b, i);
            assert forall|c: int| 1 <= c < s1.len() && parent_index(b, c) == i implies !beats(
                ord,
                s1[c],
                s1[p],
            ) by {
                lemma_parent_bounds(b, c);
                assert(!beats(ord, s_old[c], removed));
                assert(!beats(ord, removed, s_old[p]));
                lemma_not_beats_trans(ord, s_old[c], removed, s_old[p]);
            };
        }
    }

    /// Overwriting position `i` of a heap-ordered sequence disturbs, in
    /// the subtree of `i`, only the edges directly below `i`.
    proof fn lemma_overwrite_down_pre(ord: Ordering, s_old: Seq<T>, s1: Seq<T>, i: int)
        requires
            obeys_cmp::<T>(),
            valid_order(ord),
            BRANCHES >= 2,
            0 <= i < s1.len(),
            s1.len() <= s_old.len(),
            heap_ordered(ord, BRANCHES as int, s_old),
            forall|j: int| 0 <= j < s1.len() && j != i ==> s1[j] == s_old[j],
        ensures
            subtree_ordered_except_down(ord, BRANCHES as int, s1, i, i),
    {
        let b = BRANCHES as int;
        assert forall|c: int|
            1 <= c < s1.len() && in_subtree(b, i, parent_index(b, c)) && parent_index(b, c) != i
                implies !beats(ord, s1[c], s1[parent_index(b, c)]) by {
            let cp = parent_index(b, c);
            lemma_parent_bounds(b, c);
            lemma_subtree_ge(b, i, cp);
            assert(s1[c] == s_old[c] && s1[cp] == s_old[cp]);
        };
    }

    /// Composes a finished sift-down back into the global heap property:
    /// if every edge outside the subtree of `i` was in order, the
    /// children of `i` and `i`'s own element were bounded by `i`'s parent
    /// element, and the walk has ordered the subtree while drawing the
    /// element now at `i` from the subtree, then the whole sequence is
    /// heap-ordered.
    proof fn lemma_sift_down_compose(ord: Ordering, s1: Seq<T>, s2: Seq<T>, i: int)
        requires
            obeys_cmp::<T>(),
            valid_order(ord),
            BRANCHES >= 2,
            0 <= i < s1.len(),
            s2.len() == s1.len(),
            subtree_ordered_except_down(ord, BRANCHES as int, s1, i, i),
            i > 0 ==> children_lose_to(ord, BRANCHES as int, s1, i, s1[parent_index(
                BRANCHES as int,
                i,
            )]),
            i > 0 ==> !beats(ord, s1[i], s1[parent_index(BRANCHES as int, i)]),
            forall|c: int|
                1 <= c < s1.len() && !in_subtree(BRANCHES as int, i, parent_index(
                    BRANCHES as int,
                    c,
                )) ==> !beats(ord, #[trigger] s1[c], s1[parent_index(BRANCHES as int, c)]),
            subtree_ordered(ord, BRANCHES as int, s2, i),
            forall|j: int|
                0 <= j < s1.len() && !in_subtree(BRANCHES as int, i, j) ==> s2[j] == s1[j],
            exists|k: int|
                0 <= k < s1.len() && #[trigger] in_subtree(BRANCHES as int, i, k) && s2[i]
                    == s1[k],
        ensures
            heap_ordered(ord, BRANCHES as int, s2),
    {
        let b = BRANCHES as int;
        assert forall|c: int| 1 <= c < s2.len() implies !beats(
            ord,
            #[trigger] s2[c],
            s2[parent_index(b, c)],
        ) by {
            let cp = parent_index(b, c);
            lemma_parent_bounds(b, c);
            if !in_subtree(b, i, cp) {
                if c == i {
                    // The crossing edge: the element now at `i` came from
                    // the subtree, all of which was bounded by `i`'s
                    // parent element.
                    let y = s1[cp];
                    let k = choose|k: int|
                        0 <= k < s1.len() && #[trigger] in_subtree(b, i, k) && s2[i] == s1[k];
                    lemma_subtree_dominated(ord, b, s1, i, y, k);
                    assert(s2[cp] == s1[cp]);
                } else {
                    if in_subtree(b, i, c) {
                        assert(in_subtree(b, i, cp));
                        assert(false);
                    }
                    assert(s2[c] == s1[c] && s2[cp] == s1[cp]);
                }
            }
        };
    }

    /// Builds a heap from an arbitrary, possibly unordered sequence of
    /// elements: the contents are taken over as the tree layout and then
    /// restored to a valid heap in place.
    pub fn from_slice(arr: &[T]) -> (r: Self)
        requires
            obeys_cmp::<T>(),
            BRANCHES >= 2,
        ensures
            r.well_formed(),
            r.spec_order() == configured_order(MAX_HEAP),
            r@.len() == arr@.len(),
            r@.to_multiset() == arr@.to_multiset(),
    {
        let mut heap: Vec<T> = vstd::slice::slice_to_vec(arr);
        let sort_order: Ordering = if MAX_HEAP {
            Ordering::Greater
        } else {
            Ordering::Less
        };
        Self::heap_sort(&mut heap, sort_order);
        Self { heap, sort_order }
    }

    /// Reports whether every element loses or ties against the root
    /// element. This read-only diagnostic is intended for use during
    /// testing; the heap property proper implies it.
    pub fn is_valid(&self) -> (r: bool)
        requires
            T::obeys_cmp_spec(),
        ensures
            r == (forall|i: int|
                1 <= i < self@.len() ==> !beats(self.spec_order(), #[trigger] self@[i], self@[0])),
    {
        let ghost ord = self.spec_order();
        let length = self.heap.len();
        let mut i: usize = 1;
        while i < length
            invariant
                T::obeys_cmp_spec(),
                ord == self.spec_order(),
                length == self@.len(),
                1 <= i,
                forall|j: int| 1 <= j < i ==> !beats(ord, #[trigger] self@[j], self@[0]),
            decreases length - i,
        {
            let x: T = self.heap[i];
            let root: T = self.heap[0];
            if wins(self.sort_order, &x, &root) {
                return false;
            }
            i = i + 1;
        }
        true
    }

    /// The heap property implies the diagnostic of `is_valid`: in a
    /// well-formed heap, no element wins against the root element.
    pub proof fn lemma_well_formed_is_valid(&self)
        requires
            obeys_cmp::<T>(),
            self.well_formed(),
        ensures
            forall|i: int|
                1 <= i < self@.len() ==> !beats(self.spec_order(), #[trigger] self@[i], self@[0]),
    {
        assert forall|i: int|
            1 <= i < self@.len() implies !beats(self.spec_order(), #[trigger] self@[i], self@[0]) by {
            lemma_root_best(self.spec_order(), BRANCHES as int, self@, i);
        };
    }

    /// Inserts an element into the heap: it is appended at the end of the
    /// buffer and then sifted up to its place.
    pub fn insert(&mut self, element: T)
        requires
            obeys_cmp::<T>(),
            old(self).well_formed(),
        ensures
            final(self).well_formed(),
            final(self).spec_order() == old(self).spec_order(),
            final(self)@.len() == old(self)@.len() + 1,
            final(self)@.to_multiset() == old(self)@.to_multiset().insert(element),
            forall|j: int|
                0 <= j < old(self)@.len() && !in_subtree(
                    BRANCHES as int,
                    j,
                    old(self)@.len() as int,
                ) ==> final(self)@[j] == old(self)@[j],
    {
        let ghost b: int = BRANCHES as int;
        let ghost ord = self.spec_order();
        let index = self.heap.len();
        self.heap.push(element);
        proof {
            broadcast use vstd::seq_lib::group_to_multiset_ensures;

            let s1 = self.heap@;
            assert forall|c: int|
                1 <= c < s1.len() && c != index as int implies !beats(
                ord,
                s1[c],
                s1[parent_index(b, c)],
            ) by {
                lemma_parent_bounds(b, c);
            };
            assert forall|c: int|
                1 <= c < s1.len() && parent_index(b, c) == index as int implies false by {
                lemma_parent_bounds(b, c);
                assert(index as int * b >= index as int * 2) by (nonlinear_arith)
                    requires
                        b >= 2,
                        index as int >= 0,
                ;
            };
        }
        Self::sort_up(&mut self.heap, self.sort_order, index);
    }
}

} // verus!
