//! The complete k-ary tree that a heap's backing sequence encodes, and the
//! ordering predicates and lemmas over it.
//!
//! Position 0 is the root; the children of position `p` occupy positions
//! `p*b + 1 ..= p*b + b` (clipped to the sequence length), so the parent of
//! a non-root position `c` is `(c - 1) / b`.

use core::cmp::Ordering;
use vstd::arithmetic::div_mod::lemma_div_is_ordered;
use vstd::arithmetic::div_mod::lemma_div_pos_is_pos;
use vstd::arithmetic::div_mod::lemma_fundamental_div_mod;
use vstd::arithmetic::div_mod::lemma_fundamental_div_mod_converse_div;
use vstd::arithmetic::mul::lemma_mul_inequality;
use vstd::laws_cmp::obeys_cmp;
use vstd::prelude::*;

use crate::order::beats;
use crate::order::lemma_beats_irrefl;
use crate::order::lemma_not_beats_trans;
use crate::order::valid_order;

verus! {

/// The position of the parent of the non-root position `c` in a tree with
/// branching factor `b`.
pub open spec fn parent_index(b: int, c: int) -> int
    recommends
        b >= 2,
        c >= 1,
{
    (c - 1) / b
}

/// Whether position `i` lies in the subtree rooted at position `root` of a
/// tree with branching factor `b`.
pub open spec fn in_subtree(b: int, root: int, i: int) -> bool
    recommends
        b >= 2,
        root >= 0,
    decreases i,
{
    if i == root {
        true
    } else if i < 1 || i <= root || b < 1 {
        false
    } else {
        in_subtree(b, root, parent_index(b, i))
    }
}

/// The heap property: no element wins against the element at its parent
/// position.
pub open spec fn heap_ordered<T: Ord>(ord: Ordering, b: int, s: Seq<T>) -> bool {
    forall|c: int|
        1 <= c < s.len() ==> !beats(ord, #[trigger] s[c], s[parent_index(b, c)])
}

/// The heap property at every edge except, possibly, the one leading from
/// position `x` up to its parent.
pub open spec fn heap_ordered_except_up<T: Ord>(ord: Ordering, b: int, s: Seq<T>, x: int) -> bool {
    forall|c: int|
        1 <= c < s.len() && c != x ==> !beats(ord, #[trigger] s[c], s[parent_index(b, c)])
}

/// The heap property at every edge whose parent end lies in the subtree
/// rooted at `root`, except, possibly, the edges leading down from
/// position `x`.
pub open spec fn subtree_ordered_except_down<T: Ord>(
    ord: Ordering,
    b: int,
    s: Seq<T>,
    root: int,
    x: int,
) -> bool {
    forall|c: int|
        1 <= c < s.len() && in_subtree(b, root, parent_index(b, c)) && parent_index(b, c) != x
            ==> !beats(ord, #[trigger] s[c], s[parent_index(b, c)])
}

/// The heap property at every edge whose parent end lies in the subtree
/// rooted at `root`.
pub open spec fn subtree_ordered<T: Ord>(ord: Ordering, b: int, s: Seq<T>, root: int) -> bool {
    forall|c: int|
        1 <= c < s.len() && in_subtree(b, root, parent_index(b, c))
            ==> !beats(ord, #[trigger] s[c], s[parent_index(b, c)])
}

/// No element at a child position of `x` wins against the value `y`.
pub open spec fn children_lose_to<T: Ord>(ord: Ordering, b: int, s: Seq<T>, x: int, y: T) -> bool {
    forall|c: int|
        1 <= c < s.len() && parent_index(b, c) == x ==> !beats(ord, #[trigger] s[c], y)
}

/// The parent position of a non-root position is a position above it, and
/// its children span exactly `parent*b + 1 ..= parent*b + b`.
pub proof fn lemma_parent_bounds(b: int, c: int)
    requires
        b >= 2,
        c >= 1,
    ensures
        0 <= parent_index(b, c) < c,
        parent_index(b, c) * b + 1 <= c <= parent_index(b, c) * b + b,
{
    let p = parent_index(b, c);
    lemma_div_pos_is_pos(c - 1, b);
    lemma_fundamental_div_mod(c - 1, b);
    assert(c - 1 == b * p + ((c - 1) % b));
    lemma_mul_inequality(1, b, p);
    assert(p * b == b * p) by (nonlinear_arith);
}

/// Any position in the child range of `p` has `p` as its parent.
pub proof fn lemma_parent_converse(b: int, p: int, c: int)
    requires
        b >= 2,
        p >= 0,
        p * b + 1 <= c <= p * b + b,
    ensures
        parent_index(b, c) == p,
{
    lemma_fundamental_div_mod_converse_div(c - 1, b, p, c - 1 - p * b);
}

/// Positions past the last parent of an `len`-element tree have no
/// children within it.
pub proof fn lemma_childless(b: int, len: int, p: int)
    requires
        b >= 2,
        p >= 0,
        len < 2 || p > parent_index(b, len - 1),
    ensures
        forall|c: int| 1 <= c < len ==> parent_index(b, c) != p,
{
    assert forall|c: int| 1 <= c < len implies parent_index(b, c) != p by {
        lemma_parent_bounds(b, c);
        lemma_div_is_ordered(c - 1, len - 2, b);
    };
}

/// Every position in a subtree lies at or below its root.
pub proof fn lemma_subtree_ge(b: int, root: int, i: int)
    requires
        b >= 2,
        root >= 0,
        in_subtree(b, root, i),
    ensures
        i >= root,
    decreases i,
{
}

/// A subtree is closed under taking children.
pub proof fn lemma_subtree_child(b: int, root: int, p: int, c: int)
    requires
        b >= 2,
        root >= 0,
        in_subtree(b, root, p),
        c >= 1,
        parent_index(b, c) == p,
    ensures
        in_subtree(b, root, c),
{
    lemma_parent_bounds(b, c);
    lemma_subtree_ge(b, root, p);
}

/// One downward step of the sift-down walk preserves its invariant.
///
/// Within the subtree of `root`, suppose the heap property can fail only
/// at the edges below `cur`, the children of `cur` do not win against
/// `cur`'s parent element, and `pr` is a child of `cur` that no sibling
/// (nor `cur`'s own element) wins against. Then after swapping `cur` and
/// `pr`, the property can fail only at the edges below `pr`, and the
/// children of `pr` do not win against its new parent element.
pub proof fn lemma_sift_down_step<T: Ord>(
    ord: Ordering,
    b: int,
    s: Seq<T>,
    root: int,
    cur: int,
    pr: int,
)
    requires
        obeys_cmp::<T>(),
        valid_order(ord),
        b >= 2,
        0 <= root <= cur < s.len(),
        in_subtree(b, root, cur),
        subtree_ordered_except_down(ord, b, s, root, cur),
        cur != root ==> children_lose_to(ord, b, s, cur, s[parent_index(b, cur)]),
        1 <= pr < s.len(),
        parent_index(b, pr) == cur,
        children_lose_to(ord, b, s, cur, s[pr]),
        !beats(ord, s[cur], s[pr]),
    ensures
        in_subtree(b, root, pr),
        subtree_ordered_except_down(
            ord,
            b,
            s.update(cur, s[pr]).update(pr, s[cur]),
            root,
            pr,
        ),
        children_lose_to(
            ord,
            b,
            s.update(cur, s[pr]).update(pr, s[cur]),
            pr,
            s.update(cur, s[pr]).update(pr, s[cur])[parent_index(b, pr)],
        ),
{
    let s2 = s.update(cur, s[pr]).update(pr, s[cur]);
    lemma_parent_bounds(b, pr);
    lemma_subtree_child(b, root, cur, pr);
    assert forall|c: int|
        1 <= c < s2.len() && in_subtree(b, root, parent_index(b, c)) && parent_index(b, c) != pr
            implies !beats(ord, s2[c], s2[parent_index(b, c)]) by {
        let cp = parent_index(b, c);
        lemma_parent_bounds(b, c);
        if c == pr {
            // The winning child's old position now holds `cur`'s old
            // element, which does not win against the child's element.
            assert(!beats(ord, s[cur], s[pr]));
        } else if cp == cur {
            // A sibling of the winning child loses against it.
            assert(!beats(ord, s[c], s[pr]));
        } else if c == cur {
            if cur == root {
                // The parent of `root` lies above the subtree.
                lemma_subtree_ge(b, root, cp);
                assert(false);
            }
            // The winning child does not beat `cur`'s parent element.
            assert(!beats(ord, s[pr], s[cp]));
        } else {
            assert(s2[c] == s[c] && s2[cp] == s[cp]);
        }
    };
    assert forall|d: int| 1 <= d < s2.len() && parent_index(b, d) == pr implies !beats(
        ord,
        s2[d],
        s2[parent_index(b, pr)],
    ) by {
        lemma_parent_bounds(b, d);
        // A grandchild kept its edge to `pr`, whose old element moved up.
        assert(s2[d] == s[d]);
        assert(!beats(ord, s[d], s[pr]));
    };
}

/// Whatever lies in the subtree of a position lies in the subtree of
/// that position's parent.
pub proof fn lemma_ancestor_step(b: int, cur: int, i: int)
    requires
        b >= 2,
        1 <= cur,
        in_subtree(b, cur, i),
    ensures
        in_subtree(b, parent_index(b, cur), i),
    decreases i,
{
    lemma_parent_bounds(b, cur);
    if i == cur {
        assert(in_subtree(b, parent_index(b, cur), parent_index(b, cur)));
    } else {
        lemma_ancestor_step(b, cur, parent_index(b, i));
        lemma_parent_bounds(b, i);
    }
}

/// A value that no element wins against from directly below the subtree
/// root, nor from the root itself, is not beaten from anywhere in the
/// subtree, as long as the subtree is ordered below its root.
pub proof fn lemma_subtree_dominated<T: Ord>(
    ord: Ordering,
    b: int,
    s: Seq<T>,
    root: int,
    y: T,
    k: int,
)
    requires
        obeys_cmp::<T>(),
        valid_order(ord),
        b >= 2,
        0 <= root < s.len(),
        subtree_ordered_except_down(ord, b, s, root, root),
        children_lose_to(ord, b, s, root, y),
        !beats(ord, s[root], y),
        in_subtree(b, root, k),
        0 <= k < s.len(),
    ensures
        !beats(ord, s[k], y),
    decreases k,
{
    if k != root {
        let p = parent_index(b, k);
        lemma_parent_bounds(b, k);
        if p != root {
            lemma_subtree_dominated(ord, b, s, root, y, p);
            lemma_not_beats_trans(ord, s[k], s[p], y);
        }
    }
}

/// In a heap-ordered sequence, no element wins against the root element.
pub proof fn lemma_root_best<T: Ord>(ord: Ordering, b: int, s: Seq<T>, i: int)
    requires
        obeys_cmp::<T>(),
        valid_order(ord),
        b >= 2,
        heap_ordered(ord, b, s),
        0 <= i < s.len(),
    ensures
        !beats(ord, s[i], s[0]),
    decreases i,
{
    if i == 0 {
        lemma_beats_irrefl(ord, s[0]);
    } else {
        let p = parent_index(b, i);
        lemma_parent_bounds(b, i);
        lemma_root_best(ord, b, s, p);
        lemma_not_beats_trans(ord, s[i], s[p], s[0]);
    }
}

} // verus!
