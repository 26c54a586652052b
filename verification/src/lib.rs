//! An array-backed priority queue with a configurable ordering direction
//! (minimum-first or maximum-first) and a configurable branching factor.
//!
//! The heap is a complete k-ary tree stored in one contiguous `Vec`. All
//! operations are built from two restoration walks, `sort_up` and
//! `sort_down`, plus thin wrappers that call them at the right position.

mod errors;
mod heap;
mod laws;
mod order;
mod tree;

pub use errors::Error;
pub use errors::ErrorKind;
pub use heap::configured_order;
pub use heap::Heap;
pub use laws::extraction_of;
pub use laws::lemma_extraction_complete;
pub use laws::lemma_extraction_member;
pub use laws::lemma_extraction_step;
pub use laws::lemma_extraction_sorted;
pub use laws::lemma_tops_tie;
pub use order::beats;
pub use order::lemma_beats_asym;
pub use order::lemma_beats_irrefl;
pub use order::lemma_beats_trans;
pub use order::lemma_not_beats_trans;
pub use order::lemma_obeys_cmp_basics;
pub use order::lemma_tie_is_equal;
pub use order::top_of;
pub use order::valid_order;
pub use tree::children_lose_to;
pub use tree::heap_ordered;
pub use tree::heap_ordered_except_up;
pub use tree::in_subtree;
pub use tree::lemma_ancestor_step;
pub use tree::lemma_childless;
pub use tree::lemma_parent_bounds;
pub use tree::lemma_parent_converse;
pub use tree::lemma_root_best;
pub use tree::lemma_subtree_child;
pub use tree::lemma_subtree_dominated;
pub use tree::lemma_subtree_ge;
pub use tree::parent_index;
pub use tree::subtree_ordered;
pub use tree::subtree_ordered_except_down;
