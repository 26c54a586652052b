use std::cmp::Ordering;

use rheap::ErrorKind;
use rheap::Heap;

type MinHeap = Heap<usize, false, 2>;
type MaxHeap = Heap<usize, true, 2>;

fn drain(heap: &mut MinHeap) -> Vec<usize> {
    let mut out: Vec<usize> = Vec::new();
    while let Some(x) = heap.top() {
        assert!(heap.is_valid());
        out.push(x);
    }
    out
}

#[test]
fn empty_heap_basics() {
    let mut heap: MinHeap = Heap::new();
    assert_eq!(heap.len(), 0);
    assert!(heap.is_empty());
    assert!(heap.peek().is_none());
    assert!(heap.top().is_none());
    assert!(heap.find(&7).is_none());
    assert!(heap.is_valid());
}

#[test]
fn scenario_insert_then_extract() {
    // Minimum-first, branching factor 2: insert 5, 3, 8, 1.
    let mut heap: MinHeap = Heap::new();
    heap.insert(5);
    heap.insert(3);
    heap.insert(8);
    heap.insert(1);
    assert_eq!(heap.len(), 4);
    assert!(heap.is_valid());

    // The top is 1; extracting it leaves a valid 3-element heap whose
    // top is now 3.
    assert_eq!(heap.top(), Some(1));
    assert_eq!(heap.len(), 3);
    assert!(heap.is_valid());
    assert_eq!(heap.peek(), Some(&3));

    // Removing 8 by its current position works wherever it sits, and
    // leaves a valid 2-element heap.
    let index = heap.find(&8).unwrap();
    assert_eq!(heap.remove(index).unwrap(), 8);
    assert_eq!(heap.len(), 2);
    assert!(heap.is_valid());
}

#[test]
fn scenario_bulk_min() {
    // Bulk load then repeated extract-top yields the ascending sort of
    // the input.
    let v: Vec<usize> = vec![8, 66, 9, 55, 7, 0, 14, 6, 37, 2];
    let mut heap: MinHeap = Heap::from_slice(&v[..]);
    assert!(heap.is_valid());
    assert_eq!(heap.len(), v.len());
    let drained = drain(&mut heap);
    assert_eq!(drained, vec![0, 2, 6, 7, 8, 9, 14, 37, 55, 66]);
}

#[test]
fn scenario_bulk_max() {
    let v: Vec<usize> = vec![8, 66, 9, 55, 7, 0, 14, 6, 37, 2];
    let mut heap: MaxHeap = Heap::from_slice(&v[..]);
    assert!(heap.is_valid());
    let mut out: Vec<usize> = Vec::new();
    while let Some(x) = heap.top() {
        assert!(heap.is_valid());
        out.push(x);
    }
    assert_eq!(out, vec![66, 55, 37, 14, 9, 8, 7, 6, 2, 0]);
}

#[test]
fn scenario_bulk_ternary() {
    // An arbitrary branching factor orders the same way.
    let v: Vec<usize> = vec![8, 66, 9, 55, 7, 0, 14, 6, 37, 2];
    let mut heap: Heap<usize, false, 3> = Heap::from_slice(&v[..]);
    assert!(heap.is_valid());
    let mut out: Vec<usize> = Vec::new();
    while let Some(x) = heap.top() {
        assert!(heap.is_valid());
        out.push(x);
    }
    assert_eq!(out, vec![0, 2, 6, 7, 8, 9, 14, 37, 55, 66]);
}

#[test]
fn equal_keys_round_trip() {
    let mut heap: MinHeap = Heap::new();
    for x in [5, 3, 5, 3, 5] {
        heap.insert(x);
        assert!(heap.is_valid());
    }
    assert_eq!(drain(&mut heap), vec![3, 3, 5, 5, 5]);
}

#[test]
fn error_empty_heap() {
    let mut heap: MinHeap = Heap::new();
    let e = heap.remove(0).unwrap_err();
    assert!(matches!(e.kind(), ErrorKind::EmptyHeap));
    assert_eq!(e.message(), "Can not remove elements from an empty heap.");
    let e = heap.update(0, 1).unwrap_err();
    assert!(matches!(e.kind(), ErrorKind::EmptyHeap));
    assert_eq!(heap.len(), 0);
}

#[test]
fn error_invalid_index() {
    let v: Vec<usize> = vec![4, 9, 6];
    let mut heap: MinHeap = Heap::from_slice(&v[..]);
    let before: Vec<usize> = heap.as_slice().to_vec();

    let e = heap.remove(3).unwrap_err();
    assert!(matches!(e.kind(), ErrorKind::InvalidIndex));
    assert_eq!(e.message(), "Index is beyond the end of the heap.");
    let e = heap.update(7, 1).unwrap_err();
    assert!(matches!(e.kind(), ErrorKind::InvalidIndex));

    // Failed operations leave length and contents unchanged.
    assert_eq!(heap.len(), 3);
    assert_eq!(heap.as_slice().to_vec(), before);
}

#[test]
fn size_changes_per_operation() {
    let mut heap: MinHeap = Heap::new();
    heap.insert(10);
    heap.insert(20);
    assert_eq!(heap.len(), 2);
    assert!(heap.update(1, 15).is_ok());
    assert_eq!(heap.len(), 2);
    heap.find(&15);
    assert_eq!(heap.len(), 2);
    assert!(heap.remove(1).is_ok());
    assert_eq!(heap.len(), 1);
    assert_eq!(heap.top(), Some(10));
    assert_eq!(heap.len(), 0);
}

#[test]
fn update_moves_element_both_ways() {
    let v: Vec<usize> = vec![0, 2, 4, 6, 8, 10];
    let mut heap: MinHeap = Heap::from_slice(&v[..]);
    // Lower a leaf: it must sift up past its old parent.
    let index = heap.find(&8).unwrap();
    assert!(heap.update(index, 1).is_ok());
    assert!(heap.is_valid());
    assert_eq!(heap.peek(), Some(&0));
    assert_eq!(heap.find(&8), None);
    assert!(heap.find(&1).is_some());
    // Raise the root above everything: it must sift down.
    assert!(heap.update(0, 99).is_ok());
    assert!(heap.is_valid());
    assert_eq!(heap.peek(), Some(&1));
    assert_eq!(drain(&mut heap), vec![1, 2, 4, 6, 10, 99]);
}

#[test]
fn update_doctest_scenario() {
    let v: Vec<usize> = vec![0, 2, 4, 6, 8, 10];
    let mut heap: MinHeap = Heap::from_slice(&v[..]);
    if heap.update(3, 11).is_err() {
        panic!();
    }
    assert!(heap.is_valid());
}

#[test]
fn find_first_match() {
    let v: Vec<usize> = vec![0, 2, 4, 6, 8, 10];
    let heap: MinHeap = Heap::from_slice(&v[..]);
    if let Some(index) = heap.find(&6) {
        assert!(index == 3);
    } else {
        panic!();
    }
    assert!(heap.find(&5).is_none());
}

#[test]
fn find_reports_lowest_position() {
    let mut heap: MinHeap = Heap::new();
    heap.insert(7);
    heap.insert(7);
    heap.insert(7);
    assert_eq!(heap.find(&7), Some(0));
}

#[test]
fn peek_after_insert() {
    let v: Vec<usize> = vec![0, 2, 4, 6, 8, 10];
    let mut heap: MinHeap = Heap::from_slice(&v[..]);
    heap.insert(5);
    if let Some(x) = heap.peek() {
        assert!(*x == 0);
    } else {
        panic!();
    }
}

#[test]
fn remove_by_index() {
    let v: Vec<usize> = vec![0, 2, 4, 6, 8, 10];
    let mut heap: MinHeap = Heap::from_slice(&v[..]);
    if let Ok(old_element) = heap.remove(3) {
        assert!(old_element == 6);
    } else {
        panic!();
    }
    assert!(heap.is_valid());
}

#[test]
fn remove_last_position() {
    let v: Vec<usize> = vec![1, 3, 5];
    let mut heap: MinHeap = Heap::from_slice(&v[..]);
    assert_eq!(heap.remove(2).unwrap(), 5);
    assert!(heap.is_valid());
    assert_eq!(heap.len(), 2);
}

#[test]
fn clone_preserves_contents() {
    let v: Vec<usize> = vec![4, 1, 3];
    let heap: MinHeap = Heap::from_slice(&v[..]);
    let copy = heap.clone();
    assert_eq!(copy.as_slice().to_vec(), heap.as_slice().to_vec());
    assert!(copy.is_valid());
    assert_eq!(copy.len(), 3);
}

#[test]
fn clear_empties_the_heap() {
    let v: Vec<usize> = vec![3, 1, 4];
    let mut heap: MinHeap = Heap::from_slice(&v[..]);
    heap.clear();
    assert_eq!(heap.len(), 0);
    assert!(heap.is_empty());
    heap.insert(2);
    assert_eq!(heap.peek(), Some(&2));
}

#[test]
fn sort_down_restores_after_swap_remove() {
    let mut heap: Vec<usize> = vec![0, 1, 2, 3, 4, 5];
    let index: usize = 0;
    // remove the element located at index
    heap.swap_remove(index);
    Heap::<usize, false, 2>::sort_down(&mut heap, Ordering::Less, index);
    assert!(heap[0] == 1);
}

#[test]
fn sort_up_restores_after_push() {
    let mut heap: Vec<usize> = vec![0, 2, 4, 6, 8, 10];
    let index: usize = heap.len();
    heap.push(5);
    Heap::<usize, false, 2>::sort_up(&mut heap, Ordering::Less, index);
    assert!(heap[0] == 0);
    assert_eq!(heap, vec![0, 2, 4, 6, 8, 10, 5]);
}

#[test]
fn heap_sort_orders_arbitrary_input() {
    let mut heap: Vec<usize> = vec![8, 66, 9, 55, 7, 0, 14, 6, 37, 2];
    Heap::<usize, false, 2>::heap_sort(&mut heap, Ordering::Less);
    assert!(heap[0] == 0);
    for i in 1..heap.len() {
        assert!(heap[(i - 1) / 2] <= heap[i]);
    }
}

#[test]
fn heapify_is_idempotent() {
    // Restoring an already-valid heap leaves it positionally unchanged
    // and still valid.
    let mut heap: Vec<usize> = vec![8, 66, 9, 55, 7, 0, 14, 6, 37, 2];
    Heap::<usize, false, 2>::heap_sort(&mut heap, Ordering::Less);
    let before: Vec<usize> = heap.clone();
    Heap::<usize, false, 2>::heap_sort(&mut heap, Ordering::Less);
    assert_eq!(heap, before);
    for i in 1..heap.len() {
        assert!(heap[(i - 1) / 2] <= heap[i]);
    }
}
