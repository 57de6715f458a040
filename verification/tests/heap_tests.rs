use felicity::heap::{is_heap, Heap, HeapOrder, MaxHeap, MaxOrder, MinHeap, MinOrder};

/// Deterministic Fisher-Yates shuffle driven by a fixed linear congruential
/// generator, so the test is repeatable.
fn shuffle_vec(mut vec: Vec<u64>) -> Vec<u64> {
    let mut state: u64 = 0x9E3779B97F4A7C15;
    let n = vec.len();
    for i in (1..n).rev() {
        state = state
            .wrapping_mul(6364136223846793005)
            .wrapping_add(1442695040888963407);
        let j = (state >> 33) as usize % (i + 1);
        vec.swap(i, j);
    }
    vec
}

fn check_heap<T, Order: HeapOrder<T>>(heap: &Heap<T, Order>) -> bool {
    is_heap(heap.values(), heap.order())
}

#[test]
fn test_is_heap() {
    assert!(is_heap(&[4u64, 3, 1, 2], &MaxOrder));
    assert!(is_heap(&[4u64, 3, 2, 1], &MaxOrder));
    assert!(is_heap(&[4u64, 2, 3, 1], &MaxOrder));
    assert!(!is_heap(&[4u64, 2, 3, 7], &MaxOrder));
}

#[test]
fn test_initialize() {
    let test_set: Vec<u64> = shuffle_vec((0..1000).collect());
    let test_order = MaxOrder;

    for i in 1..test_set.len() {
        let heap = Heap::from_vec_and_cmp(test_set[0..i].to_vec(), test_order.clone());
        assert!(check_heap(&heap));
    }
}

#[test]
fn insert_then_extract_ascending() {
    let mut heap: MinHeap<u64> = MinHeap::new();
    for value in [5u64, 3, 8, 1] {
        heap.insert(value);
        assert!(check_heap(&heap));
    }
    assert_eq!(heap.len(), 4);
    let mut drained = Vec::new();
    while heap.len() > 0 {
        drained.push(heap.remove(0));
        assert!(check_heap(&heap));
    }
    assert_eq!(drained, vec![1, 3, 5, 8]);
    assert_eq!(heap.len(), 0);
}

#[test]
fn bulk_build_ascending() {
    let mut heap: MinHeap<u64> = Heap::min(vec![4, 3, 1, 2]);
    assert!(is_heap(heap.values(), heap.order()));
    assert_eq!(heap.remove(0), 1);
    assert!(check_heap(&heap));
}

#[test]
fn checked_rejects_non_heap() {
    let heap: Option<MaxHeap<u64>> = Heap::try_from_max_heap(vec![4, 2, 3, 7]);
    assert!(heap.is_none());
}

#[test]
fn checked_accepts_heap() {
    let heap: Option<MaxHeap<u64>> = Heap::try_from_max_heap(vec![4, 3, 1, 2]);
    let heap = heap.expect("a valid heap must be accepted");
    assert_eq!(heap.values(), &[4, 3, 1, 2]);
}

#[test]
fn remove_and_reinsert_equal_rank() {
    // Removing an interior index and reinserting the removed value restores
    // the array exactly: the sift-down after the removal makes no swap here,
    // and the sift-up after reinsertion retraces the removal.
    let mut heap: MinHeap<u64> = Heap::min(vec![1, 2, 5, 4, 3]);
    assert_eq!(heap.values(), &[1, 2, 5, 4, 3]);
    let removed = heap.remove(1);
    assert_eq!(removed, 2);
    assert_eq!(heap.len(), 4);
    assert!(check_heap(&heap));
    heap.insert(removed);
    assert_eq!(heap.values(), &[1, 2, 5, 4, 3]);
}

#[test]
fn removing_last_element_only_pops() {
    let mut heap: MinHeap<u64> = Heap::min(vec![1, 2, 3, 4, 5]);
    assert_eq!(heap.remove(4), 5);
    assert_eq!(heap.values(), &[1, 2, 3, 4]);
}

#[test]
fn equal_rank_replacement_needs_no_repair() {
    // The last element has the same rank as the removed one: it drops into
    // the hole and nothing else moves.
    let mut heap: MinHeap<u64> = Heap::unsafe_from_min_heap(vec![1, 5, 3, 5]);
    assert_eq!(heap.remove(1), 5);
    assert_eq!(heap.values(), &[1, 5, 3]);
}

#[test]
fn insert_without_domination_only_appends() {
    // A value that does not dominate its parent-to-be lands at the end and
    // triggers no swap.
    let mut heap: MinHeap<u64> = Heap::min(vec![1, 2, 3]);
    heap.insert(9);
    assert_eq!(heap.values(), &[1, 2, 3, 9]);
    // equal rank counts as "does not dominate": still no swap
    heap.insert(2);
    assert_eq!(heap.values(), &[1, 2, 3, 9, 2]);
}

#[test]
fn removal_returns_value_at_index() {
    let mut heap: MinHeap<u64> = Heap::min(vec![10, 20, 30, 40, 50]);
    let before: Vec<u64> = heap.values().to_vec();
    let old_len = heap.len();
    let removed = heap.remove(2);
    assert_eq!(removed, before[2]);
    assert_eq!(heap.len(), old_len - 1);
    assert!(check_heap(&heap));
}

#[test]
fn bulk_build_preserves_multiset() {
    let input: Vec<u64> = vec![9, 1, 8, 2, 7, 3, 7];
    let heap: MinHeap<u64> = Heap::min(input.clone());
    assert_eq!(heap.len(), input.len());
    let mut out = heap.to_values();
    out.sort();
    let mut expected = input;
    expected.sort();
    assert_eq!(out, expected);
}

#[test]
fn bulk_heapify_is_idempotent() {
    let valid: Vec<u64> = vec![1, 2, 3, 4, 5, 6, 7];
    assert!(is_heap(&valid, &MinOrder));
    let heap: MinHeap<u64> = Heap::min(valid.clone());
    assert_eq!(heap.values(), valid.as_slice());
    assert!(check_heap(&heap));
}

#[test]
fn trusted_construction_keeps_array() {
    let heap: MinHeap<u64> = Heap::unsafe_from_min_heap(vec![1, 3, 2]);
    assert_eq!(heap.values(), &[1, 3, 2]);
    let heap2: MaxHeap<u64> = Heap::unsafe_from_max_heap(vec![9, 4, 7]);
    assert_eq!(heap2.values(), &[9, 4, 7]);
}

#[test]
fn generic_order_construction() {
    let heap = Heap::from_vec_and_cmp(vec![3u64, 1, 2], MinOrder);
    assert!(check_heap(&heap));
    let empty = Heap::<u64, MaxOrder>::with_capacity_and_cmp(16, MaxOrder);
    assert_eq!(empty.len(), 0);
    let checked = Heap::try_from_heap_and_cmp(vec![1u64, 2, 3], MinOrder);
    assert!(checked.is_some());
}

#[test]
fn descending_extraction_is_non_increasing() {
    let mut heap: MaxHeap<i64> = Heap::max(vec![-4, 3, 1, -2, 0, 3]);
    assert!(check_heap(&heap));
    let mut drained = Vec::new();
    while heap.len() > 0 {
        drained.push(heap.remove(0));
        assert!(check_heap(&heap));
    }
    assert_eq!(drained, vec![3, 3, 1, 0, -2, -4]);
}

#[test]
fn empty_heaps() {
    let fresh: MinHeap<u64> = MinHeap::new();
    assert_eq!(fresh.len(), 0);
    let sized: MaxHeap<u64> = MaxHeap::with_capacity(100);
    assert_eq!(sized.len(), 0);
    let defaulted: MinHeap<u64> = Default::default();
    assert_eq!(defaulted.len(), 0);
    let built: MinHeap<u64> = Heap::min(Vec::new());
    assert_eq!(built.to_values(), Vec::<u64>::new());
}

#[test]
fn single_element_heap() {
    let mut heap: MinHeap<u64> = MinHeap::new();
    heap.insert(42);
    assert_eq!(heap.len(), 1);
    assert_eq!(heap.values(), &[42]);
    assert_eq!(heap.remove(0), 42);
    assert_eq!(heap.len(), 0);
}

#[test]
fn duplicate_ranks_stay_valid() {
    let mut heap: MinHeap<u64> = MinHeap::new();
    for value in [5u64, 5, 5, 1, 1, 9] {
        heap.insert(value);
        assert!(check_heap(&heap));
    }
    let mut drained = Vec::new();
    while heap.len() > 0 {
        drained.push(heap.remove(0));
        assert!(check_heap(&heap));
    }
    assert_eq!(drained, vec![1, 1, 5, 5, 5, 9]);
}

#[test]
fn tree_format_groups_rows_by_depth() {
    let heap: MinHeap<u64> = Heap::unsafe_from_min_heap(vec![1, 2, 3, 4, 5, 6, 7]);
    let rendered = heap.tree_format();
    assert_eq!(rendered.rows, vec![vec![1], vec![2, 3], vec![4, 5, 6, 7]]);

    let partial: MinHeap<u64> = Heap::unsafe_from_min_heap(vec![1, 2, 3, 4, 5]);
    assert_eq!(partial.tree_format().rows, vec![vec![1], vec![2, 3], vec![4, 5]]);

    let empty: MinHeap<u64> = MinHeap::new();
    assert_eq!(empty.tree_format().rows, Vec::<Vec<u64>>::new());
}

#[test]
fn order_accessor_still_decides() {
    let heap: MinHeap<u64> = MinHeap::new();
    assert!(heap.order().left_can_go_above(&1u64, &2u64));
    assert!(!heap.order().left_can_go_above(&2u64, &1u64));
    assert!(!heap.order().left_can_go_above(&2u64, &2u64));
}
