use minmaxheap::{
    drain_max, drain_min,
    is_on_max_level, is_on_min_level, left_child, log2, parent, right_child, MinMaxHeap,
    Operation,
};

#[test]
fn push_zero_to_seven_then_pop_both_ends() {
    let mut heap: MinMaxHeap<i32> = MinMaxHeap::new();
    for val in 0..8 {
        heap.push(val);
    }
    assert_eq!(heap.peek_min(), Some(0));
    assert_eq!(heap.peek_max(), Some(7));
    assert_eq!(heap.pop_max(), Some(7));
    assert_eq!(heap.peek_max(), Some(6));
    assert_eq!(heap.pop_min(), Some(0));
    assert_eq!(heap.peek_min(), Some(1));
    assert_eq!(heap.len(), 6);
}

#[test]
fn single_element_pop_min() {
    let mut heap = MinMaxHeap::from(&vec![42i64]);
    assert_eq!(heap.peek_min(), Some(42));
    assert_eq!(heap.peek_max(), Some(42));
    assert_eq!(heap.pop_min(), Some(42));
    assert!(heap.is_empty());
}

#[test]
fn single_element_pop_max() {
    let mut heap = MinMaxHeap::from(&vec![42i64]);
    assert_eq!(heap.pop_max(), Some(42));
    assert!(heap.is_empty());
    assert_eq!(heap.len(), 0);
}

#[test]
fn two_elements_either_order() {
    let heap = MinMaxHeap::from(&vec![3i64, 9]);
    assert_eq!(heap.peek_min(), Some(3));
    assert_eq!(heap.peek_max(), Some(9));
    let heap = MinMaxHeap::from(&vec![9i64, 3]);
    assert_eq!(heap.peek_min(), Some(3));
    assert_eq!(heap.peek_max(), Some(9));
}

#[test]
fn empty_heap_gives_none() {
    let mut heap: MinMaxHeap<u64> = MinMaxHeap::with_capacity(16);
    assert!(heap.is_empty());
    assert!(heap.empty());
    assert_eq!(heap.size(), 0);
    assert_eq!(heap.peek_min(), None);
    assert_eq!(heap.peek_max(), None);
    assert_eq!(heap.pop_min(), None);
    assert_eq!(heap.pop_max(), None);
    assert_eq!(heap.len(), 0);
}

#[test]
fn clear_resets_everything() {
    let mut heap = MinMaxHeap::from(&vec![5i64, 1, 8, 3, 9, 2]);
    heap.clear();
    assert!(heap.is_empty());
    assert_eq!(heap.len(), 0);
    assert_eq!(heap.peek_min(), None);
    assert_eq!(heap.peek_max(), None);
    assert_eq!(heap.pop_min(), None);
    assert_eq!(heap.pop_max(), None);
    heap.push(4);
    assert_eq!(heap.peek_min(), Some(4));
    assert_eq!(heap.peek_max(), Some(4));
}

#[test]
fn erase_empties_the_heap() {
    let mut heap = MinMaxHeap::from(&vec![7u32, 7, 1]);
    heap.erase();
    assert!(heap.empty());
    assert_eq!(heap.pop_max(), None);
}

#[test]
fn drain_by_pop_min_is_sorted() {
    let v: Vec<i64> = vec![13, -4, 7, 7, 0, 99, -50, 21, 3, 3, 8, 1, -4, 64, 2];
    let mut heap = MinMaxHeap::from(&v);
    let mut out = Vec::new();
    while let Some(x) = heap.pop_min() {
        out.push(x);
    }
    let mut expected = v.clone();
    expected.sort();
    assert_eq!(out, expected);
}

#[test]
fn drain_by_pop_max_is_sorted_descending() {
    let v: Vec<i64> = vec![13, -4, 7, 7, 0, 99, -50, 21, 3, 3, 8, 1, -4, 64, 2];
    let mut heap = MinMaxHeap::from(&v);
    let mut out = Vec::new();
    while let Some(x) = heap.pop_max() {
        out.push(x);
    }
    let mut expected = v.clone();
    expected.sort();
    expected.reverse();
    assert_eq!(out, expected);
}

#[test]
fn pop_bounds_what_remains() {
    let v: Vec<i64> = vec![10, 4, 15, 20, 0, 7, 12, 3, 18, 9];
    let mut heap = MinMaxHeap::from(&v);
    let lo = heap.pop_min().unwrap();
    assert_eq!(lo, 0);
    let hi = heap.pop_max().unwrap();
    assert_eq!(hi, 20);
    while let Some(x) = heap.pop_min() {
        assert!(lo <= x && x <= hi);
    }
}

#[test]
fn size_counts_pushes_and_successful_pops() {
    let mut heap: MinMaxHeap<i64> = MinMaxHeap::new();
    assert_eq!(heap.pop_min(), None);
    heap.push(1);
    heap.push(1);
    heap.push(2);
    assert_eq!(heap.len(), 3);
    let _ = heap.pop_max();
    assert_eq!(heap.len(), 2);
    let _ = heap.pop_min();
    let _ = heap.pop_min();
    let _ = heap.pop_min();
    assert_eq!(heap.len(), 0);
}

#[test]
fn duplicates_are_all_kept() {
    let heap = MinMaxHeap::from(&vec![5i64, 5, 5, 5, 5]);
    assert_eq!(heap.len(), 5);
    assert_eq!(heap.peek_min(), Some(5));
    assert_eq!(heap.peek_max(), Some(5));
}

#[test]
fn deep_heap_keeps_both_ends() {
    let mut heap: MinMaxHeap<i64> = MinMaxHeap::new();
    let mut x: i64 = 17;
    let mut all = Vec::new();
    for _ in 0..300 {
        x = (x * 1103 + 12345) % 10007;
        heap.push(x);
        all.push(x);
    }
    all.sort();
    for k in 0..100 {
        assert_eq!(heap.pop_min(), Some(all[k]));
        assert_eq!(heap.pop_max(), Some(all[all.len() - 1 - k]));
    }
    assert_eq!(heap.len(), 100);
}

#[test]
fn navigation_values() {
    assert_eq!(parent(1), 0);
    assert_eq!(parent(2), 0);
    assert_eq!(parent(6), 2);
    assert_eq!(left_child(0), 1);
    assert_eq!(left_child(3), 7);
    assert_eq!(right_child(0), 2);
    assert_eq!(right_child(3), 8);
}

#[test]
fn log2_counts_binary_digits() {
    assert_eq!(log2(0), None);
    assert_eq!(log2(1), Some(1));
    assert_eq!(log2(2), Some(2));
    assert_eq!(log2(7), Some(3));
    assert_eq!(log2(8), Some(4));
    assert_eq!(log2(usize::MAX), Some(usize::BITS as usize));
}

#[test]
fn level_parity() {
    assert!(is_on_min_level(0));
    assert!(!is_on_min_level(1));
    assert!(!is_on_min_level(2));
    assert!(is_on_min_level(3));
    assert!(is_on_min_level(6));
    assert!(is_on_max_level(7));
    assert!(is_on_max_level(14));
    assert!(is_on_min_level(15));
}

#[test]
fn operation_numbers() {
    assert_eq!(Operation::from(0), Some(Operation::Insert));
    assert_eq!(Operation::from(1), Some(Operation::Insert2));
    assert_eq!(Operation::from(2), Some(Operation::PeekMin));
    assert_eq!(Operation::from(3), Some(Operation::PeekMax));
    assert_eq!(Operation::from(4), Some(Operation::PopMin));
    assert_eq!(Operation::from(5), Some(Operation::PopMax));
    assert_eq!(Operation::from(6), None);
    assert_eq!(Operation::from(-1), None);
}

#[test]
fn small_integer_types() {
    let heap = MinMaxHeap::from(&vec![-3i8, 100, -128, 127, 0]);
    assert_eq!(heap.peek_min(), Some(-128));
    assert_eq!(heap.peek_max(), Some(127));
    let mut heap = MinMaxHeap::from(&vec![40000u16, 2, 65535, 9]);
    assert_eq!(heap.pop_max(), Some(65535));
    assert_eq!(heap.pop_max(), Some(40000));
    assert_eq!(heap.pop_min(), Some(2));
}

#[test]
fn drain_min_returns_sorted_elements() {
    let mut heap = MinMaxHeap::from(&vec![6i64, -2, 9, 6, 0, 3]);
    assert_eq!(drain_min(&mut heap), vec![-2, 0, 3, 6, 6, 9]);
    assert!(heap.is_empty());
}

#[test]
fn drain_max_returns_descending_elements() {
    let mut heap = MinMaxHeap::from(&vec![6i64, -2, 9, 6, 0, 3]);
    assert_eq!(drain_max(&mut heap), vec![9, 6, 6, 3, 0, -2]);
    assert_eq!(heap.len(), 0);
}

#[test]
fn pop_returns_what_peek_showed() {
    let mut heap = MinMaxHeap::from(&vec![4u64, 8, 8, 1, 1, 5]);
    let lo = heap.peek_min();
    assert_eq!(heap.pop_min(), lo);
    let hi = heap.peek_max();
    assert_eq!(heap.pop_max(), hi);
    assert_eq!(lo, Some(1));
    assert_eq!(hi, Some(8));
}

#[test]
fn wide_char_and_bool_elements() {
    let heap = MinMaxHeap::from(&vec![i128::MIN, 0, i128::MAX]);
    assert_eq!(heap.peek_min(), Some(i128::MIN));
    assert_eq!(heap.peek_max(), Some(i128::MAX));
    let heap = MinMaxHeap::from(&vec![u128::MAX, 7]);
    assert_eq!(heap.peek_min(), Some(7));
    let heap = MinMaxHeap::from(&vec!['q', 'a', 'z', 'm']);
    assert_eq!(heap.peek_min(), Some('a'));
    assert_eq!(heap.peek_max(), Some('z'));
    let mut heap = MinMaxHeap::from(&vec![true, false, true]);
    assert_eq!(heap.pop_min(), Some(false));
    assert_eq!(heap.pop_max(), Some(true));
}
