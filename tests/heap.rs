use data_structures::heap::{Heap, NaturalOrder};

fn drain<C: data_structures::heap::Comparator<i32>>(heap: &mut Heap<i32, C>) -> Vec<i32> {
    let mut out = Vec::new();
    while let Some(x) = heap.pop() {
        out.push(x);
    }
    out
}

#[test]
fn test_empty_heap() {
    let mut heap: Heap<i32> = Heap::new_max();
    assert_eq!(heap.pop(), None);
}

#[test]
fn test_min_heap() {
    let mut heap = Heap::new_min();
    heap.add(4);
    heap.add(2);
    heap.add(9);
    heap.add(11);
    assert_eq!(heap.len(), 4);
    assert_eq!(heap.pop(), Some(2));
    assert_eq!(heap.pop(), Some(4));
    assert_eq!(heap.pop(), Some(9));
    heap.add(1);
    assert_eq!(heap.pop(), Some(1));
    assert_eq!(heap.pop(), Some(11));
    assert_eq!(heap.pop(), None);
}

#[test]
fn test_max_heap() {
    let mut heap = Heap::new_max();
    heap.add(4);
    heap.add(2);
    heap.add(9);
    heap.add(11);
    assert_eq!(heap.len(), 4);
    assert_eq!(heap.pop(), Some(11));
    assert_eq!(heap.pop(), Some(9));
    assert_eq!(heap.pop(), Some(4));
    heap.add(1);
    assert_eq!(heap.pop(), Some(2));
    assert_eq!(heap.pop(), Some(1));
    assert_eq!(heap.pop(), None);
}

#[test]
fn test_iter_heap() {
    let mut heap = Heap::new_min();
    heap.add(4);
    heap.add(2);
    heap.add(9);
    heap.add(11);

    let mut iter = heap.iter();
    assert_eq!(iter.next(), Some(&2));
    assert_eq!(iter.next(), Some(&4));
    assert_eq!(iter.next(), Some(&9));
    assert_eq!(iter.next(), Some(&11));
    assert_eq!(iter.next(), None);

    assert_eq!(heap.len(), 4);
    assert_eq!(heap.pop(), Some(2));
    assert_eq!(heap.pop(), Some(4));
    assert_eq!(heap.pop(), Some(9));
    assert_eq!(heap.pop(), Some(11));
    assert_eq!(heap.pop(), None);
}

#[test]
fn test_from_vec_min() {
    let vec = vec![3, 1, 4, 1, 5, 9, 2, 6, 5];
    let mut heap = Heap::from_vec_min(vec);
    assert_eq!(heap.len(), 9);
    assert_eq!(heap.pop(), Some(1));
    assert_eq!(heap.pop(), Some(1));
    assert_eq!(heap.pop(), Some(2));
    heap.add(0);
    assert_eq!(heap.pop(), Some(0));
}

#[test]
fn test_from_vec_max() {
    let vec = vec![3, 1, 4, 1, 5, 9, 2, 6, 5];
    let mut heap = Heap::from_vec_max(vec);
    assert_eq!(heap.len(), 9);
    assert_eq!(heap.pop(), Some(9));
    assert_eq!(heap.pop(), Some(6));
    assert_eq!(heap.pop(), Some(5));
    heap.add(10);
    assert_eq!(heap.pop(), Some(10));
}

#[test]
fn heap_property_holds_in_backing_array() {
    let mut heap = Heap::from_vec_min(vec![8, 3, 7, 1, 9, 2, 2, 6, 0, 5]);
    heap.add(4);
    heap.pop();
    heap.add(-3);
    let items: Vec<i32> = heap.iter().copied().collect();
    for i in 1..items.len() {
        assert!(items[i] >= items[(i - 1) / 2]);
    }
}

#[test]
fn from_vec_keeps_exact_array_order() {
    let heap = Heap::from_vec_min(vec![3, 1, 4, 1, 5, 9, 2, 6, 5]);
    let items: Vec<i32> = heap.iter().copied().collect();
    assert_eq!(items, vec![1, 1, 2, 3, 5, 9, 4, 6, 5]);
}

#[test]
fn max_heap_drains_in_non_increasing_order() {
    let mut heap = Heap::from_vec_max(vec![3, 1, 4, 1, 5, 9, 2, 6, 5]);
    assert_eq!(heap.len(), 9);
    assert_eq!(drain(&mut heap), vec![9, 6, 5, 5, 4, 3, 2, 1, 1]);
}

#[test]
fn max_heap_add_after_pops_comes_out_next() {
    let mut heap = Heap::from_vec_max(vec![3, 1, 4, 1, 5, 9, 2, 6, 5]);
    assert_eq!(heap.pop(), Some(9));
    assert_eq!(heap.pop(), Some(6));
    assert_eq!(heap.pop(), Some(5));
    heap.add(10);
    assert_eq!(heap.pop(), Some(10));
    assert_eq!(drain(&mut heap), vec![5, 4, 3, 2, 1, 1]);
}

#[test]
fn min_heap_drains_in_non_decreasing_order() {
    let mut heap = Heap::new_min();
    for x in [7, -2, 7, 0, 13, -2, 5] {
        heap.add(x);
    }
    assert_eq!(drain(&mut heap), vec![-2, -2, 0, 5, 7, 7, 13]);
}

#[test]
fn bulk_build_matches_item_by_item() {
    let input = vec![10, 4, 4, 8, -1, 0, 22, 3, 8];
    let mut bulk = Heap::from_vec_min(input.clone());
    let mut one_by_one = Heap::new_min();
    for x in input {
        one_by_one.add(x);
    }
    let a = drain(&mut bulk);
    let b = drain(&mut one_by_one);
    assert_eq!(a, b);
    assert_eq!(a, vec![-1, 0, 3, 4, 4, 8, 8, 10, 22]);
}

#[test]
fn lengths_change_by_one() {
    let mut heap = Heap::new_max();
    assert_eq!(heap.len(), 0);
    assert!(heap.is_empty());
    heap.add(5);
    assert_eq!(heap.len(), 1);
    heap.add(5);
    assert_eq!(heap.len(), 2);
    assert_eq!(heap.pop(), Some(5));
    assert_eq!(heap.len(), 1);
    assert!(!heap.is_empty());
    assert_eq!(heap.pop(), Some(5));
    assert_eq!(heap.len(), 0);
}

#[test]
fn pop_on_empty_repeatedly_stays_empty() {
    let mut heap: Heap<i32> = Heap::new_min();
    for _ in 0..5 {
        assert_eq!(heap.pop(), None);
        assert_eq!(heap.len(), 0);
    }
    heap.add(3);
    assert_eq!(heap.pop(), Some(3));
    assert_eq!(heap.pop(), None);
}

#[test]
fn from_vec_of_zero_and_one_items() {
    let mut empty: Heap<i32> = Heap::from_vec_max(Vec::new());
    assert_eq!(empty.len(), 0);
    assert_eq!(empty.pop(), None);
    let mut single = Heap::from_vec_min(vec![42]);
    assert_eq!(single.len(), 1);
    assert_eq!(single.pop(), Some(42));
    assert_eq!(single.pop(), None);
}

#[test]
fn explicit_comparator_constructors() {
    let mut heap = Heap::new(NaturalOrder::Descending);
    heap.add(1);
    heap.add(3);
    heap.add(2);
    assert_eq!(drain(&mut heap), vec![3, 2, 1]);
    let mut bulk = Heap::from_vec(vec![5, 2, 8, 2], NaturalOrder::Ascending);
    assert_eq!(drain(&mut bulk), vec![2, 2, 5, 8]);
}

#[test]
fn iter_is_restartable() {
    let heap = Heap::from_vec_max(vec![1, 2, 3]);
    let first: Vec<i32> = heap.iter().copied().collect();
    let second: Vec<i32> = heap.iter().copied().collect();
    assert_eq!(first, second);
    assert_eq!(first, vec![3, 2, 1]);
}

#[test]
fn from_vec_leaves_ordered_input_in_place() {
    let heap = Heap::from_vec_min(vec![1, 3, 2, 7, 4, 2]);
    let items: Vec<i32> = heap.iter().copied().collect();
    assert_eq!(items, vec![1, 3, 2, 7, 4, 2]);
}

#[test]
fn add_not_favored_over_parent_stays_appended() {
    let mut heap = Heap::new_min();
    heap.add(1);
    heap.add(3);
    heap.add(2);
    let items: Vec<i32> = heap.iter().copied().collect();
    assert_eq!(items, vec![1, 3, 2]);
}
