use algorithms::sort::{binary_search, bubble, heap, insertion, selection, MergeSort, Order};

#[test]
fn bubble_empty() {
    let mut arr: [i32; 0] = [];
    bubble(&mut arr);
    assert_eq!(arr, []);
}

#[test]
fn bubble_one_element() {
    let mut arr: [i32; 1] = [7];
    bubble(&mut arr);
    assert_eq!(arr, [7]);
}

#[test]
fn bubble_already_sorted() {
    let mut arr: [char; 3] = ['a', 'b', 'c'];
    bubble(&mut arr);
    assert_eq!(arr, ['a', 'b', 'c']);
}

#[test]
fn bubble_basic() {
    let mut arr: [char; 4] = ['d', 'a', 'c', 'b'];
    bubble(&mut arr);
    assert_eq!(arr, ['a', 'b', 'c', 'd']);
}

#[test]
fn bubble_repeated_elements() {
    let mut arr: [i32; 4] = [542, 542, 542, 542];
    bubble(&mut arr);
    assert_eq!(arr, [542, 542, 542, 542]);
}

#[test]
fn insertion_empty() {
    let mut arr: [i32; 0] = [];
    insertion(&mut arr);
    assert_eq!(arr, []);
}

#[test]
fn insertion_one_element() {
    let mut arr: [i32; 1] = [7];
    insertion(&mut arr);
    assert_eq!(arr, [7]);
}

#[test]
fn insertion_already_sorted() {
    let mut arr: [char; 3] = ['a', 'b', 'c'];
    insertion(&mut arr);
    assert_eq!(arr, ['a', 'b', 'c']);
}

#[test]
fn insertion_basic() {
    let mut arr = [2, 5, 9, 8, 7, 4, 3, 10, 16, 13];
    insertion(&mut arr);
    assert_eq!(arr, [2, 3, 4, 5, 7, 8, 9, 10, 13, 16]);
}

#[test]
fn insertion_repeated_elements() {
    let mut arr: [i32; 4] = [542, 542, 542, 542];
    insertion(&mut arr);
    assert_eq!(arr, [542, 542, 542, 542]);
}

#[test]
fn selection_empty() {
    let mut arr: [i32; 0] = [];
    selection(&mut arr);
    assert_eq!(arr, []);
}

#[test]
fn selection_one_element() {
    let mut arr: [i32; 1] = [7];
    selection(&mut arr);
    assert_eq!(arr, [7]);
}

#[test]
fn selection_already_sorted() {
    let mut arr: [char; 3] = ['a', 'b', 'c'];
    selection(&mut arr);
    assert_eq!(arr, ['a', 'b', 'c']);
}

#[test]
fn selection_basic() {
    let mut arr: [char; 4] = ['d', 'a', 'c', 'b'];
    selection(&mut arr);
    assert_eq!(arr, ['a', 'b', 'c', 'd']);
}

#[test]
fn selection_repeated_elements() {
    let mut arr: [i32; 4] = [542, 542, 542, 542];
    selection(&mut arr);
    assert_eq!(arr, [542, 542, 542, 542]);
}

#[test]
fn heap_empty() {
    let mut nothing: [u32; 1] = [0];
    heap(&mut nothing);
}

#[test]
fn heap_basic() {
    let mut arr: [u32; 11] = [0, 2, 5, 9, 8, 7, 4, 3, 10, 16, 13];
    heap(&mut arr);
    assert_eq!(arr, [0, 2, 3, 4, 5, 7, 8, 9, 10, 13, 16]);
}

#[test]
fn heap_keeps_sentinel_in_place() {
    let mut arr: [i32; 6] = [99, 4, -1, 7, 0, 3];
    heap(&mut arr);
    assert_eq!(arr, [99, -1, 0, 3, 4, 7]);
}

#[test]
fn test_bt() {
    let mut arr = [7, 5, 9, 8, 2, 4, 3, 10, 16, 13, 17, 14, 6u32];
    MergeSort::new(&mut arr).run(Order::BT);
    assert_eq!(arr, [2, 3, 4, 5, 6, 7, 8, 9, 10, 13, 14, 16, 17]);
}

#[test]
fn test_empty() {
    let mut arr: [u32; 0] = [];
    MergeSort::new(&mut arr).run(Order::BT);
}

#[test]
fn test_tb() {
    let mut arr = [7, 5, 9, 8, 2, 4, 3, 10, 16, 13, 17, 14, 6u32];
    MergeSort::new(&mut arr).run(Order::TB);
    assert_eq!(arr, [2, 3, 4, 5, 6, 7, 8, 9, 10, 13, 14, 16, 17]);
}

#[test]
fn merge_sort_handles_duplicates_and_odd_lengths() {
    let mut a = [5i64, -3, 5, 0, -3, 9, 1];
    MergeSort::new(&mut a).run(Order::BT);
    assert_eq!(a, [-3, -3, 0, 1, 5, 5, 9]);
    let mut b = [5i64, -3, 5, 0, -3, 9, 1];
    MergeSort::new(&mut b).run(Order::TB);
    assert_eq!(b, [-3, -3, 0, 1, 5, 5, 9]);
    let mut c: [u64; 1] = [4];
    MergeSort::new(&mut c).run(Order::TB);
    assert_eq!(c, [4]);
}

#[test]
fn binary_search_basic() {
    let mut arr: [i32; 5] = [85, 63, 24, 56, 45];
    arr.sort();
    let index: usize = binary_search(&arr, 24).unwrap();
    assert_eq!(index, 0);
}

#[test]
fn binary_search_finds_first_of_equals_and_misses() {
    let arr: [u32; 7] = [1, 3, 3, 3, 8, 9, 12];
    assert_eq!(binary_search(&arr, 3), Some(1));
    assert_eq!(binary_search(&arr, 12), Some(6));
    assert_eq!(binary_search(&arr, 4), None);
    assert_eq!(binary_search(&arr, 13), None);
    let empty: [u32; 0] = [];
    assert_eq!(binary_search(&empty, 1), None);
}
