use algorithms::permutation::next_permutation;

#[test]
fn permute_123() {
    let mut arr = [1, 2, 3];

    assert_eq!(next_permutation(&mut arr), Some([1, 3, 2].as_slice()));
    assert_eq!(next_permutation(&mut arr), Some([2, 1, 3].as_slice()));
    assert_eq!(next_permutation(&mut arr), Some([2, 3, 1].as_slice()));
    assert_eq!(next_permutation(&mut arr), Some([3, 1, 2].as_slice()));
    assert_eq!(next_permutation(&mut arr), Some([3, 2, 1].as_slice()));
}

#[test]
fn permutation_empty() {
    let mut arr: [i32; 0] = [];

    assert_eq!(next_permutation(&mut arr), None);
}

#[test]
fn single() {
    let mut arr = [1];

    assert_eq!(next_permutation(&mut arr), None);
}

#[test]
fn last_permutation_is_left_alone() {
    let mut arr = [3u32, 2, 1];
    assert_eq!(next_permutation(&mut arr), None);
    assert_eq!(arr, [3, 2, 1]);
    let mut chars = ['a', 'c', 'b', 'd'];
    assert_eq!(next_permutation(&mut chars), Some(['a', 'c', 'd', 'b'].as_slice()));
}
