use algorithms::red_black_tree::RBTreeMap;

fn u32_str_sample<'a>() -> RBTreeMap<&'a str> {
    let mut map = RBTreeMap::new();

    map.insert(0, "Marry");
    map.insert(1, "Mike");
    map.insert(2, "John");
    map.insert(3, "Peter");

    map
}

#[test]
fn test_insert() {
    let map = u32_str_sample();

    assert_eq!(
        map.preorder().unwrap().collect_vec(),
        vec![(1, &"Mike"), (0, &"Marry"), (3, &"Peter"), (2, &"John")]
    );
}

#[test]
fn test_pop_min() {
    let mut map = u32_str_sample();

    assert_eq!(map.pop_min(), Some("Marry"));
    assert_eq!(map.pop_min(), Some("Mike"));
    assert_eq!(map.pop_min(), Some("John"));
    assert_eq!(map.pop_min(), Some("Peter"));
    assert_eq!(map.pop_min(), None);
    assert_eq!(map.len(), 0);
}

#[test]
fn test_remove() {
    let mut map = u32_str_sample();

    assert_eq!(map.remove(&0), Some("Marry"));
    assert_eq!(map.remove(&1), Some("Mike"));
    assert_eq!(map.remove(&20), None);
    assert_eq!(map.remove(&2), Some("John"));
    assert_eq!(map.remove(&3), Some("Peter"));
    assert_eq!(map.len(), 0);
}

#[test]
fn test_get() {
    let map = u32_str_sample();

    assert_eq!(map.get(&0), Some(&"Marry"));
    assert_eq!(map.get(&1), Some(&"Mike"));
    assert_eq!(map.get(&20), None);
    assert_eq!(map.get(&2), Some(&"John"));
    assert_eq!(map.get(&3), Some(&"Peter"));
}

#[test]
fn test_inorder() {
    let map = u32_str_sample();

    assert_eq!(
        map.inorder().unwrap().collect_vec(),
        vec![(0, &"Marry"), (1, &"Mike"), (2, &"John"), (3, &"Peter")]
    );
}

#[test]
fn test_height() {
    let map = u32_str_sample();

    assert_eq!(map.height(), Some(2));
}

#[test]
fn empty_map_has_no_traversal_or_height() {
    let mut map: RBTreeMap<&str> = RBTreeMap::new();
    assert!(map.preorder().is_none());
    assert!(map.inorder().is_none());
    assert_eq!(map.height(), None);
    assert_eq!(map.pop_min(), None);
    assert_eq!(map.remove(&7), None);
    assert_eq!(map.len(), 0);
}

#[test]
fn insert_then_get_finds_value() {
    let mut map = RBTreeMap::new();
    for k in [50u32, 20, 80, 10, 30, 70, 90, 60] {
        assert_eq!(map.insert(k, k * 2), None);
        assert_eq!(map.get(&k), Some(&(k * 2)));
    }
    assert_eq!(map.len(), 8);
}

#[test]
fn reinsert_returns_old_value_and_keeps_len() {
    let mut map = u32_str_sample();
    assert_eq!(map.insert(2, "Jane"), Some("John"));
    assert_eq!(map.len(), 4);
    assert_eq!(map.get(&2), Some(&"Jane"));
}

#[test]
fn remove_absent_keeps_entries() {
    let mut map = u32_str_sample();
    let before: Vec<(u32, &str)> = map
        .inorder()
        .unwrap()
        .collect_vec()
        .into_iter()
        .map(|(k, v)| (k, *v))
        .collect();
    assert_eq!(map.remove(&42), None);
    assert_eq!(map.len(), 4);
    let after: Vec<(u32, &str)> = map
        .inorder()
        .unwrap()
        .collect_vec()
        .into_iter()
        .map(|(k, v)| (k, *v))
        .collect();
    assert_eq!(before, after);
}

#[test]
fn remove_absent_keeps_height_and_shape() {
    let mut map = RBTreeMap::new();
    for k in [0u32, 1, 2] {
        map.insert(k, k);
    }
    let height = map.height();
    let shape: Vec<(u32, u32)> = map
        .preorder()
        .unwrap()
        .collect_vec()
        .into_iter()
        .map(|(k, v)| (k, *v))
        .collect();
    assert_eq!(map.remove(&5), None);
    assert_eq!(map.height(), height);
    let after: Vec<(u32, u32)> = map
        .preorder()
        .unwrap()
        .collect_vec()
        .into_iter()
        .map(|(k, v)| (k, *v))
        .collect();
    assert_eq!(shape, after);
    assert_eq!(map.len(), 3);
}

#[test]
fn pop_min_drains_in_ascending_order() {
    let mut map = RBTreeMap::new();
    let keys = [13u32, 4, 27, 1, 8, 21, 30, 2, 5, 19];
    for k in keys {
        map.insert(k, k + 100);
    }
    let mut sorted = keys.to_vec();
    sorted.sort();
    for k in sorted {
        assert_eq!(map.pop_min(), Some(k + 100));
    }
    assert_eq!(map.pop_min(), None);
    assert_eq!(map.len(), 0);
}

#[test]
fn inorder_is_ascending_after_mixed_operations() {
    let mut map = RBTreeMap::new();
    for k in 0u32..40 {
        map.insert((k * 17) % 41, k);
    }
    for k in [3u32, 10, 0, 40, 22, 5] {
        map.remove(&k);
    }
    let keys: Vec<u32> = map.inorder().unwrap().collect_vec().into_iter().map(|(k, _)| k).collect();
    assert_eq!(keys.len(), map.len());
    for w in keys.windows(2) {
        assert!(w[0] < w[1]);
    }
}

#[test]
fn iterator_hands_out_entries_one_at_a_time() {
    let map = u32_str_sample();
    let mut it = map.inorder().unwrap();
    assert_eq!(it.next(), Some((0, &"Marry")));
    assert_eq!(it.next(), Some((1, &"Mike")));
    assert_eq!(it.collect_vec(), vec![(2, &"John"), (3, &"Peter")]);
}
