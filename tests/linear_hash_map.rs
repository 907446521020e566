use algorithms::linear_hash_map::LinearHashMap;

#[test]
fn crud_linear_hashmap() {
    let mut map: LinearHashMap<&str> = LinearHashMap::new();
    assert_eq!(map.insert(15, "Mike"), None);
    assert_eq!(map.remove(&15), Some("Mike"));
    assert_eq!(map.contains_key(&15), false);
}

#[test]
fn linear_hashmap_grows_and_shrinks() {
    let mut map: LinearHashMap<u32> = LinearHashMap::new();
    for k in 0u32..300 {
        assert_eq!(map.insert(k * 3, k), None);
    }
    assert_eq!(map.len(), 300);
    assert_eq!(map.insert(30, 7), Some(10));
    assert_eq!(map.len(), 300);
    for k in 0u32..300 {
        assert!(map.contains_key(&(k * 3)));
        assert!(!map.contains_key(&(k * 3 + 1)));
    }
    for k in 0u32..290 {
        assert_eq!(map.remove(&(k * 3)), Some(if k == 10 { 7 } else { k }));
    }
    assert_eq!(map.remove(&0), None);
    assert_eq!(map.len(), 10);
    for k in 290u32..300 {
        assert!(map.contains_key(&(k * 3)));
    }
}
