use algorithms::chain_hash_map::ChainHashMap;

#[test]
fn crud_chain_hashmap() {
    let mut map: ChainHashMap<&str> = ChainHashMap::new();

    assert_eq!(map.insert(15, "Mike"), None);
    assert_eq!(map.remove(&15), Some("Mike"));
    assert_eq!(map.contains_key(&15), false);
}

#[test]
fn chain_hashmap_overwrite_and_many_keys() {
    let mut map: ChainHashMap<u64> = ChainHashMap::new();
    for k in 0u64..500 {
        assert_eq!(map.insert(k * 7, k), None);
    }
    assert_eq!(map.insert(14, 99), Some(2));
    assert_eq!(map.get(&14), Some(&99));
    assert_eq!(map.get(&15), None);
    for k in 0u64..500 {
        assert!(map.contains_key(&(k * 7)));
    }
    assert_eq!(map.remove(&21), Some(3));
    assert_eq!(map.remove(&21), None);
    assert!(!map.contains_key(&21));
}

#[test]
fn chain_hashmap_buckets_are_in_range() {
    for k in [0u64, 1, 96, 97, 1 << 40, u64::MAX] {
        assert!(ChainHashMap::<u8>::hash(k) < 97);
        assert_eq!(ChainHashMap::<u8>::hash(k), ChainHashMap::<u8>::hash(k));
    }
}
