use algorithms::union_find::UF;

#[test]
fn union_find_connects_classes() {
    let mut uf = UF::from_ids(&[0, 1, 2, 3, 4, 5]);
    assert!(!uf.connected(0, 1));
    assert_eq!(uf.find(3), 3);
    uf.union(0, 1);
    uf.union(2, 3);
    assert!(uf.connected(0, 1));
    assert!(!uf.connected(1, 2));
    uf.union(1, 3);
    assert!(uf.connected(0, 2));
    assert!(uf.connected(3, 0));
    assert!(!uf.connected(4, 5));
    assert_eq!(uf.find(0), uf.find(3));
    uf.union(3, 0);
    assert!(!uf.connected(0, 4));
}
