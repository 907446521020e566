use algorithms::binary_search_tree::BSTMap;

#[test]
fn insert_and_query() {
    let mut bst: BSTMap<&str> = BSTMap::new();
    bst.insert(1, "Mike");
    bst.insert(2, "Jason");
    bst.insert(3, "Mary");
    assert!(bst.contains_key(2));
}

#[test]
fn insert_and_get() {
    let mut bst: BSTMap<&str> = BSTMap::new();
    bst.insert(1, "Mike");
    bst.insert(2, "Jason");
    bst.insert(3, "Mary");
    assert_eq!(bst.get(4), None);
    assert_eq!(bst.get(1), Some(&"Mike"));
}

#[test]
fn in_traversal() {
    let mut bst: BSTMap<&str> = BSTMap::new();
    bst.insert(5, "Eson");
    bst.insert(4, "Frank");
    bst.insert(3, "Mary");
    bst.insert(7, "Klein");
    bst.insert(6, "Mike");
    bst.insert(8, "Jason");
    assert_eq!(
        bst.inorder().unwrap().collect_vec(),
        vec![&"Mary", &"Frank", &"Eson", &"Mike", &"Klein", &"Jason"]
    )
}

#[test]
fn from_preorder() {
    let bst = BSTMap::from_preorder(vec![(2, "Jason"), (1, "Mike"), (3, "Mary")]);
    assert_eq!(
        bst.preorder().unwrap().collect_vec(),
        vec![(2, &"Jason"), (1, &"Mike"), (3, &"Mary")]
    )
}

#[test]
fn bst_overwrite_and_empty() {
    let mut bst: BSTMap<u32> = BSTMap::new();
    assert!(bst.preorder().is_none());
    assert!(bst.inorder().is_none());
    assert!(!bst.contains_key(1));
    bst.insert(1, 10);
    bst.insert(1, 11);
    assert_eq!(bst.get(1), Some(&11));
    assert_eq!(bst.preorder().unwrap().collect_vec(), vec![(1, &11)]);
}
