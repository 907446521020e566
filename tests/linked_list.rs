use algorithms::linked_list::LinkedList;

#[test]
fn push_and_pop_at_both_ends() {
    let mut list = LinkedList::new();
    assert_eq!(list.pop_front(), None);
    assert_eq!(list.pop_back(), None);
    list.push_back(2);
    list.push_front(1);
    list.push_back(3);
    assert_eq!(list.len(), 3);
    assert_eq!(list.pop_front(), Some(1));
    assert_eq!(list.pop_back(), Some(3));
    assert_eq!(list.pop_back(), Some(2));
    assert_eq!(list.pop_front(), None);
    assert_eq!(list.len(), 0);
}
