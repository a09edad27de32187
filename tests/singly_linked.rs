use linked_lists::singly_linked::LinkedList;

#[test]
fn singly_linked_it_works() {
    let mut ll = LinkedList::<i32>::new();
    ll.push(1);
    ll.push(2);
    ll.push(3);
    assert_eq!(ll.len(), 3);
    assert_eq!(ll.pop(), Some(3));
    assert_eq!(ll.pop(), Some(2));
    assert_eq!(ll.pop(), Some(1));
    assert_eq!(ll.pop(), None);
}

#[test]
fn iterator_works() {
    let mut ll = LinkedList::<i32>::new();
    ll.push(1);
    ll.push(2);
    ll.push(3);
    let mut n = ll.len() as i32;
    let mut iter = ll;
    while let Some(i) = iter.next() {
        assert_eq!(i, n);
        n -= 1;
    }
    assert_eq!(n, 0);
}

#[test]
fn stack_pop_on_empty_keeps_length() {
    let mut ll = LinkedList::<u8>::new();
    assert_eq!(ll.len(), 0);
    assert_eq!(ll.pop(), None);
    assert_eq!(ll.len(), 0);
    ll.push(9);
    assert_eq!(ll.len(), 1);
    assert_eq!(ll.next(), Some(9));
    assert_eq!(ll.len(), 0);
}
