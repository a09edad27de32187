use linked_lists::doubly_linked::LinkedList;

fn drain(mut dl: LinkedList<i32>) -> Vec<i32> {
    let mut out = Vec::new();
    while let Some(e) = dl.next() {
        out.push(e);
    }
    out
}

#[test]
fn back_works() {
    let mut dl = LinkedList::<i32>::new();
    dl.push_back(1);
    dl.push_back(2);
    dl.push_back(3);
    assert_eq!(dl.len(), 3);
    assert_eq!(dl.pop_back(), Some(3));
    assert_eq!(dl.len(), 2);
    assert_eq!(dl.pop_back(), Some(2));
    assert_eq!(dl.len(), 1);
    assert_eq!(dl.pop_back(), Some(1));
    assert_eq!(dl.len(), 0);
    assert_eq!(dl.pop_back(), None);
}

#[test]
fn front_works() {
    let mut dl = LinkedList::<i32>::new();
    dl.push_front(1);
    dl.push_front(2);
    dl.push_front(3);
    assert_eq!(dl.len(), 3);
    assert_eq!(dl.pop_front(), Some(3));
    assert_eq!(dl.len(), 2);
    assert_eq!(dl.pop_front(), Some(2));
    assert_eq!(dl.len(), 1);
    assert_eq!(dl.pop_front(), Some(1));
    assert_eq!(dl.len(), 0);
    assert_eq!(dl.pop_front(), None);
}

#[test]
fn alternating_works() {
    let mut dl = LinkedList::<i32>::new();
    dl.push_front(1);
    dl.push_back(2);
    dl.push_front(3);
    dl.push_back(4);
    dl.push_front(5);
    assert_eq!(dl.len(), 5);
    assert_eq!(dl.pop_back(), Some(4));
    assert_eq!(dl.len(), 4);
    assert_eq!(dl.pop_front(), Some(5));
    assert_eq!(dl.len(), 3);
    assert_eq!(dl.pop_back(), Some(2));
    assert_eq!(dl.len(), 2);
    assert_eq!(dl.pop_front(), Some(3));
    assert_eq!(dl.len(), 1);
    assert_eq!(dl.pop_back(), Some(1));
    assert_eq!(dl.len(), 0);
    assert_eq!(dl.pop_front(), None);
}

#[test]
fn remove_works() {
    let mut dl = LinkedList::<i32>::new();
    dl.push_back(1);
    dl.push_back(2);
    dl.push_back(3);
    dl.push_back(4);
    dl.push_back(5);
    dl.push_back(6);
    assert_eq!(dl.remove(1), Some(2));
    assert_eq!(dl.remove(2), Some(4));
    assert_eq!(dl.remove(2), Some(5));
    assert_eq!(dl.remove(2), Some(6));
    assert_eq!(dl.remove(2), None);
    assert_eq!(dl.remove(1), Some(3));
    assert_eq!(dl.remove(0), Some(1));

    let mut dl = LinkedList::<i32>::new();
    for i in 1..7 {
        dl.push_back(i);
    }
    assert_eq!(dl.remove(5), Some(6));
}

#[test]
fn insert_works() {
    let mut dl = LinkedList::<i32>::new();
    dl.insert(0, 1);
    assert_eq!(dl.len(), 1);
    assert_eq!(dl.remove(0), Some(1));

    dl.push_back(1);
    dl.push_back(2);
    dl.insert(1, 3);
    assert_eq!(dl.pop_back(), Some(2));
    assert_eq!(dl.pop_back(), Some(3));
    assert_eq!(dl.pop_back(), Some(1));

    assert_eq!(dl.len(), 0);

    dl.push_back(1);
    dl.push_back(2);
    dl.push_back(3);
    dl.push_back(4);
    dl.insert(2, 7);
    dl.insert(3, 8);
    dl.insert(5, 9);
    assert_eq!(dl.remove(2), Some(7));
    assert_eq!(dl.remove(2), Some(8));
    assert_eq!(dl.remove(3), Some(9));
}

#[test]
fn clear_works() {
    let mut dl = LinkedList::<i32>::new();
    for i in 0..1_000_000 {
        if i & 1 == 1 {
            dl.push_front(i);
        } else {
            dl.push_back(i);
        }
    }
    dl.clear();
    assert_eq!(dl.len(), 0);
}

#[test]
fn append_works() {
    let mut lhs = LinkedList::<i32>::new();
    let mut rhs = LinkedList::<i32>::new();
    for i in 0..5 {
        lhs.push_back(i);
        rhs.push_back(i + 5);
    }
    lhs.append(&mut rhs);

    assert_eq!(lhs.len(), 10);
    assert_eq!(rhs.len(), 0);
    let mut i = 0;
    while let Some(e) = lhs.next() {
        assert_eq!(i as i32, e);
        i += 1;
    }

    let mut lhs = LinkedList::<i32>::new();
    let mut rhs = LinkedList::<i32>::new();
    for i in 0..5 {
        lhs.push_back(i);
        rhs.push_back(i + 5);
    }
    lhs.append(&mut rhs);
    assert_eq!(lhs.len(), 10);
    assert_eq!(rhs.len(), 0);
    lhs.append(&mut rhs);
    assert_eq!(lhs.len(), 10);
    assert_eq!(rhs.len(), 0);

    let mut third = LinkedList::<i32>::new();
    third.append(&mut lhs);
    let mut i = 0;
    while let Some(e) = third.next() {
        assert_eq!(i as i32, e);
        i += 1;
    }
}

#[test]
fn any_run_of_end_operations_behaves_as_a_deque() {
    let mut dl = LinkedList::<i32>::new();
    let mut pushes = 0;
    let mut pops = 0;
    for i in 0..20 {
        match i % 3 {
            0 => dl.push_back(i),
            1 => dl.push_front(i),
            _ => {
                if dl.pop_back().is_some() {
                    pops += 1;
                }
                pushes -= 1;
            }
        }
        pushes += 1;
    }
    assert_eq!(dl.len(), pushes - pops);
    assert_eq!(drain(dl), vec![19, 16, 13, 10, 7, 4, 1, 18]);

    let mut queue = LinkedList::<i32>::new();
    let mut stack = LinkedList::<i32>::new();
    for v in [4, 8, 15, 16, 23, 42] {
        queue.push_back(v);
        stack.push_back(v);
    }
    let mut from_front = Vec::new();
    while let Some(v) = queue.pop_front() {
        from_front.push(v);
    }
    let mut from_back = Vec::new();
    while let Some(v) = stack.pop_back() {
        from_back.push(v);
    }
    assert_eq!(from_front, vec![4, 8, 15, 16, 23, 42]);
    assert_eq!(from_back, vec![42, 23, 16, 15, 8, 4]);
}

#[test]
fn remove_past_the_end_changes_nothing() {
    let mut dl = LinkedList::<i32>::new();
    assert_eq!(dl.remove(0), None);
    assert_eq!(dl.remove(3), None);
    assert_eq!(dl.len(), 0);
    dl.push_back(10);
    dl.push_back(20);
    dl.push_back(30);
    assert_eq!(dl.remove(3), None);
    assert_eq!(dl.remove(usize::MAX), None);
    assert_eq!(dl.len(), 3);
    assert_eq!(dl.remove(1), Some(20));
    assert_eq!(dl.len(), 2);
    assert_eq!(drain(dl), vec![10, 30]);
}

#[test]
fn insert_then_remove_restores_every_position() {
    for i in 0..=4 {
        let mut dl = LinkedList::<i32>::new();
        for v in 0..4 {
            dl.push_back(v);
        }
        dl.insert(i, 99);
        assert_eq!(dl.len(), 5);
        assert_eq!(dl.remove(i), Some(99));
        assert_eq!(dl.len(), 4);
        assert_eq!(drain(dl), vec![0, 1, 2, 3]);
    }
}

#[test]
fn insert_in_the_middle_keeps_both_directions_linked() {
    let mut dl = LinkedList::<i32>::new();
    dl.push_back(1);
    dl.push_back(2);
    dl.push_back(3);
    dl.insert(1, 10);
    dl.insert(3, 20);
    assert_eq!(dl.len(), 5);
    assert_eq!(dl.pop_back(), Some(3));
    assert_eq!(dl.pop_back(), Some(20));
    assert_eq!(dl.pop_front(), Some(1));
    assert_eq!(dl.pop_front(), Some(10));
    assert_eq!(dl.pop_back(), Some(2));
    assert_eq!(dl.pop_front(), None);
}

#[test]
fn freed_slots_are_reused_correctly() {
    let mut dl = LinkedList::<i32>::new();
    for v in 0..6 {
        dl.push_back(v);
    }
    assert_eq!(dl.remove(2), Some(2));
    assert_eq!(dl.remove(2), Some(3));
    dl.push_front(-1);
    dl.insert(3, 7);
    dl.push_back(6);
    assert_eq!(drain(dl), vec![-1, 0, 1, 7, 4, 5, 6]);
}

#[test]
fn append_splices_both_directions() {
    let mut lhs = LinkedList::<i32>::new();
    let mut rhs = LinkedList::<i32>::new();
    for i in 0..5 {
        lhs.push_back(i);
        rhs.push_back(i + 5);
    }
    lhs.append(&mut rhs);
    assert_eq!(lhs.len(), 10);
    assert_eq!(rhs.len(), 0);
    assert_eq!(rhs.pop_front(), None);
    let mut back = Vec::new();
    while let Some(v) = lhs.pop_back() {
        back.push(v);
    }
    assert_eq!(back, vec![9, 8, 7, 6, 5, 4, 3, 2, 1, 0]);
}

#[test]
fn append_onto_empty_and_append_of_empty() {
    let mut lhs = LinkedList::<i32>::new();
    let mut rhs = LinkedList::<i32>::new();
    rhs.push_back(1);
    rhs.push_back(2);
    lhs.append(&mut rhs);
    assert_eq!(lhs.len(), 2);
    assert_eq!(rhs.len(), 0);
    rhs.push_back(3);
    assert_eq!(rhs.len(), 1);
    let mut empty = LinkedList::<i32>::new();
    lhs.append(&mut empty);
    assert_eq!(lhs.len(), 2);
    lhs.append(&mut rhs);
    assert_eq!(drain(lhs), vec![1, 2, 3]);
}

#[test]
fn clear_then_pops_return_nothing() {
    let mut dl = LinkedList::<i32>::new();
    dl.push_back(1);
    dl.push_front(2);
    dl.clear();
    assert_eq!(dl.len(), 0);
    assert_eq!(dl.pop_front(), None);
    assert_eq!(dl.pop_back(), None);
    dl.push_back(5);
    assert_eq!(dl.len(), 1);
    assert_eq!(dl.pop_front(), Some(5));
}
