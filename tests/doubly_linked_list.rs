use dt::DoublyLinkedList;

fn collect(ll: &DoublyLinkedList<i32>) -> Vec<i32> {
    let mut out = Vec::new();
    let mut it = ll.iter();
    while let Some(v) = it.next() {
        out.push(*v);
    }
    out
}

fn from_slice(vs: &[i32]) -> DoublyLinkedList<i32> {
    let mut ll = DoublyLinkedList::new();
    for v in vs {
        ll.push_back(*v);
    }
    ll
}

#[test]
fn push_front_pop_front() {
    let mut ll = DoublyLinkedList::new();
    assert!(ll.is_empty());
    assert_eq!(ll.len(), 0);

    ll.push_front(0);
    ll.push_front(1);
    ll.push_front(2);

    assert!(!ll.is_empty());
    assert_eq!(ll.len(), 3);

    assert_eq!(ll.pop_front(), Some(2));
    assert_eq!(ll.pop_front(), Some(1));
    assert_eq!(ll.pop_front(), Some(0));
    assert_eq!(ll.pop_front(), None);

    assert!(ll.is_empty());
    assert_eq!(ll.len(), 0);
}

#[test]
fn push_front_pop_back() {
    let mut ll = DoublyLinkedList::new();
    assert!(ll.is_empty());
    assert_eq!(ll.len(), 0);

    ll.push_front(0);
    ll.push_front(1);
    ll.push_front(2);

    assert!(!ll.is_empty());
    assert_eq!(ll.len(), 3);

    assert_eq!(ll.pop_back(), Some(0));
    assert_eq!(ll.pop_back(), Some(1));
    assert_eq!(ll.pop_back(), Some(2));
    assert_eq!(ll.pop_back(), None);

    assert!(ll.is_empty());
    assert_eq!(ll.len(), 0);
}

#[test]
fn push_back_pop_back() {
    let mut ll = DoublyLinkedList::new();
    assert!(ll.is_empty());
    assert_eq!(ll.len(), 0);

    ll.push_back(0);
    ll.push_back(1);
    ll.push_back(2);

    assert!(!ll.is_empty());
    assert_eq!(ll.len(), 3);

    assert_eq!(ll.pop_back(), Some(2));
    assert_eq!(ll.pop_back(), Some(1));
    assert_eq!(ll.pop_back(), Some(0));
    assert_eq!(ll.pop_back(), None);

    assert!(ll.is_empty());
    assert_eq!(ll.len(), 0);
}

#[test]
fn push_back_pop_front() {
    let mut ll = DoublyLinkedList::new();
    assert!(ll.is_empty());
    assert_eq!(ll.len(), 0);

    ll.push_back(0);
    ll.push_back(1);
    ll.push_back(2);

    assert!(!ll.is_empty());
    assert_eq!(ll.len(), 3);

    assert_eq!(ll.pop_front(), Some(0));
    assert_eq!(ll.pop_front(), Some(1));
    assert_eq!(ll.pop_front(), Some(2));
    assert_eq!(ll.pop_front(), None);

    assert!(ll.is_empty());
    assert_eq!(ll.len(), 0);
}

#[test]
fn mixed_ends_read_in_order() {
    let mut ll = DoublyLinkedList::new();
    ll.push_back(1);
    ll.push_back(2);
    ll.push_front(0);
    assert_eq!(collect(&ll), vec![0, 1, 2]);
    assert_eq!(ll.pop_back(), Some(2));
    assert_eq!(ll.pop_front(), Some(0));
    assert_eq!(collect(&ll), vec![1]);
    assert_eq!(ll.len(), 1);
}

#[test]
fn len_tracks_pushes_and_pops() {
    let mut ll = DoublyLinkedList::new();
    let mut expected: usize = 0;
    for i in 0..20 {
        if i % 3 == 2 {
            if ll.pop_front().is_some() {
                expected -= 1;
            }
        } else if i % 2 == 0 {
            ll.push_front(i);
            expected += 1;
        } else {
            ll.push_back(i);
            expected += 1;
        }
        assert_eq!(ll.len(), expected);
        assert_eq!(ll.is_empty(), expected == 0);
    }
}

#[test]
fn pop_on_empty_keeps_len_zero() {
    let mut ll: DoublyLinkedList<i32> = DoublyLinkedList::new();
    assert_eq!(ll.pop_back(), None);
    assert_eq!(ll.pop_front(), None);
    assert_eq!(ll.len(), 0);
    assert!(ll.is_empty());
}

#[test]
fn front_and_back_access() {
    let mut ll = DoublyLinkedList::new();
    assert_eq!(ll.front(), None);
    assert_eq!(ll.back(), None);
    assert!(ll.front_mut().is_none());
    assert!(ll.back_mut().is_none());
    ll.push_back(1);
    ll.push_back(2);
    assert_eq!(ll.front(), Some(&1));
    assert_eq!(ll.back(), Some(&2));
    if let Some(x) = ll.front_mut() {
        *x = 5;
    }
    if let Some(x) = ll.back_mut() {
        *x = 9;
    }
    assert_eq!(collect(&ll), vec![5, 9]);
}

#[test]
fn single_element_front_is_back() {
    let mut ll = DoublyLinkedList::new();
    ll.push_front(7);
    assert_eq!(ll.front(), Some(&7));
    assert_eq!(ll.back(), Some(&7));
    assert_eq!(ll.pop_back(), Some(7));
    assert_eq!(ll.front(), None);
}

#[test]
fn contains_scans_all() {
    let ll = from_slice(&[0, 1, 2]);
    assert!(ll.contains(&0));
    assert!(ll.contains(&2));
    assert!(!ll.contains(&10));
    let empty: DoublyLinkedList<i32> = DoublyLinkedList::new();
    assert!(!empty.contains(&0));
}

#[test]
fn clear_empties_and_list_is_reusable() {
    let mut ll = from_slice(&[1, 2, 3]);
    ll.clear();
    assert_eq!(ll.len(), 0);
    assert_eq!(ll.front(), None);
    ll.push_back(4);
    assert_eq!(collect(&ll), vec![4]);
}

#[test]
fn append_moves_everything_in_order() {
    let mut a = from_slice(&[1]);
    let mut b = from_slice(&[2, 3]);
    a.append(&mut b);
    assert_eq!(collect(&a), vec![1, 2, 3]);
    assert!(b.is_empty());
    assert_eq!(b.front(), None);
    assert_eq!(a.back(), Some(&3));
}

#[test]
fn append_with_empty_sides() {
    let mut a = DoublyLinkedList::new();
    let mut b = from_slice(&[4, 5]);
    a.append(&mut b);
    assert_eq!(collect(&a), vec![4, 5]);
    assert!(b.is_empty());
    let mut c = DoublyLinkedList::new();
    a.append(&mut c);
    assert_eq!(collect(&a), vec![4, 5]);
    assert_eq!(a.len(), 2);
    // `b` stays usable after giving its nodes away.
    b.push_back(6);
    assert_eq!(collect(&b), vec![6]);
}

#[test]
fn append_matches_pushing_each() {
    let mut a = from_slice(&[1, 2]);
    let mut b = from_slice(&[3, 4, 5]);
    let mut pushed = from_slice(&[1, 2]);
    for v in collect(&b) {
        pushed.push_back(v);
    }
    a.append(&mut b);
    assert_eq!(collect(&a), collect(&pushed));
}

#[test]
fn split_off_example() {
    let mut d = DoublyLinkedList::new();
    d.push_front(1);
    d.push_front(2);
    d.push_front(3);
    let mut split = d.split_off(2);
    assert_eq!(split.pop_front(), Some(1));
    assert_eq!(split.pop_front(), None);
    assert_eq!(collect(&d), vec![3, 2]);
}

#[test]
fn split_off_at_bounds() {
    let mut d = from_slice(&[1, 2, 3]);
    let all = d.split_off(0);
    assert!(d.is_empty());
    assert_eq!(collect(&all), vec![1, 2, 3]);

    let mut e = from_slice(&[1, 2, 3]);
    let none = e.split_off(3);
    assert!(none.is_empty());
    assert_eq!(collect(&e), vec![1, 2, 3]);
}

#[test]
fn split_then_append_restores() {
    for at in 0..=4 {
        let mut d = from_slice(&[10, 11, 12, 13]);
        let mut tail = d.split_off(at);
        assert_eq!(d.len(), at);
        assert_eq!(tail.len(), 4 - at);
        d.append(&mut tail);
        assert_eq!(collect(&d), vec![10, 11, 12, 13]);
    }
}

#[test]
fn iter_is_restartable() {
    let ll = from_slice(&[0, 1, 2]);
    let mut it = ll.iter();
    assert_eq!(it.next(), Some(&0));
    assert_eq!(it.next(), Some(&1));
    assert_eq!(it.next(), Some(&2));
    assert_eq!(it.next(), None);
    assert_eq!(it.next(), None);
    assert_eq!(collect(&ll), vec![0, 1, 2]);
}

#[test]
fn iter_mut_updates_each_element() {
    let mut ll = from_slice(&[0, 1, 2]);
    let mut it = ll.iter_mut();
    while let Some(x) = it.next() {
        *x += 10;
    }
    assert_eq!(collect(&ll), vec![10, 11, 12]);
}

#[test]
fn interleaved_ends_after_pops_keep_links() {
    // Popping moves arena slots around; the order must survive it.
    let mut ll = DoublyLinkedList::new();
    for i in 0..6 {
        ll.push_back(i);
    }
    assert_eq!(ll.pop_front(), Some(0));
    ll.push_front(-1);
    assert_eq!(ll.pop_back(), Some(5));
    ll.push_back(6);
    assert_eq!(ll.pop_front(), Some(-1));
    assert_eq!(collect(&ll), vec![1, 2, 3, 4, 6]);
    let mut back = Vec::new();
    while let Some(v) = ll.pop_back() {
        back.push(v);
    }
    assert_eq!(back, vec![6, 4, 3, 2, 1]);
}
