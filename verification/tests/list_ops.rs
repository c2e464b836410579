use containers::LinkedList;

#[test]
fn linked_list_test_basics() {
    let mut list = LinkedList::new();
    list.push_back(1);
    list.push_back(2);
    list.push_back(3);
    assert_eq!(list.pop_back(), Some(3));
    assert_eq!(list.pop_back(), Some(2));
    assert_eq!(list.pop_back(), Some(1));

    list.push_back(1);
    list.push_back(2);
    list.push_back(3);
    assert_eq!(list.pop_front(), Some(1));
    assert_eq!(list.pop_front(), Some(2));
    assert_eq!(list.pop_front(), Some(3));

    list.push_front(1);
    list.push_front(2);
    list.push_front(3);
    assert_eq!(list.pop_front(), Some(3));
    assert_eq!(list.pop_front(), Some(2));
    assert_eq!(list.pop_front(), Some(1));

    list.push_front(1);
    list.push_front(2);
    list.push_front(3);
    assert_eq!(list.pop_back(), Some(1));
    assert_eq!(list.pop_back(), Some(2));
    assert_eq!(list.pop_back(), Some(3));
}

#[test]
fn test_iter() {
    let items = [1, 2, 3, 4, 5];
    let mut list: LinkedList<i32> = LinkedList::new();
    for i in items {
        list.push_back(i);
    }

    let mut iter = list.iter();
    for i in items {
        assert_eq!(iter.next(), Some(&i));
    }
    assert_eq!(iter.next(), None);

    let mut iter = list.iter();
    for i in items.iter().rev() {
        assert_eq!(iter.next_back(), Some(i));
    }
    assert_eq!(iter.next_back(), None);

    let mut iter = list.clone().into_iter();
    for i in items {
        assert_eq!(iter.next(), Some(i));
    }
    assert_eq!(iter.next(), None);

    let mut iter = list.clone().into_iter();
    for i in items.iter().rev() {
        assert_eq!(iter.next_back(), Some(*i));
    }
    assert_eq!(iter.next_back(), None);

    let mut iter = list.iter();
    assert_eq!(iter.next(), Some(&1));
    assert_eq!(iter.next_back(), Some(&5));
    assert_eq!(iter.next(), Some(&2));
    assert_eq!(iter.next_back(), Some(&4));
    assert_eq!(iter.next(), Some(&3));
    assert_eq!(iter.next_back(), None);
    assert_eq!(iter.next(), None);

    let mut list_mut = list.clone();
    let mut cursor = list_mut.iter_mut();
    assert_eq!(cursor.next(&mut list_mut), Some(&mut 1));
    assert_eq!(cursor.next_back(&mut list_mut), Some(&mut 5));
    assert_eq!(cursor.next(&mut list_mut), Some(&mut 2));
    assert_eq!(cursor.next_back(&mut list_mut), Some(&mut 4));
    assert_eq!(cursor.next(&mut list_mut), Some(&mut 3));
    assert_eq!(cursor.next_back(&mut list_mut), None);
    assert_eq!(cursor.next(&mut list_mut), None);

    let mut iter = list.into_iter();
    assert_eq!(iter.next(), Some(1));
    assert_eq!(iter.next_back(), Some(5));
    assert_eq!(iter.next(), Some(2));
    assert_eq!(iter.next_back(), Some(4));
    assert_eq!(iter.next(), Some(3));
    assert_eq!(iter.next_back(), None);
    assert_eq!(iter.next(), None);
}

#[test]
fn test_list_fifo_scenario() {
    // push_back 1, 2, 3 then pop_front three times yields 1, 2, 3 and
    // leaves the list empty, with nothing left at either end.
    let mut list = LinkedList::new();
    list.push_back(1);
    list.push_back(2);
    list.push_back(3);
    assert_eq!(list.pop_front(), Some(1));
    assert_eq!(list.pop_front(), Some(2));
    assert_eq!(list.pop_front(), Some(3));
    assert!(list.is_empty());
    assert_eq!(list.len(), 0);
    assert_eq!(list.pop_front(), None);
    assert_eq!(list.pop_back(), None);
    // the emptied list is fully reusable
    list.push_front(9);
    assert_eq!(list.len(), 1);
    assert_eq!(list.pop_back(), Some(9));
}

#[test]
fn test_list_dual_order() {
    // After a mix of pushes and pops at both ends, forward and backward
    // iteration are exact mirror images, and both report the same count.
    let mut list: LinkedList<i32> = LinkedList::new();
    list.push_back(2);
    list.push_front(1);
    list.push_back(3);
    list.push_front(0);
    list.push_back(4); // 0 1 2 3 4
    assert_eq!(list.pop_front(), Some(0));
    assert_eq!(list.pop_back(), Some(4)); // 1 2 3
    let pushes = 5;
    let pops = 2;
    assert_eq!(list.len(), pushes - pops);

    let mut forward = std::vec::Vec::new();
    let mut iter = list.iter();
    while let Some(v) = iter.next() {
        forward.push(*v);
    }
    let mut backward = std::vec::Vec::new();
    let mut iter = list.iter();
    while let Some(v) = iter.next_back() {
        backward.push(*v);
    }
    assert_eq!(forward.len(), list.len());
    assert_eq!(backward.len(), list.len());
    backward.reverse();
    assert_eq!(forward, backward);
    assert_eq!(forward, vec![1, 2, 3]);
}

#[test]
fn test_list_unordered_density() {
    // After pops force relocation, the backing storage still holds exactly
    // the list's elements: unordered traversal yields the same multiset as
    // ordered traversal, with the same length.
    let mut list: LinkedList<i32> = LinkedList::new();
    for i in 0..8 {
        list.push_back(i);
    }
    assert_eq!(list.pop_front(), Some(0));
    assert_eq!(list.pop_back(), Some(7));
    assert_eq!(list.pop_front(), Some(1)); // 2 3 4 5 6

    let mut ordered = std::vec::Vec::new();
    let mut iter = list.iter();
    while let Some(v) = iter.next() {
        ordered.push(*v);
    }
    let mut unordered = std::vec::Vec::new();
    let mut iter = list.iter_unordered();
    while let Some(v) = iter.next() {
        unordered.push(*v);
    }
    assert_eq!(unordered.len(), list.len());
    assert_eq!(ordered.len(), list.len());
    let mut sorted = unordered.clone();
    sorted.sort();
    let mut expected = ordered.clone();
    expected.sort();
    assert_eq!(sorted, expected);

    let mut unordered_owned = std::vec::Vec::new();
    let mut iter = list.into_iter_unordered();
    while let Some(v) = iter.next() {
        unordered_owned.push(v);
    }
    unordered_owned.sort();
    assert_eq!(unordered_owned, expected);
}

#[test]
fn test_list_reserve() {
    let mut list: LinkedList<u64> = LinkedList::new();
    list.reserve(32);
    for i in 0..32 {
        list.push_back(i);
    }
    for i in 0..32 {
        assert_eq!(list.pop_front(), Some(i));
    }
    assert!(list.is_empty());
}

#[test]
fn test_iter_mut_updates() {
    // The two mutable cursors write through disjoint elements from both
    // ends without ever aliasing one.
    let mut list: LinkedList<i32> = LinkedList::new();
    for i in 1..=4 {
        list.push_back(i);
    }
    let mut cursor = list.iter_mut();
    while let Some(v) = cursor.next(&mut list) {
        *v *= 10;
    }
    let mut iter = list.iter();
    for expected in [10, 20, 30, 40] {
        assert_eq!(iter.next(), Some(&expected));
    }

    let mut cursor = list.iter_mut();
    loop {
        match cursor.next_back(&mut list) {
            Some(v) => *v += 1,
            None => break,
        }
    }
    let mut iter = list.iter();
    for expected in [11, 21, 31, 41] {
        assert_eq!(iter.next(), Some(&expected));
    }
}

#[test]
fn test_iter_mut_unordered() {
    // The storage-order mutable cursor touches every element exactly once,
    // whatever positions relocation left them in.
    let mut list: LinkedList<i32> = LinkedList::new();
    for i in 0..6 {
        list.push_back(i);
    }
    assert_eq!(list.pop_front(), Some(0)); // forces a swap-relocation
    let mut cursor = list.iter_mut_unordered();
    while let Some(v) = cursor.next(&mut list) {
        *v += 100;
    }
    let mut seen = std::vec::Vec::new();
    let mut iter = list.iter();
    while let Some(v) = iter.next() {
        seen.push(*v);
    }
    seen.sort();
    assert_eq!(seen, vec![101, 102, 103, 104, 105]);
}

#[test]
fn test_list_default() {
    let list: LinkedList<i32> = Default::default();
    assert!(list.is_empty());
    assert_eq!(list.len(), 0);
}
