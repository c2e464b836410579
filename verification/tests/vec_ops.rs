use containers::vec::IndexNotFound;
use containers::Vec;

#[test]
fn test_iters() {
    let mut items: Vec<i32> = Vec::new();
    for i in 0..10 {
        items.push(i);
    }
    let _ = items.clone().into_iter();

    for i in 0..10 {
        assert_eq!(*items.get(i as usize), i);
    }
    for i in 0..10 {
        assert_eq!(*items.get_mut(i as usize), i);
    }
    let mut iter = items.into_iter();
    for i in 0..10 {
        assert_eq!(iter.next(), Some(i));
    }
    assert_eq!(iter.next(), None);

    let strings = ["lorem", "ipsum", "dolor", "sit", "amet"];
    let mut items: Vec<String> = Vec::new();
    for s in strings {
        items.push(String::from(s));
    }
    let _ = items.clone().into_iter();

    for (i, s) in strings.iter().enumerate() {
        assert_eq!(items.get(i).as_str(), *s);
    }
    for (i, s) in strings.iter().enumerate() {
        assert_eq!(items.get_mut(i).as_str(), *s);
    }
    let mut iter = items.into_iter();
    for s in strings {
        assert_eq!(iter.next(), Some(String::from(s)));
    }
    assert_eq!(iter.next(), None);
}

#[test]
fn test_insert_remove() {
    let mut items = Vec::new();

    for i in 0..10 {
        items.insert(0, i);
    }

    for i in (0..10).rev() {
        assert_eq!(items.remove(0), i);
    }
}

#[test]
fn test_boxed_slice() {
    let mut pre: Vec<i32> = Vec::new();
    for i in 0..10 {
        pre.push(i);
    }
    let post = Vec::from_boxed_slice(pre.clone().into_boxed_slice());
    assert_eq!(pre.len(), post.len());
    for i in 0..10 {
        assert_eq!(*pre.get(i), *post.get(i));
    }
}

#[test]
fn test_vector_order() {
    // Pushes, pops, inserts and removes keep the surviving elements in the
    // order the operations imply.
    let mut v: Vec<i32> = Vec::new();
    v.push(1);
    v.push(2);
    v.push(4);
    v.insert(2, 3); // 1 2 3 4
    v.push(5); // 1 2 3 4 5
    assert_eq!(v.remove(0), 1); // 2 3 4 5
    assert_eq!(v.pop(), Some(5)); // 2 3 4
    assert_eq!(v.len(), 3);
    for (i, expected) in [2, 3, 4].iter().enumerate() {
        assert_eq!(*v.get(i), *expected);
    }

    // swap_remove keeps the content but not the order.
    let mut w: Vec<i32> = Vec::new();
    for i in [10, 20, 30, 40] {
        w.push(i);
    }
    assert_eq!(w.swap_remove(1), 20); // 10 40 30
    let mut rest = vec![*w.get(0), *w.get(1), *w.get(2)];
    rest.sort();
    assert_eq!(rest, vec![10, 30, 40]);
}

#[test]
fn test_double_ended_into_iter() {
    let mut v: Vec<i32> = Vec::new();
    for i in 1..=5 {
        v.push(i);
    }
    let mut iter = v.into_iter();
    assert_eq!(iter.len(), 5);
    assert_eq!(iter.next(), Some(1));
    assert_eq!(iter.next_back(), Some(5));
    assert_eq!(iter.next(), Some(2));
    assert_eq!(iter.next_back(), Some(4));
    assert_eq!(iter.next(), Some(3));
    assert_eq!(iter.next_back(), None);
    assert_eq!(iter.next(), None);
}

#[test]
fn test_vec_bounds_errors() {
    let mut v: Vec<i32> = Vec::new();
    v.push(7);
    assert_eq!(v.try_insert(2, 9), Err(IndexNotFound));
    assert_eq!(v.try_remove(1), Err(IndexNotFound));
    assert_eq!(v.try_swap_remove(1), Err(IndexNotFound));
    assert_eq!(v.len(), 1);
    assert_eq!(*v.get(0), 7);
    assert_eq!(v.try_insert(1, 9), Ok(()));
    assert_eq!(v.try_remove(1), Ok(9));
    assert_eq!(v.try_swap_remove(0), Ok(7));
    assert_eq!(v.pop(), None);
}

#[test]
fn test_vec_growth() {
    let mut v: Vec<i32> = Vec::new();
    assert_eq!(v.cap(), 0);
    for i in 0..10 {
        v.push(i);
    }
    // Ten elements exceed the starting capacity for this element size, so
    // the capacity has grown strictly past it, and everything is intact.
    assert!(v.cap() >= 10);
    for i in 0..10 {
        assert_eq!(*v.get(i as usize), i);
    }
    v.shrink_to_fit();
    assert_eq!(v.cap(), 10);
}

#[test]
fn test_reserve_and_replace() {
    let mut v: Vec<u64> = Vec::with_capacity(3);
    assert!(v.cap() >= 3);
    v.push(1);
    v.push(2);
    v.reserve(10);
    assert!(v.cap() >= 12);
    assert_eq!(v.replace(0, 9), 1);
    assert_eq!(*v.get(0), 9);
    v.swap(0, 1);
    assert_eq!(*v.get(0), 2);
    assert_eq!(*v.get(1), 9);
}
