use runtime_core::utils::linkedlist::LinkedList;

#[test]
fn add_elements() {
    let mut list = LinkedList::new();
    for i in [1, 2, 3] {
        list.push_front(i);
    }
    for i in [1, 2, 3] {
        list.push_back(i);
    }
    assert_eq!(list.len(), 6);
}

#[test]
fn pop_elements() {
    let mut list = LinkedList::from_vec(vec![3, 2, 1, 1, 2, 3]);
    let mut collected = vec![];
    for _ in 0..list.len() {
        collected.push(list.pop_front().unwrap());
    }
    assert_eq!(collected, [3, 2, 1, 1, 2, 3]);
}

#[test]
fn change_element() {
    let mut list = LinkedList::from_vec(vec![3, 2, 1, 1, 2, 3]);
    list.first_mut(4).unwrap();
    list.last_mut(4).unwrap();
    let mut collected = vec![];
    for _ in 0..list.len() {
        collected.push(list.pop_front().unwrap());
    }
    assert_eq!(collected, [4, 2, 1, 1, 2, 4]);
}

#[test]
fn iter() {
    let mut list = LinkedList::from_vec(vec![3, 2, 1, 1, 2, 3]);
    list.set(1, 4).unwrap();
    list.set(2, 5).unwrap();
    let vec = list.to_vec();
    assert_eq!(vec, [3, 4, 5, 1, 2, 3]);
}

#[test]
fn rev_iter() {
    let mut list = LinkedList::from_vec(vec![3, 2, 1, 1, 2, 3]);
    let n = list.len();
    list.set(n - 2, 4).unwrap();
    list.set(n - 3, 5).unwrap();
    let vec = list.to_vec();
    assert_eq!(vec, [3, 2, 1, 5, 4, 3]);
}

#[test]
fn eq_and_clone() {
    let list = LinkedList::from_vec(vec![3, 2, 1, 1, 2, 3]);
    let mut cloned = list.clone();
    assert!(list.eq(&cloned));
    cloned.pop_front();
    assert!(!list.eq(&cloned));
}

#[test]
fn format() {
    let list = LinkedList::from_vec(vec![3, 2, 1, 1, 2, 3]);
    assert_eq!(list.to_text(), "[3, 2, 1, 1, 2, 3]".as_bytes());
}

#[test]
fn fifo_order() {
    let mut list = LinkedList::new();
    list.push_back(1);
    list.push_back(2);
    list.push_back(3);
    assert_eq!(list.pop_front(), Some(1));
    assert_eq!(list.pop_front(), Some(2));
    assert_eq!(list.pop_front(), Some(3));
    assert_eq!(list.pop_front(), None::<i32>);
}

#[test]
fn lifo_at_front() {
    let mut list = LinkedList::new();
    list.push_front(1);
    list.push_front(2);
    list.push_front(3);
    assert_eq!(list.to_vec(), [3, 2, 1]);
}

#[test]
fn length_accounting() {
    let mut list = LinkedList::new();
    for k in 0..10 {
        list.push_back(k);
    }
    for _ in 0..4 {
        list.pop_back();
    }
    assert_eq!(list.len(), 10 - 4);
    assert!(!list.is_empty());
}

#[test]
fn clone_independence() {
    let list = LinkedList::from_vec(vec![7, 8, 9]);
    let mut cloned = list.clone();
    cloned.first_mut(100).unwrap();
    assert_eq!(*list.first().unwrap(), 7);
    assert_eq!(*cloned.first().unwrap(), 100);
}

#[test]
fn prefix_compares_equal() {
    let shorter = LinkedList::from_vec(vec![1, 2, 3]);
    let longer = LinkedList::from_vec(vec![1, 2, 3, 4]);
    assert!(shorter.eq(&longer));
    assert!(longer.eq(&shorter));
    let other = LinkedList::from_vec(vec![1, 2, 4]);
    assert!(!shorter.eq(&other));
}

#[test]
fn peek_and_get() {
    let mut list = LinkedList::new();
    assert_eq!(list.first(), None::<&i64>);
    assert_eq!(list.last(), None::<&i64>);
    list.push_back(10);
    list.push_back(20);
    assert_eq!(*list.first().unwrap(), 10);
    assert_eq!(*list.last().unwrap(), 20);
    assert_eq!(*list.get(1).unwrap(), 20);
    assert_eq!(list.get(2), None);
    assert_eq!(list.pop_back(), Some(20));
    assert_eq!(list.pop_back(), Some(10));
    assert_eq!(list.pop_back(), None);
}

#[test]
fn slot_reuse_keeps_order() {
    let mut list = LinkedList::new();
    list.push_back(1);
    list.push_back(2);
    list.pop_front();
    list.push_front(0);
    list.push_back(3);
    assert_eq!(list.to_vec(), [0, 2, 3]);
}
