use slot_list::list::LinkedList;

#[test]
fn empty_list_behaviour() {
    let mut list: LinkedList<i32> = LinkedList::new();

    assert!(list.is_empty());
    assert_eq!(0, list.size());
    assert_eq!(None, list.remove_first());
    assert_eq!(None, list.remove_last());
}

#[test]
fn add_and_remove_first_last() {
    let mut list = LinkedList::new();

    list.add_last(1);
    list.add_last(2);
    list.add_first(0);

    let mut it = list.iter();

    assert_eq!(it.next(), Some(&0));
    assert_eq!(it.next(), Some(&1));
    assert_eq!(it.next(), Some(&2));
    assert_eq!(it.next(), None);

    assert_eq!(Some(0), list.remove_first());
    assert_eq!(Some(2), list.remove_last());
    assert_eq!(Some(1), list.remove_first());
    assert_eq!(None, list.remove_first());
}

#[test]
fn free_slot_reuse() {
    let mut list = LinkedList::new();

    list.add_last(10);
    list.add_last(20);
    list.add_last(30);

    assert_eq!(Some(10), list.remove_first());
    assert_eq!(Some(20), list.remove_first());

    list.add_last(40);
    list.add_first(0);

    let mut vals = Vec::new();
    let mut it = list.iter();
    while let Some(v) = it.next() {
        vals.push(*v);
    }

    assert_eq!(vals, vec![0, 30, 40]);
}

#[test]
fn single_element_reset() {
    let mut list = LinkedList::new();

    list.add_last(5);
    assert_eq!(Some(5), list.remove_first());

    assert!(list.is_empty());
    assert_eq!(0, list.size());
    assert_eq!(None, list.get_first());
    assert_eq!(None, list.get_last());
    assert_eq!(None, list.remove_first());
    assert_eq!(None, list.remove_last());
}

#[test]
fn traversal_count_matches_size() {
    let mut list = LinkedList::new();

    list.add_first(3);
    list.add_last(4);
    list.add_first(2);
    list.add_last(5);
    list.remove_last();
    list.add_first(1);
    list.remove_first();

    let mut count = 0;
    let mut it = list.iter();
    while let Some(_) = it.next() {
        count += 1;
    }

    assert_eq!(count, list.size());
    assert_eq!(3, list.size());
}

#[test]
fn emptiness_agreement() {
    let mut list = LinkedList::new();

    assert!(list.is_empty());
    assert_eq!(0, list.size());
    assert_eq!(None, list.get_first());
    assert_eq!(None, list.get_last());

    list.add_first(7);

    assert!(!list.is_empty());
    assert_eq!(1, list.size());
    assert_eq!(Some(&7), list.get_first());
    assert_eq!(Some(&7), list.get_last());
}

#[test]
fn get_first_and_get_last() {
    let mut list = LinkedList::new();

    list.add_last(1);
    list.add_last(2);
    list.add_first(0);

    assert_eq!(Some(&0), list.get_first());
    assert_eq!(Some(&2), list.get_last());
    assert_eq!(3, list.size());
}

#[test]
fn fifo_round_trip() {
    let mut list = LinkedList::new();

    for v in 1..=5 {
        list.add_last(v);
    }
    for v in 1..=5 {
        assert_eq!(Some(v), list.remove_first());
    }
    assert!(list.is_empty());
}

#[test]
fn lifo_front_round_trip() {
    let mut list = LinkedList::new();

    for v in 1..=5 {
        list.add_first(v);
    }
    for v in (1..=5).rev() {
        assert_eq!(Some(v), list.remove_first());
    }
    assert!(list.is_empty());
}

#[test]
fn lifo_back_round_trip() {
    let mut list = LinkedList::new();

    for v in 1..=5 {
        list.add_last(v);
    }
    for v in (1..=5).rev() {
        assert_eq!(Some(v), list.remove_last());
    }
    assert!(list.is_empty());
}

#[test]
fn mirrored_round_trip() {
    let mut list = LinkedList::new();

    for v in 1..=5 {
        list.add_first(v);
    }
    for v in 1..=5 {
        assert_eq!(Some(v), list.remove_last());
    }
    assert!(list.is_empty());
}

#[test]
fn traversal_restarts_at_head() {
    let mut list = LinkedList::new();

    list.add_last("a");
    list.add_last("b");

    let mut first_pass = Vec::new();
    let mut it = list.iter();
    while let Some(v) = it.next() {
        first_pass.push(*v);
    }

    let mut second_pass = Vec::new();
    let mut again = list.iter();
    while let Some(v) = again.next() {
        second_pass.push(*v);
    }

    assert_eq!(first_pass, vec!["a", "b"]);
    assert_eq!(second_pass, vec!["a", "b"]);
}

#[test]
fn traversal_reflects_interleaved_ops() {
    let mut list = LinkedList::new();

    list.add_last(2);
    list.add_first(1);
    list.add_last(3);
    assert_eq!(Some(1), list.remove_first());
    list.add_first(0);
    assert_eq!(Some(3), list.remove_last());
    list.add_last(9);

    let mut vals = Vec::new();
    let mut it = list.iter();
    while let Some(v) = it.next() {
        vals.push(*v);
    }

    assert_eq!(vals, vec![0, 2, 9]);
    assert_eq!(3, list.size());
}
