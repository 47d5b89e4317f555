use linked_lists::fourth::List;

#[test]
fn fourth_basics() {
    let mut list = List::new();

    // Check empty list behaves right
    assert_eq!(list.pop_front(), None);

    // Populate list
    list.push_front(1);
    list.push_front(2);
    list.push_front(3);

    // Check normal removal
    assert_eq!(list.pop_front(), Some(3));
    assert_eq!(list.pop_front(), Some(2));

    // Push some more just to make sure nothing's corrupted
    list.push_front(4);
    list.push_front(5);

    // Check normal removal
    assert_eq!(list.pop_front(), Some(5));
    assert_eq!(list.pop_front(), Some(4));

    // Check exhaustion
    assert_eq!(list.pop_front(), Some(1));
    assert_eq!(list.pop_front(), None);
}

#[test]
fn deque_pops_in_reverse_push_order() {
    let mut list = List::new();
    let values = ["a", "b", "c", "d"];
    for v in values {
        list.push_front(String::from(v));
    }
    for v in values.iter().rev() {
        assert_eq!(list.pop_front(), Some(String::from(*v)));
    }
    assert_eq!(list.pop_front(), None);
}

#[test]
fn deque_empty_pop_is_repeatable() {
    let mut list: List<u8> = List::new();
    for _ in 0..5 {
        assert_eq!(list.pop_front(), None);
    }
    list.push_front(1);
    assert_eq!(list.pop_front(), Some(1));
    for _ in 0..5 {
        assert_eq!(list.pop_front(), None);
    }
}

#[test]
fn deque_exactly_len_pops_succeed() {
    let mut list = List::new();
    list.push_front(10);
    list.push_front(20);
    assert_eq!(list.pop_front(), Some(20));
    list.push_front(30);
    list.push_front(40);
    // three elements are left: 40, 30, 10
    assert_eq!(list.pop_front(), Some(40));
    assert_eq!(list.pop_front(), Some(30));
    assert_eq!(list.pop_front(), Some(10));
    assert_eq!(list.pop_front(), None);
}

#[test]
fn deque_peek_front_follows_pushes() {
    let mut list = List::new();
    assert_eq!(list.peek_front(), None);
    list.push_front(1);
    assert_eq!(list.peek_front(), Some(&1));
    list.push_front(2);
    assert_eq!(list.peek_front(), Some(&2));
    assert_eq!(list.peek_front(), Some(&2));
    assert_eq!(list.pop_front(), Some(2));
    assert_eq!(list.peek_front(), Some(&1));
    assert_eq!(list.pop_front(), Some(1));
    assert_eq!(list.peek_front(), None);
}

#[test]
fn deque_reuses_freed_slots_in_long_runs() {
    let mut list = List::new();
    for round in 0..1000u64 {
        for i in 0..10u64 {
            list.push_front(round * 10 + i);
        }
        for i in (0..10u64).rev() {
            assert_eq!(list.pop_front(), Some(round * 10 + i));
        }
        assert_eq!(list.pop_front(), None);
    }
}

#[test]
fn deque_long_list_is_dropped() {
    let mut list = List::new();
    for i in 0..1_000_000u32 {
        list.push_front(i);
    }
    assert_eq!(list.peek_front(), Some(&999_999));
    drop(list);
}
