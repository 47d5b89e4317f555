use linked_lists::first::List;

#[test]
fn first_basics() {
    let mut list = List::new();

    // Check empty list behaves right
    assert_eq!(list.pop(), None);

    // Populate list
    list.push(1);
    list.push(2);
    list.push(3);

    // Check normal removal
    assert_eq!(list.pop(), Some(3));
    assert_eq!(list.pop(), Some(2));

    // Push some more just to make sure nothing's corrupted
    list.push(4);
    list.push(5);

    // Check normal removal
    assert_eq!(list.pop(), Some(5));
    assert_eq!(list.pop(), Some(4));

    // Check exhaustion
    assert_eq!(list.pop(), Some(1));
    assert_eq!(list.pop(), None);
}

#[test]
fn stack_pops_in_reverse_push_order() {
    let mut list = List::new();
    let values = [7, -3, 0, i32::MAX, i32::MIN, 42];
    for v in values {
        list.push(v);
    }
    for v in values.iter().rev() {
        assert_eq!(list.pop(), Some(*v));
    }
    assert_eq!(list.pop(), None);
}

#[test]
fn stack_empty_pop_is_repeatable() {
    let mut list = List::new();
    for _ in 0..5 {
        assert_eq!(list.pop(), None);
    }
    list.push(9);
    assert_eq!(list.pop(), Some(9));
    for _ in 0..5 {
        assert_eq!(list.pop(), None);
    }
}

#[test]
fn stack_exactly_len_pops_succeed() {
    let mut list = List::new();
    list.push(1);
    list.push(2);
    list.push(3);
    assert_eq!(list.pop(), Some(3));
    list.push(4);
    // three elements are left: 4, 2, 1
    assert_eq!(list.pop(), Some(4));
    assert_eq!(list.pop(), Some(2));
    assert_eq!(list.pop(), Some(1));
    assert_eq!(list.pop(), None);
}

#[test]
fn stack_long_list_is_dropped_without_deep_recursion() {
    let mut list = List::new();
    for i in 0..1_000_000 {
        list.push(i);
    }
    drop(list);
}

#[test]
fn stack_partly_popped_long_list_is_dropped() {
    let mut list = List::new();
    for i in 0..1_000_000 {
        list.push(i);
    }
    assert_eq!(list.pop(), Some(999_999));
    assert_eq!(list.pop(), Some(999_998));
    drop(list);
}

#[test]
fn stack_peek_shows_top_without_removing() {
    let mut list = List::new();
    assert_eq!(list.peek(), None);
    list.push(1);
    list.push(2);
    assert_eq!(list.peek(), Some(&2));
    assert_eq!(list.peek(), Some(&2));
    assert_eq!(list.pop(), Some(2));
    assert_eq!(list.peek(), Some(&1));
    assert_eq!(list.pop(), Some(1));
    assert_eq!(list.peek(), None);
}
