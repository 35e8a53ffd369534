use ll::{Bump, LinkedList};

fn values(list: &LinkedList<'_, i32>, at: usize) -> Vec<i32> {
    assert!(at < list.len());
    assert!(list.is_readable_from(at));
    let mut out = Vec::new();
    let mut it = list.iter(at);
    while let Some(value) = it.next() {
        out.push(*value);
    }
    out
}

#[test]
fn single_node_holds_its_value() {
    let bump = Bump::new();
    let list = LinkedList::new_with_bump(7, &bump);
    assert_eq!(list.len(), 1);
    assert!(list.holds_value(0));
    assert_eq!(*list.get(0), 7);
    assert_eq!(list.successor(0), None);
    assert_eq!(list.predecessor(0), None);
    assert_eq!(list.get_last(0), None);
    assert_eq!(list.get_first(0), None);
    assert_eq!(values(&list, 0), vec![7]);
}

#[test]
fn leaked_arena_gives_the_same_list() {
    let mut list: LinkedList<'static, i32> = LinkedList::new_leaked(1);
    list.push_to_end(0, 2);
    list.push_to_end(0, 3);
    assert_eq!(values(&list, 0), vec![1, 2, 3]);
}

#[test]
fn allocated_values_are_kept_apart() {
    let bump = Bump::new();
    let mut list = LinkedList::new_with_bump(String::from("first"), &bump);
    let second = list.allocate(String::from("second"));
    assert_eq!(second, 1);
    assert_eq!(list.len(), 2);
    assert_eq!(list.get(0).as_str(), "first");
    assert_eq!(list.get(second).as_str(), "second");
    assert_eq!(list.successor(second), None);
    assert_eq!(list.predecessor(second), None);
}

#[test]
fn push_to_end_keeps_the_order_of_the_pushes() {
    let bump = Bump::new();
    let mut list = LinkedList::new_with_bump(10, &bump);
    let mut expected = vec![10];
    for value in 11..30 {
        let id = list.push_to_end(0, value);
        expected.push(value);
        assert_eq!(id, list.len() - 1);
        assert_eq!(list.get_last(0), Some(id));
        assert_eq!(values(&list, 0), expected);
    }
}

#[test]
fn push_to_front_onto_the_head_reverses_the_pushes() {
    let bump = Bump::new();
    let mut list = LinkedList::new_with_bump(0, &bump);
    let mut head = 0;
    for value in 1..=5 {
        head = list.push_to_front(head, value);
        assert_eq!(list.get_first(0), Some(head));
    }
    assert_eq!(values(&list, head), vec![5, 4, 3, 2, 1, 0]);
}

#[test]
fn push_to_front_onto_an_inner_node_skips_the_nodes_between() {
    let bump = Bump::new();
    let mut list = LinkedList::new_with_bump(0, &bump);
    let first = list.push_to_front(0, 1);
    let second = list.push_to_front(0, 2);
    assert_eq!(list.predecessor(0), Some(first));
    assert_eq!(list.predecessor(first), Some(second));
    assert_eq!(list.successor(second), Some(0));
    assert_eq!(list.get_first(0), Some(second));
    assert_eq!(values(&list, second), vec![2, 0]);
    assert_eq!(values(&list, first), vec![1, 0]);
}

#[test]
fn first_and_last_are_the_true_ends() {
    let bump = Bump::new();
    let mut list = LinkedList::new_with_bump(1, &bump);
    let second = list.push_to_end(0, 2);
    let third = list.push_to_end(second, 3);
    let fourth = list.push_to_end(third, 4);
    for at in [0, second, third] {
        let tail = list.get_last(at).unwrap();
        assert_eq!(tail, fourth);
        assert_eq!(list.successor(tail), None);
    }
    assert_eq!(list.get_last(fourth), None);
    for at in [second, third, fourth] {
        let head = list.get_first(at).unwrap();
        assert_eq!(head, 0);
        assert_eq!(list.predecessor(head), None);
    }
    assert_eq!(list.get_first(0), None);
    assert_eq!(list.get_last_mut(second), Some(fourth));
    assert_eq!(list.get_first_mut(third), Some(0));
    assert_eq!(list.get_last_mut(fourth), None);
    assert_eq!(list.get_first_mut(0), None);
    assert_eq!(values(&list, 0), vec![1, 2, 3, 4]);
}

#[test]
fn scenario_pushes_at_both_ends() {
    let bump = Bump::new();
    let mut list = LinkedList::new_with_bump(1, &bump);
    list.push_to_end(0, 2);
    list.push_to_end(0, 3);
    list.push_to_front(0, 0);
    let head = list.get_first(0).unwrap();
    assert_eq!(values(&list, head), vec![0, 1, 2, 3]);
}

#[test]
fn scenario_pop_on_a_single_node() {
    let bump = Bump::new();
    let mut list = LinkedList::new_with_bump(1, &bump);
    assert_eq!(list.pop_end(0), None);
    assert_eq!(list.len(), 1);
    assert!(list.holds_value(0));
    assert_eq!(values(&list, 0), vec![1]);
}

#[test]
fn scenario_pop_takes_the_tail() {
    let bump = Bump::new();
    let mut list = LinkedList::new_with_bump(1, &bump);
    let second = list.push_to_end(0, 2);
    let third = list.push_to_end(second, 3);
    assert_eq!(values(&list, 0), vec![1, 2, 3]);
    assert_eq!(list.pop_end(0), Some(3));
    assert_eq!(values(&list, 0), vec![1, 2]);
    assert_eq!(list.successor(second), None);
    assert!(!list.holds_value(third));
    assert_eq!(list.len(), 3);
}

#[test]
fn pop_until_one_node_is_left() {
    let bump = Bump::new();
    let mut list = LinkedList::new_with_bump(1, &bump);
    let mut tail = 0;
    for value in 2..=6 {
        tail = list.push_to_end(tail, value);
    }
    let mut expected = vec![1, 2, 3, 4, 5, 6];
    while expected.len() > 1 {
        let last = expected.pop();
        assert_eq!(list.pop_end(0), last);
        assert_eq!(values(&list, 0), expected);
    }
    assert_eq!(list.pop_end(0), None);
    assert_eq!(values(&list, 0), vec![1]);
}

#[test]
fn append_sets_the_backward_link_to_the_node_it_was_called_on() {
    let bump = Bump::new();
    let mut list = LinkedList::new_with_bump(1, &bump);
    let second = list.push_to_end(0, 2);
    let third = list.push_to_end(0, 3);
    assert_eq!(list.successor(second), Some(third));
    assert_eq!(list.predecessor(second), Some(0));
    assert_eq!(list.predecessor(third), Some(0));
    assert_eq!(list.get_first(third), Some(0));
    assert_eq!(values(&list, 0), vec![1, 2, 3]);
}

#[test]
fn pop_clears_the_link_of_the_node_that_the_tail_names() {
    let bump = Bump::new();
    let mut list = LinkedList::new_with_bump(1, &bump);
    let second = list.push_to_end(0, 2);
    let third = list.push_to_end(0, 3);
    assert_eq!(list.pop_end(0), Some(3));
    assert_eq!(list.successor(0), None);
    assert_eq!(values(&list, 0), vec![1]);
    assert_eq!(list.successor(second), Some(third));
    assert!(!list.is_readable_from(second));
    assert_eq!(list.pop_end(second), None);
}

#[test]
fn append_joins_two_chains() {
    let bump = Bump::new();
    let mut list = LinkedList::new_with_bump(1, &bump);
    let second = list.push_to_end(0, 2);
    let other = list.allocate(10);
    let other_tail = list.push_to_end(other, 11);
    assert!(list.can_append(second, other));
    list.append(second, other);
    assert_eq!(values(&list, 0), vec![1, 2, 10, 11]);
    assert_eq!(list.predecessor(other), Some(second));
    assert_eq!(list.get_last(0), Some(other_tail));
}

#[test]
fn prepend_joins_two_chains() {
    let bump = Bump::new();
    let mut list = LinkedList::new_with_bump(1, &bump);
    list.push_to_end(0, 2);
    let other = list.allocate(10);
    assert!(list.can_prepend(0, other));
    list.prepend(0, other);
    assert_eq!(list.successor(other), Some(0));
    assert_eq!(list.predecessor(0), Some(other));
    assert_eq!(list.get_first(0), Some(other));
    assert_eq!(values(&list, other), vec![10, 1, 2]);
}

#[test]
fn links_that_would_close_a_circle_are_told_apart() {
    let bump = Bump::new();
    let mut list = LinkedList::new_with_bump(1, &bump);
    let second = list.push_to_end(0, 2);
    let lone = list.allocate(9);
    assert!(!list.can_append(0, 0));
    assert!(!list.can_append(0, second));
    assert!(!list.can_append(second, 0));
    assert!(!list.can_append(0, 7));
    assert!(!list.can_append(7, 0));
    assert!(list.can_append(0, lone));
    assert!(list.can_append(lone, 0));
    assert!(!list.can_prepend(0, 0));
    assert!(!list.can_prepend(0, second));
    assert!(!list.can_prepend(second, 0));
    assert!(!list.can_prepend(0, 7));
    assert!(list.can_prepend(0, lone));
    assert!(list.can_prepend(lone, second));
}

#[test]
fn a_popped_node_may_not_be_appended_before_its_old_chain() {
    let bump = Bump::new();
    let mut list = LinkedList::new_with_bump(1, &bump);
    let second = list.push_to_end(0, 2);
    assert_eq!(list.pop_end(0), Some(2));
    assert_eq!(list.predecessor(second), Some(0));
    assert!(!list.can_append(second, 0));
    assert!(list.can_append(0, second));
}

#[test]
fn get_n_counts_from_the_node_it_is_given() {
    let bump = Bump::new();
    let mut list = LinkedList::new_with_bump(1, &bump);
    let second = list.push_to_end(0, 2);
    list.push_to_end(0, 3);
    list.push_to_end(0, 4);
    let expected = [1, 2, 3, 4];
    for (i, value) in expected.iter().enumerate() {
        assert_eq!(list.get_n(0, i), Some(value));
    }
    assert_eq!(list.get_n(0, 4), None);
    assert_eq!(list.get_n(0, usize::MAX), None);
    assert_eq!(list.get_n(second, 0), Some(&2));
    assert_eq!(list.get_n(second, 2), Some(&4));
    assert_eq!(list.get_n(second, 3), None);
}

#[test]
fn get_mut_writes_one_value() {
    let bump = Bump::new();
    let mut list = LinkedList::new_with_bump(1, &bump);
    let second = list.push_to_end(0, 2);
    list.push_to_end(0, 3);
    *list.get_mut(second) = 20;
    assert_eq!(*list.get(second), 20);
    assert_eq!(values(&list, 0), vec![1, 20, 3]);
}

#[test]
fn get_n_mut_writes_the_nth_value() {
    let bump = Bump::new();
    let mut list = LinkedList::new_with_bump(1, &bump);
    list.push_to_end(0, 2);
    list.push_to_end(0, 3);
    match list.get_n_mut(0, 2) {
        Some(value) => {
            assert_eq!(*value, 3);
            *value = 30;
        }
        None => panic!("the chain has three values"),
    }
    assert!(list.get_n_mut(0, 3).is_none());
    assert_eq!(values(&list, 0), vec![1, 2, 30]);
}

#[test]
fn iter_starts_anew_each_time() {
    let bump = Bump::new();
    let mut list = LinkedList::new_with_bump(1, &bump);
    let second = list.push_to_end(0, 2);
    list.push_to_end(0, 3);
    assert_eq!(values(&list, 0), vec![1, 2, 3]);
    assert_eq!(values(&list, 0), vec![1, 2, 3]);
    assert_eq!(values(&list, second), vec![2, 3]);
    let mut it = list.iter(second);
    assert_eq!(it.next(), Some(&2));
    assert_eq!(it.next(), Some(&3));
    assert_eq!(it.next(), None);
    assert_eq!(it.next(), None);
}

#[test]
fn iter_mut_hands_out_each_value_once() {
    let bump = Bump::new();
    let mut list = LinkedList::new_with_bump(1, &bump);
    list.push_to_end(0, 2);
    list.push_to_end(0, 3);
    assert!(list.is_readable_from(0));
    let mut seen = Vec::new();
    {
        let mut it = list.iter_mut(0);
        while let Some(value) = it.next() {
            seen.push(*value);
            *value *= 10;
        }
        assert!(it.next().is_none());
    }
    assert_eq!(seen, vec![1, 2, 3]);
    assert_eq!(values(&list, 0), vec![10, 20, 30]);
}

#[test]
fn values_that_own_memory_come_back_whole() {
    let bump = Bump::new();
    let mut list = LinkedList::new_with_bump(vec![1u8], &bump);
    let second = list.push_to_end(0, vec![2, 2]);
    list.push_to_end(second, vec![3, 3, 3]);
    assert_eq!(list.pop_end(0), Some(vec![3, 3, 3]));
    assert_eq!(list.pop_end(0), Some(vec![2, 2]));
    assert_eq!(list.pop_end(0), None);
    assert_eq!(list.get(0), &vec![1u8]);
}
