use std::sync::Arc;
use virtex::stack::{pop_top, push_top, ConcurrentStack};

#[test]
fn second_pushed_pops_first() {
    let stack = ConcurrentStack::new();
    stack.push(1u32);
    stack.push(2u32);
    assert_eq!(stack.pop(), Some(2));
    assert_eq!(stack.pop(), Some(1));
}

#[test]
fn pops_come_in_reverse_order_of_pushes() {
    let stack = ConcurrentStack::new();
    for value in 0..100u32 {
        stack.push(value);
    }
    for value in (0..100u32).rev() {
        assert_eq!(stack.pop(), Some(value));
    }
}

#[test]
fn pushes_between_pops_come_out_first() {
    let stack = ConcurrentStack::new();
    stack.push("older");
    stack.push("newer");
    assert_eq!(stack.pop(), Some("newer"));
    stack.push("newest");
    assert_eq!(stack.pop(), Some("newest"));
    assert_eq!(stack.pop(), Some("older"));
}

#[test]
fn a_shared_handle_sees_the_same_stack() {
    let stack = Arc::new(ConcurrentStack::new());
    let other = stack.clone();
    stack.push(1u8);
    other.push(2u8);
    assert_eq!(stack.pop(), Some(2));
    assert_eq!(other.pop(), Some(1));
}

#[test]
fn plain_stack_discipline() {
    let mut items = vec![];
    assert_eq!(pop_top(&mut items), None::<u8>);
    push_top(&mut items, 1u8);
    push_top(&mut items, 2u8);
    assert_eq!(items, vec![1, 2]);
    assert_eq!(pop_top(&mut items), Some(2));
    assert_eq!(pop_top(&mut items), Some(1));
    assert_eq!(pop_top(&mut items), None);
}
