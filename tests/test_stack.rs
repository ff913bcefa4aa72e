use data_structures::linked_list::SingleLinkedList;
use data_structures::stack::Stack;

#[test]
fn test_vec_stack() {
    let mut stack: Vec<_> = Stack::new();
    for i in 0..10 {
        stack.push(i);
    }

    assert!(stack.size() == 10);

    for i in (0..10).rev() {
        assert!(i == Stack::pop(&mut stack).unwrap());
    }

    assert!(stack.size() == 0);
}

#[test]
fn test_list_stack() {
    let mut stack: SingleLinkedList<_> = Stack::new();
    for i in 0..10 {
        stack.push(i);
    }

    assert!(stack.size() == 10);

    for i in (0..10).rev() {
        assert!(i == Stack::pop(&mut stack).unwrap());
    }

    assert!(stack.size() == 0);
}

#[test]
fn empty_stacks_give_nothing() {
    let mut v: Vec<i32> = Stack::new();
    assert_eq!(Stack::pop(&mut v), None);
    let mut l: SingleLinkedList<i32> = Stack::new();
    assert_eq!(Stack::pop(&mut l), None);
    Stack::push(&mut l, 4);
    Stack::push(&mut l, 5);
    assert_eq!(l.len(), 2);
    assert_eq!(l.find(&5).unwrap().value, 5);
    assert_eq!(Stack::pop(&mut l), Some(5));
}
