use data_structures::linked_list::SingleLinkedList;
use data_structures::queue::{Queue, Ticket};
use data_structures::tree::BinaryTree;

use rand::Rng;

#[test]
fn test_vec_queue() {
    let mut queue: Vec<_> = Queue::new();
    for i in 0..10 {
        queue.enqueue(i);
    }

    assert!(queue.size() == 10);

    for i in 0..10 {
        assert!(i == queue.dequeue().unwrap());
    }

    assert!(queue.size() == 0);
}

#[test]
fn test_list_queue() {
    let mut queue: SingleLinkedList<_> = Queue::new();
    for i in 0..10 {
        queue.enqueue(i);
    }

    assert!(queue.size() == 10);

    for i in 0..10 {
        assert!(i == queue.dequeue().unwrap());
    }

    assert!(queue.size() == 0);
}

#[test]
fn test_tree_queue() {
    let mut queue: BinaryTree<_> = Queue::new();
    let mut rng = rand::thread_rng();
    let input = (0..100)
        .map(|_| rng.gen_range(0..10000))
        .collect::<Vec<_>>();
    for x in &input {
        queue.enqueue(*x);
    }

    assert!(queue.size() == 100);

    for i in 0..100 {
        assert!(input[i] == queue.dequeue().unwrap());
    }

    assert!(queue.size() == 0);
}

#[test]
fn empty_queues_give_nothing() {
    let mut v: Vec<i32> = Queue::new();
    assert_eq!(v.dequeue(), None);
    let mut l: SingleLinkedList<i32> = Queue::new();
    assert_eq!(l.dequeue(), None);
    let mut t: BinaryTree<Ticket<i32>> = Queue::new();
    assert_eq!(t.dequeue(), None);
    assert_eq!(t.size(), 0);
}

#[test]
fn tree_queue_numbers_after_the_highest() {
    let mut t: BinaryTree<Ticket<&str>> = Queue::new();
    t.enqueue("a");
    t.enqueue("b");
    assert_eq!(t.dequeue(), Some("a"));
    t.enqueue("c");
    assert_eq!(t.size(), 2);
    let top = t.max().unwrap();
    assert_eq!(t.value(top).0, 2);
    let bottom = t.min().unwrap();
    assert_eq!(t.value(bottom).0, 1);
    assert_eq!(t.dequeue(), Some("b"));
    assert_eq!(t.dequeue(), Some("c"));
    assert_eq!(t.dequeue(), None);
}
