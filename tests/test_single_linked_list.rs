use data_structures::linked_list::{SingleLinkedList, SingleLinkedNode};

fn list_content_eq_to<'a, T: PartialEq + 'a>(
    list: &SingleLinkedList<T>,
    iter: impl Iterator<Item = &'a T>,
) -> bool {
    let mut nodes = list.iter();
    for b in iter {
        match nodes.next() {
            Some(a) => {
                if a.value != *b {
                    return false;
                }
            }
            None => return true,
        }
    }

    true
}

fn count<T>(list: &SingleLinkedList<T>) -> usize {
    let mut nodes = list.iter();
    let mut n = 0;
    while nodes.next().is_some() {
        n += 1;
    }
    n
}

#[test]
fn test_create_list() {
    let mut list = SingleLinkedList::new();
    assert!(list.len() == 0);

    for i in 0..100 {
        list.push_head(i);
    }

    let iter: Vec<_> = (0..100).into_iter().collect();
    assert!(list_content_eq_to(&list, iter.iter().rev()));

    list = SingleLinkedList::default();
    assert!(list.len() == 0 && list.is_empty());
    for i in 0..100 {
        list.push_tail(i);
    }

    assert!(!list.is_empty() && list.len() == 100);

    assert!(list_content_eq_to(&list, iter.iter()))
}

#[test]
fn test_split_concat() {
    let mut list = SingleLinkedList::new();

    for i in (0..100).rev() {
        list.push_head(i);
    }

    let tail = {
        let middle = list.find_mut(&49);
        SingleLinkedList::split(middle.unwrap())
    };

    assert!(list.len() == 50);
    assert!(tail.len() == 50);

    let iter1: Vec<_> = (0..50).into_iter().collect();
    assert!(list_content_eq_to(&list, iter1.iter()));

    let iter2: Vec<_> = (50..100).into_iter().collect();
    assert!(list_content_eq_to(&tail, iter2.iter()));

    {
        let middle = list.find_mut(&49);
        SingleLinkedList::concat(middle.unwrap(), tail);
        let iter3: Vec<_> = (0..100).into_iter().collect();
        assert!(list_content_eq_to(&list, iter3.iter()));
    }
}

#[test]
fn test_push_pop() {
    let mut list = SingleLinkedList::new();

    for i in (0..100).rev() {
        list.push_head(i);
    }

    list.push_head(-1);
    assert!(list.len() == 101);
    let iter: Vec<_> = (-1..100).into_iter().collect();
    assert!(list_content_eq_to(&list, iter.iter()));

    list.push_tail(100);
    assert!(list.len() == 102);
    let iter: Vec<_> = (-1..101).into_iter().collect();
    assert!(list_content_eq_to(&list, iter.iter()));

    list.pop_head();
    assert!(list.len() == 101);
    let iter: Vec<_> = (0..101).into_iter().collect();
    assert!(list_content_eq_to(&list, iter.iter()));
}

#[test]
fn test_insert_pop() {
    let mut list = SingleLinkedList::new();

    for i in (0..100).rev() {
        list.push_head(i);
    }

    let middle = list.find_mut(&49);
    SingleLinkedList::insert_after(middle.unwrap(), -99);
    assert!(list.len() == 101);
    let mut iter: Vec<_> = (0..100).into_iter().collect();
    iter.insert(50, -99);
    assert!(list_content_eq_to(&list, iter.iter()));

    let middle = list.find_mut(&49);
    SingleLinkedList::pop_after(middle.unwrap());
    let iter: Vec<_> = (0..100).into_iter().collect();
    assert!(list_content_eq_to(&list, iter.iter()));
}

#[test]
fn test_find_match() {
    let mut list = SingleLinkedList::new();

    for i in (0..100).rev() {
        list.push_head(i);
    }

    assert!(list.find(&37).unwrap().value == 37);
    list.find_mut(&37).unwrap().value = -37;
    assert!(list.find(&37).is_none());
    assert!(list.find(&-37).is_some());

    list.pop_match(&-37);
    assert!(list.len() == 99);
    assert!(list.find(&-37).is_none());
}

#[test]
fn test1() {
    let mut list = SingleLinkedList::new();

    for i in 0..10 {
        list.push_head(i);
    }

    println!("List is {:?}", list);

    for _ in 0..4 {
        list.pop_head();
    }

    println!("List is {:?}", list);

    assert!(list.find(&3).is_some());
    assert!(list.find(&3).unwrap().value == 3);

    assert!(list.find(&6).is_none());

    assert!(list.find_mut(&3).is_some());
    assert!({
        list.find_mut(&3).unwrap().value = 100;
        list.find(&100).is_some() && list.find(&3).is_none()
    });

    println!("List is {:?}", list);

    assert!(list.find(&2).is_some());
    let x = list.pop_match(&2);
    assert!(list.find(&2).is_none());
    assert!(x.unwrap() == 2);

    println!("List is {:?}", list);

    for i in 6..10 {
        list.push_tail(i);
    }

    println!("List is {:?}", list);
}

#[test]
fn empty_list_edges() {
    let mut list: SingleLinkedList<i32> = SingleLinkedList::new();
    assert!(list.is_empty());
    assert_eq!(list.len(), 0);
    assert_eq!(list.pop_head(), None);
    assert!(list.find(&1).is_none());
    assert!(list.find_mut(&1).is_none());
    assert_eq!(list.pop_match(&1), None);
    assert!(list.iter().next().is_none());
}

#[test]
fn node_edges() {
    let mut node = SingleLinkedNode::new(5);
    assert_eq!(node.value, 5);
    assert!(node.next.is_empty());
    assert_eq!(SingleLinkedList::pop_after(&mut node), None);
    SingleLinkedList::insert_after(&mut node, 6);
    SingleLinkedList::insert_after(&mut node, 7);
    assert_eq!(count(&node.next), 2);
    assert_eq!(SingleLinkedList::pop_after(&mut node), Some(7));
    assert_eq!(SingleLinkedList::pop_after(&mut node), Some(6));
    assert_eq!(node.value, 5);
}

#[test]
fn find_gives_the_first_match() {
    let mut list = SingleLinkedList::new();
    for x in [1, 2, 3, 2, 1] {
        list.push_tail(x);
    }
    let n = list.find(&2).unwrap();
    assert_eq!(n.value, 2);
    assert_eq!(count(&n.next), 3);
    assert_eq!(list.pop_match(&2), Some(2));
    assert!(list_content_eq_to(&list, [1, 3, 2, 1].iter()));
    assert_eq!(list.len(), 4);
}
