use std::collections::HashSet;

use data_structures::tree::{BinaryTree, TreeNode};

use rand::Rng;

fn in_order<T: data_structures::ranked::Ranked>(tree: &BinaryTree<T>) -> Vec<usize> {
    let mut out = Vec::new();
    let mut it = tree.iter();
    while let Some(h) = it.next(tree) {
        out.push(h);
    }
    out
}

fn values(tree: &BinaryTree<i32>) -> Vec<i32> {
    in_order(tree).into_iter().map(|h| *tree.value(h)).collect()
}

fn verify_tree_order(tree: &BinaryTree<i32>) {
    let mut root_count = 0;
    if !tree.is_empty() {
        for item in in_order(tree) {
            let parent = tree.node_at(item).parent;
            if parent.is_none() {
                root_count += 1;
            } else {
                let parent = tree.node_at(parent.unwrap());
                if parent.value > tree.node_at(item).value {
                    assert!(parent.left == Some(item))
                } else {
                    assert!(parent.right == Some(item))
                }
            }
        }
        assert!(
            root_count == if tree.is_empty() { 0 } else { 1 },
            "root count = {root_count}"
        );
    }
}

#[test]
fn test_display() {
    let mut rng = rand::thread_rng();

    let mut tree = BinaryTree::new();
    for _ in 0..15 {
        tree.insert(rng.gen_range(0..100));
    }

    println!("Tree = \n{:?}", values(&tree));
    assert_eq!(in_order(&tree).len(), 15);
}

#[test]
fn test_find() {
    let mut rng = rand::thread_rng();
    let input = (0..20).map(|_| rng.gen_range(0..100)).collect::<Vec<_>>();

    let mut tree = BinaryTree::new();

    for x in &input {
        tree.insert(*x);
    }

    for x in &input {
        assert!(tree.find(&x).is_some())
    }

    for _ in 0..20 {
        let x = rng.gen_range(100..200);
        assert!(tree.find(&x).is_none())
    }
}

#[test]
fn test_min_max() {
    let mut rng = rand::thread_rng();

    for _ in 0..10 {
        let mut input = (0..20).map(|_| rng.gen_range(0..100)).collect::<Vec<_>>();

        let mut tree = BinaryTree::new();

        for x in &input {
            tree.insert(*x);
        }

        input.sort();

        assert!(input.first().unwrap() == tree.value(tree.min().unwrap()));
        assert!(input.last().unwrap() == tree.value(tree.max().unwrap()));
    }
}

#[test]
fn test_iter() {
    let mut rng = rand::thread_rng();

    for _ in 0..10 {
        let mut input = (0..5).map(|_| rng.gen_range(0..1000)).collect::<Vec<_>>();

        let mut tree = BinaryTree::new();

        for x in &input {
            tree.insert(*x);
        }

        println!("tree = {:?}", values(&tree));
        for x in in_order(&tree) {
            println!("node = {}", tree.value(x));
        }

        input.sort();
        assert!(input.iter().count() == in_order(&tree).len());
        for (a, b) in input.iter().zip(in_order(&tree).into_iter()) {
            assert!(*a == *tree.value(b));
        }
    }
}

#[test]
fn test_weak_to_parent() {
    let mut rng = rand::thread_rng();
    let size = 16;
    let input = (0..size)
        .map(|_| rng.gen_range(0..1000))
        .collect::<Vec<_>>();

    let mut tree = BinaryTree::new();

    for x in &input {
        tree.insert(*x);
    }

    assert!(
        in_order(&tree).len() == size,
        "iter count = {}, size = {size}",
        in_order(&tree).len()
    );
    println!("tree = {:?}", values(&tree));

    verify_tree_order(&tree);
}

#[test]
fn test_remove() {
    let mut rng = rand::thread_rng();

    let input = (0..7000)
        .map(|_| rng.gen_range(0..1000))
        .collect::<HashSet<_>>();
    let mut len = input.len();
    println!("set length = {}, set = {:?}", len, input);

    let mut tree = BinaryTree::new();

    for x in &input {
        tree.insert(*x);
    }

    for x in input {
        {
            println!("x to be removed = {x}");
            let node = tree.find(&x).unwrap();
            tree.remove(node);
            len -= 1;
        }
        assert!(
            in_order(&tree).len() == len,
            "{} != {}",
            in_order(&tree).len(),
            len
        );
        assert!(tree.find(&x).is_none());
        verify_tree_order(&tree);
    }
}

#[test]
fn test_predecessor_successor() {
    let mut rng = rand::thread_rng();
    let size = 7000;

    let input = (0..size)
        .map(|_| rng.gen_range(0..10000))
        .collect::<HashSet<_>>();

    let mut tree = BinaryTree::new();

    let mut sorted = Vec::new();
    for x in &input {
        tree.insert(*x);
        sorted.push(*x);
    }
    sorted.sort();

    for i in 1..(sorted.len() - 1) {
        let pre = TreeNode::predecessor(&tree, tree.find(&sorted[i]).unwrap());
        let suc = TreeNode::successor(&tree, tree.find(&sorted[i]).unwrap());
        if pre.is_some() {
            assert!(*tree.value(pre.unwrap()) == sorted[i - 1]);
        }
        if suc.is_some() {
            assert!(*tree.value(suc.unwrap()) == sorted[i + 1]);
        }
    }
}

#[test]
fn scenario_seven_values_remove_eight() {
    let mut tree = BinaryTree::new();
    for x in [5, 3, 8, 1, 4, 7, 9] {
        tree.insert(x);
    }
    assert_eq!(values(&tree), vec![1, 3, 4, 5, 7, 8, 9]);
    let h = tree.find(&8).unwrap();
    assert_eq!(tree.remove(h), 8);
    assert_eq!(values(&tree), vec![1, 3, 4, 5, 7, 9]);
    assert!(tree.find(&8).is_none());
    assert_eq!(*tree.value(tree.max().unwrap()), 9);
    assert_eq!(*tree.value(tree.min().unwrap()), 1);
    verify_tree_order(&tree);
}

#[test]
fn scenario_duplicate_values() {
    let mut tree = BinaryTree::new();
    for x in [10, 10, 5] {
        tree.insert(x);
    }
    assert_eq!(values(&tree), vec![5, 10, 10]);
    let h = tree.find(&10).unwrap();
    assert_eq!(tree.remove(h), 10);
    assert_eq!(values(&tree), vec![5, 10]);
    verify_tree_order(&tree);
}

#[test]
fn equal_values_go_right_and_keep_insertion_order() {
    let mut tree = BinaryTree::new();
    let first = tree.insert(10i64);
    let second = tree.insert(10i64);
    assert_eq!(tree.node_at(first).right, Some(second));
    assert_eq!(tree.node_at(second).parent, Some(first));
    assert_eq!(in_order(&tree), vec![first, second]);
    assert_eq!(TreeNode::successor(&tree, first), Some(second));
    assert_eq!(TreeNode::predecessor(&tree, second), Some(first));
}

#[test]
fn empty_tree_has_nothing() {
    let tree: BinaryTree<i32> = BinaryTree::new();
    assert!(tree.is_empty());
    assert!(tree.min().is_none());
    assert!(tree.max().is_none());
    assert!(tree.find(&3).is_none());
    assert!(tree.root_handle().is_none());
    assert!(in_order(&tree).is_empty());
    let other: BinaryTree<i32> = BinaryTree::default();
    assert!(other.is_empty());
}

#[test]
fn single_node_tree() {
    let tree = TreeNode::new(42).to_root();
    assert!(!tree.is_empty());
    assert_eq!(values(&tree), vec![42]);
    let r = tree.root_handle().unwrap();
    assert_eq!(tree.min(), Some(r));
    assert_eq!(tree.max(), Some(r));
    assert_eq!(TreeNode::predecessor(&tree, r), None);
    assert_eq!(TreeNode::successor(&tree, r), None);
}

#[test]
fn tree_node_constructors() {
    let n = TreeNode::new(7);
    assert_eq!(n.value, 7);
    assert!(n.parent.is_none() && n.left.is_none() && n.right.is_none());
    let leaf = TreeNode::new_leaf(9, 3);
    assert_eq!(leaf.value, 9);
    assert_eq!(leaf.parent, Some(3));
    assert!(leaf.left.is_none() && leaf.right.is_none());
}

#[test]
fn neighbours_at_the_ends() {
    let mut tree = BinaryTree::new();
    for x in [20, 10, 30, 25, 35] {
        tree.insert(x);
    }
    let lo = tree.min().unwrap();
    let hi = tree.max().unwrap();
    assert_eq!(TreeNode::predecessor(&tree, lo), None);
    assert_eq!(TreeNode::successor(&tree, hi), None);
    let n25 = tree.find(&25).unwrap();
    assert_eq!(*tree.value(TreeNode::predecessor(&tree, n25).unwrap()), 20);
    assert_eq!(*tree.value(TreeNode::successor(&tree, n25).unwrap()), 30);
    let n20 = tree.find(&20).unwrap();
    assert_eq!(*tree.value(TreeNode::predecessor(&tree, n20).unwrap()), 10);
    assert_eq!(*tree.value(TreeNode::successor(&tree, n20).unwrap()), 25);
}

#[test]
fn neighbours_of_a_sorted_distinct_sequence() {
    let s = [2, 3, 5, 7, 11, 13, 17];
    let mut tree = BinaryTree::new();
    for x in [7, 3, 13, 2, 5, 11, 17] {
        tree.insert(x);
    }
    for i in 0..s.len() {
        let h = tree.find(&s[i]).unwrap();
        let pre = TreeNode::predecessor(&tree, h);
        let suc = TreeNode::successor(&tree, h);
        if i == 0 {
            assert!(pre.is_none());
        } else {
            assert_eq!(*tree.value(pre.unwrap()), s[i - 1]);
        }
        if i + 1 == s.len() {
            assert!(suc.is_none());
        } else {
            assert_eq!(*tree.value(suc.unwrap()), s[i + 1]);
        }
    }
}

#[test]
fn remove_each_shape() {
    let mut tree = BinaryTree::new();
    for x in [50, 30, 70, 20, 40, 60, 80, 65] {
        tree.insert(x);
    }
    // a leaf
    let h = tree.find(&20).unwrap();
    tree.remove(h);
    assert_eq!(values(&tree), vec![30, 40, 50, 60, 65, 70, 80]);
    verify_tree_order(&tree);
    // one child
    let h = tree.find(&60).unwrap();
    tree.remove(h);
    assert_eq!(values(&tree), vec![30, 40, 50, 65, 70, 80]);
    verify_tree_order(&tree);
    // two children, the root
    let h = tree.find(&50).unwrap();
    assert_eq!(tree.root_handle(), Some(h));
    tree.remove(h);
    assert_eq!(values(&tree), vec![30, 40, 65, 70, 80]);
    assert_eq!(*tree.value(tree.root_handle().unwrap()), 65);
    verify_tree_order(&tree);
    // down to empty
    for x in [30, 40, 65, 70, 80] {
        let h = tree.find(&x).unwrap();
        assert_eq!(tree.remove(h), x);
        verify_tree_order(&tree);
    }
    assert!(tree.is_empty());
    tree.insert(1);
    assert_eq!(values(&tree), vec![1]);
}

#[test]
fn handles_survive_other_changes() {
    let mut tree = BinaryTree::new();
    let a = tree.insert(5);
    let b = tree.insert(3);
    let c = tree.insert(8);
    tree.remove(b);
    let d = tree.insert(4);
    assert_eq!(*tree.value(a), 5);
    assert_eq!(*tree.value(c), 8);
    assert_eq!(*tree.value(d), 4);
    assert_eq!(values(&tree), vec![4, 5, 8]);
}

#[test]
fn clean_empties_the_tree() {
    let mut tree = BinaryTree::new();
    for x in 0..10 {
        tree.insert(x);
    }
    tree.clean();
    assert!(tree.is_empty());
    assert!(tree.find(&3).is_none());
}

#[test]
fn round_trip_is_a_sort() {
    let input = vec![9, 2, 7, 2, 5, 9, 1, 0, 7, 7];
    let mut tree = BinaryTree::new();
    for x in &input {
        tree.insert(*x);
    }
    let mut expected = input.clone();
    expected.sort();
    assert_eq!(values(&tree), expected);
    assert_eq!(values(&tree).len(), input.len());
}

#[test]
fn random_inserts_and_removes_keep_membership() {
    let mut rng = rand::thread_rng();
    let mut tree = BinaryTree::new();
    let mut present: Vec<i32> = Vec::new();
    for step in 0..2000 {
        if present.is_empty() || rng.gen_range(0..3) > 0 {
            let x = rng.gen_range(0..200);
            tree.insert(x);
            present.push(x);
        } else {
            let i = rng.gen_range(0..present.len());
            let x = present.swap_remove(i);
            let h = tree.find(&x).unwrap();
            assert_eq!(tree.remove(h), x);
        }
        if step % 50 == 0 {
            verify_tree_order(&tree);
        }
        let mut expected = present.clone();
        expected.sort();
        assert_eq!(values(&tree), expected);
        for x in 0..200 {
            assert_eq!(tree.find(&x).is_some(), present.contains(&x));
        }
    }
}
