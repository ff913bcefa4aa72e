use data_structures::sort::insert_sort;
use rand::{thread_rng, Rng};

#[test]
fn sort_result_ok() {
    let mut rng = thread_rng();

    let a: Vec<_> = (0..10000).map(|_| rng.gen_range(-10000..10000)).collect();
    let mut ans = a.clone();
    ans.sort();

    let mut b = a.clone();
    insert_sort(&mut b, |a, b| a < b);

    for (a, b) in ans.iter().zip(b.iter()) {
        assert!(a == b);
    }
}

#[test]
fn sort_small_cases() {
    let mut empty: Vec<i32> = vec![];
    insert_sort(&mut empty, |a, b| a < b);
    assert!(empty.is_empty());

    let mut one = vec![7u64];
    insert_sort(&mut one, |a, b| a < b);
    assert_eq!(one, vec![7]);

    let mut dups = vec![3i64, 1, 3, 2, 1];
    insert_sort(&mut dups, |a, b| a < b);
    assert_eq!(dups, vec![1, 1, 2, 3, 3]);

    let mut rev = vec![5u32, 4, 3, 2, 1, 0];
    insert_sort(&mut rev, |a, b| a < b);
    assert_eq!(rev, vec![0, 1, 2, 3, 4, 5]);
}
