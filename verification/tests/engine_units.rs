use stable_sort::engine::{collapse, reverse_range, sort_small, Run};
use stable_sort::harness::{copied, is_sorted, same_elements, sort_comp, vec_equal, CoreSort};
use stable_sort::insertion::{insert_head, insert_tail, insertion_sort_remaining};
use stable_sort::merge::merge;
use stable_sort::order::{KeyOrder, NaturalOrder};
use stable_sort::small_sort::{sort16, sort2, sort3, sort4, sort8, swap_next_if_less};

#[test]
fn insert_tail_exact() {
    let mut v = vec![1, 3, 5, 7, 4, 9];
    insert_tail(&mut v, 0, 4, &NaturalOrder);
    assert_eq!(v, vec![1, 3, 4, 5, 7, 9]);
}

#[test]
fn insert_head_exact() {
    let mut v = vec![9, 6, 2, 4, 8];
    insert_head(&mut v, 1, 5, &NaturalOrder);
    assert_eq!(v, vec![9, 2, 4, 6, 8]);
}

#[test]
fn insertion_sort_remaining_exact() {
    let mut v = vec![2, 5, 9, 1, 7, 0];
    insertion_sort_remaining(&mut v, 0, 3, 6, &NaturalOrder);
    assert_eq!(v, vec![0, 1, 2, 5, 7, 9]);
}

#[test]
fn merge_exact() {
    let mut v = vec![-1, 1, 4, 8, 2, 3, 9, 100];
    let mut buf: Vec<i32> = Vec::new();
    merge(&mut v, 0, 4, 8, &mut buf, &NaturalOrder);
    assert_eq!(v, vec![-1, 1, 2, 3, 4, 8, 9, 100]);
}

#[test]
fn merge_right_shorter_exact() {
    let mut v = vec![0, 1, 2, 5, 6, 9, 3, 4];
    let mut buf: Vec<i32> = Vec::new();
    merge(&mut v, 0, 6, 8, &mut buf, &NaturalOrder);
    assert_eq!(v, vec![0, 1, 2, 3, 4, 5, 6, 9]);
}

#[test]
fn reverse_range_exact() {
    let mut v = vec![9, 1, 2, 3, 4, 9];
    reverse_range(&mut v, 1, 5);
    assert_eq!(v, vec![9, 4, 3, 2, 1, 9]);
}

#[test]
fn networks_exact() {
    let mut v = vec![2, 1];
    sort2(&mut v, 0, &NaturalOrder);
    assert_eq!(v, vec![1, 2]);
    let mut v = vec![3, 1, 2];
    sort3(&mut v, 0, &NaturalOrder);
    assert_eq!(v, vec![1, 2, 3]);
    let mut v = vec![4, 3, 2, 1];
    sort4(&mut v, 0, &NaturalOrder);
    assert_eq!(v, vec![1, 2, 3, 4]);
    let mut v = vec![8, 7, 6, 5, 4, 3, 2, 1];
    sort8(&mut v, 0, &NaturalOrder);
    assert_eq!(v, vec![1, 2, 3, 4, 5, 6, 7, 8]);
    let mut v: Vec<i32> = (0..16).rev().collect();
    sort16(&mut v, 0, &NaturalOrder);
    let expected: Vec<i32> = (0..16).collect();
    assert_eq!(v, expected);
    let mut v = vec![5, 4, 9];
    swap_next_if_less(&mut v, 0, &NaturalOrder);
    assert_eq!(v, vec![4, 5, 9]);
}

#[test]
fn networks_stable_on_bands() {
    // Equal elements under a two-band comparator keep their order in the
    // network sorts.
    let mut v: Vec<(i32, i32)> = vec![(1, 0), (0, 1), (1, 2), (0, 3)];
    sort4(&mut v, 0, &KeyOrder);
    assert_eq!(v, vec![(0, 1), (0, 3), (1, 0), (1, 2)]);
}

#[test]
fn sort_small_offsets() {
    let mut v = vec![100, 3, 2, 1, 100];
    sort_small(&mut v, 1, 4, &NaturalOrder);
    assert_eq!(v, vec![100, 1, 2, 3, 100]);
    let mut w: Vec<i32> = (0..20).rev().collect();
    sort_small(&mut w, 0, 20, &NaturalOrder);
    let expected: Vec<i32> = (0..20).collect();
    assert_eq!(w, expected);
}

#[test]
fn collapse_rule_exact() {
    // Too few runs, and balanced runs, demand no merge.
    let runs: Vec<Run> = vec![Run { start: 90, len: 10 }];
    assert!(collapse(&runs).is_none());
    let runs = vec![Run { start: 60, len: 40 }, Run { start: 41, len: 19 }];
    assert!(collapse(&runs).is_none());
    // A top run reaching the front forces a merge.
    let runs = vec![Run { start: 50, len: 50 }, Run { start: 0, len: 50 }];
    assert_eq!(collapse(&runs), Some(0));
    // The second run no longer dominates the top run.
    let runs = vec![Run { start: 80, len: 20 }, Run { start: 50, len: 30 }];
    assert_eq!(collapse(&runs), Some(0));
    // Length-domination across the top three runs.
    let runs = vec![
        Run { start: 70, len: 30 },
        Run { start: 50, len: 20 },
        Run { start: 40, len: 10 },
    ];
    assert_eq!(collapse(&runs), Some(1));
    // The third-from-top being shorter than the top picks the deeper pair.
    let runs = vec![
        Run { start: 90, len: 8 },
        Run { start: 50, len: 40 },
        Run { start: 30, len: 20 },
    ];
    assert_eq!(collapse(&runs), Some(0));
    // Four balanced runs demand nothing; the fourth-run check fires when it
    // stops dominating.
    let runs = vec![
        Run { start: 60, len: 40 },
        Run { start: 40, len: 20 },
        Run { start: 31, len: 9 },
        Run { start: 27, len: 4 },
    ];
    assert!(collapse(&runs).is_none());
    let runs = vec![
        Run { start: 75, len: 25 },
        Run { start: 55, len: 20 },
        Run { start: 46, len: 9 },
        Run { start: 42, len: 4 },
    ];
    assert_eq!(collapse(&runs), Some(2));
}

#[test]
fn checker_functions() {
    let a = vec![3, 1, 2];
    let b = vec![1, 2, 3];
    assert!(same_elements(&a, &b));
    let c = vec![1, 2, 4];
    assert!(!same_elements(&a, &c));
    assert!(is_sorted(&b));
    assert!(!is_sorted(&a));
    let d = copied(&a);
    assert!(vec_equal(&a, &d));
    assert!(!vec_equal(&a, &b));
    let mut e = vec![5, 2, 8];
    assert!(sort_comp::<i32, CoreSort>(&mut e));
    assert_eq!(e, vec![2, 5, 8]);
}
