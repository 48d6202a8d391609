use stable_sort::engine::{sort, sort_by, stable_sort};
use stable_sort::order::{
    AlwaysLess, Blank, CutOrder, EqualMeansLess, FaultyBelow, KeyOrder, NaturalOrder, NeverLess,
};

#[test]
fn empty_and_single() {
    let mut v: Vec<i32> = Vec::new();
    sort(&mut v);
    assert_eq!(v, Vec::<i32>::new());
    let mut w = vec![42];
    sort(&mut w);
    assert_eq!(w, vec![42]);
}

#[test]
fn small_fixed_vectors() {
    let mut v = vec![2, 3];
    sort(&mut v);
    assert_eq!(v, vec![2, 3]);
    let mut v = vec![3, 2];
    sort(&mut v);
    assert_eq!(v, vec![2, 3]);
    let mut v = vec![2, 3, 99, 6];
    sort(&mut v);
    assert_eq!(v, vec![2, 3, 6, 99]);
    let mut v = vec![15, -1, 3, -1, -3, -1, 7];
    sort(&mut v);
    assert_eq!(v, vec![-3, -1, -1, -1, 3, 7, 15]);
}

#[test]
fn sort_vs_sort_by_example() {
    // The same input through both entry points gives the same sorted output.
    let mut input_normal = vec![800, 3, -801, 5, -801, -3, 60, 200, 50, 7, 10];
    let expected = vec![-801, -801, -3, 3, 5, 7, 10, 50, 60, 200, 800];
    let mut input_sort_by = input_normal.clone();
    sort(&mut input_normal);
    sort_by(&mut input_sort_by, &NaturalOrder);
    assert_eq!(input_normal, expected);
    assert_eq!(input_sort_by, expected);
}

#[test]
fn int_edge_values() {
    let mut v = vec![i32::MIN, -3, i32::MAX, i32::MIN, 5];
    sort(&mut v);
    assert_eq!(v, vec![i32::MIN, i32::MIN, -3, 5, i32::MAX]);
    let mut w = vec![i32::MAX, i32::MIN];
    sort(&mut w);
    assert_eq!(w, vec![i32::MIN, i32::MAX]);
    let mut u = vec![u64::MAX, 3, u64::MIN, 5, u64::MIN, u64::MAX - 3, 60, 200, 50, 7, 10];
    sort(&mut u);
    assert_eq!(u, vec![0, 0, 3, 5, 7, 10, 50, 60, 200, u64::MAX - 3, u64::MAX]);
    let mut t = vec![0u128, u128::MAX, 7u128];
    sort(&mut t);
    assert_eq!(t, vec![0u128, 7u128, u128::MAX]);
}

#[test]
fn large_descending_and_sawtooth() {
    let n: i32 = 3000;
    let mut v: Vec<i32> = (0..n).rev().collect();
    sort(&mut v);
    let expected: Vec<i32> = (0..n).collect();
    assert_eq!(v, expected);
    let mut saw: Vec<i32> = (0..n).map(|i| i % 37).collect();
    stable_sort(&mut saw, &NaturalOrder);
    let mut expected2: Vec<i32> = (0..n).map(|i| i % 37).collect();
    expected2.sort();
    assert_eq!(saw, expected2);
}

#[test]
fn stability_concrete() {
    // Keys with duplicates; tags record the original positions.
    let mut v: Vec<(i32, i32)> = vec![(2, 0), (1, 1), (2, 2), (1, 3), (2, 4), (0, 5)];
    sort_by(&mut v, &KeyOrder);
    assert_eq!(v, vec![(0, 5), (1, 1), (1, 3), (2, 0), (2, 2), (2, 4)]);
}

#[test]
fn stability_long_runs() {
    // Equal keys spanning multiple runs and merges keep their input order.
    let n: i32 = 500;
    let mut v: Vec<(i32, i32)> = (0..n).map(|i| ((i * 7 % 5), i)).collect();
    sort_by(&mut v, &KeyOrder);
    for w in v.windows(2) {
        assert!(w[0].0 <= w[1].0);
        if w[0].0 == w[1].0 {
            assert!(w[0].1 < w[1].1);
        }
    }
    assert_eq!(v.len(), n as usize);
}

#[test]
fn deterministic_weak_order() {
    let cut = CutOrder { cut: 10 };
    let input: Vec<i32> = (0..400).map(|i| (i * 31) % 101 - 50).collect();
    let mut a = input.clone();
    let mut b = input.clone();
    sort_by(&mut a, &cut);
    sort_by(&mut b, &cut);
    assert_eq!(a, b);
    // The two bands are separated and each keeps its input order (stability).
    let below: Vec<i32> = input.iter().copied().filter(|x| *x < 10).collect();
    let above: Vec<i32> = input.iter().copied().filter(|x| *x >= 10).collect();
    let expected: Vec<i32> = below.into_iter().chain(above.into_iter()).collect();
    assert_eq!(a, expected);
}

#[test]
fn adversarial_comparators_keep_elements() {
    let input: Vec<i32> = (0..300).map(|i| (i * 17) % 89 - 40).collect();
    let mut expected = input.clone();
    expected.sort();

    let mut a = input.clone();
    sort_by(&mut a, &AlwaysLess);
    a.sort();
    assert_eq!(a, expected);

    let mut b = input.clone();
    sort_by(&mut b, &NeverLess);
    b.sort();
    assert_eq!(b, expected);

    let mut c = input.clone();
    sort_by(&mut c, &EqualMeansLess);
    c.sort();
    assert_eq!(c, expected);

    let mut d = input.clone();
    sort_by(&mut d, &FaultyBelow { threshold: 0 });
    d.sort();
    assert_eq!(d, expected);
}

#[test]
fn checksum_preserved_under_violation() {
    // The sum of the elements survives an order-violating comparator.
    let input: Vec<i32> = (0..257).map(|i| (i * 13) % 31 - 15).collect();
    let sum_before: i64 = input.iter().map(|x| *x as i64).sum();
    let mut v = input.clone();
    sort_by(&mut v, &FaultyBelow { threshold: 5 });
    let sum_after: i64 = v.iter().map(|x| *x as i64).sum();
    assert_eq!(sum_before, sum_after);
}

#[test]
fn zero_sized_elements() {
    let mut v = vec![Blank, Blank, Blank];
    sort(&mut v);
    assert_eq!(v, vec![Blank, Blank, Blank]);
    let mut w: Vec<Blank> = Vec::new();
    sort(&mut w);
    assert_eq!(w.len(), 0);
}

#[test]
fn deterministic_under_violation() {
    // Even a comparator that violates a total order is deterministic, so
    // two runs over the same input agree exactly.
    let input: Vec<i32> = (0..600).map(|i| (i * 23) % 157 - 70).collect();
    let mut a = input.clone();
    let mut b = input.clone();
    sort_by(&mut a, &FaultyBelow { threshold: 3 });
    sort_by(&mut b, &FaultyBelow { threshold: 3 });
    assert_eq!(a, b);
}
