use stable_sort::patterns::{
    all_equal, ascending, descending, lcg_step, pipe_organ, random, random_init_seed,
    random_sorted, random_uniform, random_zipf, saw_ascending, saw_descending, saw_mixed,
    saw_mixed_range, RANDOM_SEED,
};

#[test]
fn ascending_exact() {
    assert_eq!(ascending(5), vec![0, 1, 2, 3, 4]);
    assert_eq!(ascending(0), Vec::<i32>::new());
}

#[test]
fn descending_exact() {
    assert_eq!(descending(5), vec![4, 3, 2, 1, 0]);
}

#[test]
fn all_equal_exact() {
    assert_eq!(all_equal(4), vec![0, 0, 0, 0]);
}

#[test]
fn pipe_organ_exact() {
    assert_eq!(pipe_organ(6), vec![0, 1, 2, 2, 1, 0]);
    assert_eq!(pipe_organ(5), vec![0, 1, 2, 1, 0]);
}

#[test]
fn saw_teeth_exact() {
    // Twelve elements in three teeth of four.
    assert_eq!(saw_ascending(12, 3), vec![0, 1, 2, 3, 0, 1, 2, 3, 0, 1, 2, 3]);
    assert_eq!(saw_descending(12, 3), vec![3, 2, 1, 0, 3, 2, 1, 0, 3, 2, 1, 0]);
    assert_eq!(saw_mixed(12, 3), vec![0, 1, 2, 3, 3, 2, 1, 0, 0, 1, 2, 3]);
}

#[test]
fn generator_step_exact() {
    assert_eq!(lcg_step(RANDOM_SEED), 0x2ceaee21bf46bc00);
    assert_eq!(lcg_step(0x2ceaee21bf46bc00), 0xaa80754d1a1a8d4f);
}

#[test]
fn random_first_values_exact() {
    let v = random(2);
    assert_eq!(v, vec![-696944880, 356530854]);
}

#[test]
fn random_is_deterministic() {
    assert_eq!(random(50), random(50));
    assert_eq!(random_init_seed(), random_init_seed());
    assert_eq!(random_init_seed(), RANDOM_SEED);
}

#[test]
fn uniform_bounds() {
    let v = random_uniform(200, -5, 9);
    assert_eq!(v.len(), 200);
    assert!(v.iter().all(|x| -5 <= *x && *x <= 9));
    let w = random_uniform(100, 3, 3);
    assert!(w.iter().all(|x| *x == 3));
}

#[test]
fn zipf_first_ranks_exact() {
    // The first draw folds to u = 188398473; harmonic skew divides it out
    // of 2^120, steeper skew squares it first.
    let z1 = random_zipf(1, 100);
    assert_eq!(z1, vec![95]);
    let z2 = random_zipf(1, 200);
    assert_eq!(z2, vec![136]);
}

#[test]
fn mixed_range_first_teeth_exact() {
    // The first two teeth have pseudo-random lengths 44 and 43: one
    // ascending, one descending.
    let v = saw_mixed_range(90, 20, 50);
    for j in 0..44 {
        assert_eq!(v[j], j as i32);
    }
    for j in 0..43 {
        assert_eq!(v[44 + j], 42 - j as i32);
    }
}

#[test]
fn zipf_bounds_and_skew() {
    for skew in [100u64, 103, 200] {
        let v = random_zipf(500, skew);
        assert_eq!(v.len(), 500);
        assert!(v.iter().all(|x| 0 <= *x && *x < 1024));
    }
}

#[test]
fn sorted_prefix() {
    let v = random_sorted(200, 95);
    assert_eq!(v.len(), 200);
    for k in 0..190 {
        assert_eq!(v[k], k as i32);
    }
    let w = random_sorted(100, 50);
    for k in 0..50 {
        assert_eq!(w[k], k as i32);
    }
}

#[test]
fn mixed_range_lengths() {
    let v = saw_mixed_range(300, 20, 50);
    assert_eq!(v.len(), 300);
    assert!(v.iter().all(|x| 0 <= *x && *x <= 50));
}
