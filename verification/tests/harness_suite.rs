use stable_sort::harness::{
    all_equal, ascending, basic, descending, deterministic_i32, fixed_seed, int_edge,
    observable_is_less, panic_observable_is_less_i32, panic_retain_original_set_i32, pipe_organ,
    random, random_binary, random_d1024, random_d16, random_d256, random_d4, random_d8,
    random_narrow, random_s50, random_s95, random_type_u128, random_type_u64, random_z1,
    random_z1_03, random_z2, saw_ascending, saw_descending, saw_mixed, saw_mixed_range,
    self_cmp_i32, sort_vs_sort_by, stability, stability_with_patterns,
    violate_ord_retain_original_set_i32, CoreSort,
};

#[test]
fn harness_basic() {
    assert!(basic::<CoreSort>());
}

#[test]
fn harness_fixed_seed() {
    assert!(fixed_seed::<CoreSort>());
}

#[test]
fn harness_random() {
    assert!(random::<CoreSort>());
}

#[test]
fn harness_random_type_u64() {
    assert!(random_type_u64::<CoreSort>());
}

#[test]
fn harness_random_type_u128() {
    assert!(random_type_u128::<CoreSort>());
}

#[test]
fn harness_random_d4() {
    assert!(random_d4::<CoreSort>());
}

#[test]
fn harness_random_d8() {
    assert!(random_d8::<CoreSort>());
}

#[test]
fn harness_random_d16() {
    assert!(random_d16::<CoreSort>());
}

#[test]
fn harness_random_d256() {
    assert!(random_d256::<CoreSort>());
}

#[test]
fn harness_random_d1024() {
    assert!(random_d1024::<CoreSort>());
}

#[test]
fn harness_random_z1() {
    assert!(random_z1::<CoreSort>());
}

#[test]
fn harness_random_z1_03() {
    assert!(random_z1_03::<CoreSort>());
}

#[test]
fn harness_random_z2() {
    assert!(random_z2::<CoreSort>());
}

#[test]
fn harness_random_s50() {
    assert!(random_s50::<CoreSort>());
}

#[test]
fn harness_random_s95() {
    assert!(random_s95::<CoreSort>());
}

#[test]
fn harness_random_narrow() {
    assert!(random_narrow::<CoreSort>());
}

#[test]
fn harness_random_binary() {
    assert!(random_binary::<CoreSort>());
}

#[test]
fn harness_all_equal() {
    assert!(all_equal::<CoreSort>());
}

#[test]
fn harness_ascending() {
    assert!(ascending::<CoreSort>());
}

#[test]
fn harness_descending() {
    assert!(descending::<CoreSort>());
}

#[test]
fn harness_saw_ascending() {
    assert!(saw_ascending::<CoreSort>());
}

#[test]
fn harness_saw_descending() {
    assert!(saw_descending::<CoreSort>());
}

#[test]
fn harness_saw_mixed() {
    assert!(saw_mixed::<CoreSort>());
}

#[test]
fn harness_saw_mixed_range() {
    assert!(saw_mixed_range::<CoreSort>());
}

#[test]
fn harness_pipe_organ() {
    assert!(pipe_organ::<CoreSort>());
}

#[test]
fn harness_stability() {
    assert!(stability::<CoreSort>());
}

#[test]
fn harness_stability_with_patterns() {
    assert!(stability_with_patterns::<CoreSort>());
}

#[test]
fn harness_observable_is_less() {
    assert!(observable_is_less::<CoreSort>());
}

#[test]
fn harness_panic_retain_original_set_i32() {
    assert!(panic_retain_original_set_i32::<CoreSort>());
}

#[test]
fn harness_panic_observable_is_less_i32() {
    assert!(panic_observable_is_less_i32::<CoreSort>());
}

#[test]
fn harness_deterministic_i32() {
    assert!(deterministic_i32::<CoreSort>());
}

#[test]
fn harness_self_cmp_i32() {
    assert!(self_cmp_i32::<CoreSort>());
}

#[test]
fn harness_violate_ord_retain_original_set_i32() {
    assert!(violate_ord_retain_original_set_i32::<CoreSort>());
}

#[test]
fn harness_sort_vs_sort_by() {
    assert!(sort_vs_sort_by::<CoreSort>());
}

#[test]
fn harness_int_edge() {
    assert!(int_edge::<CoreSort>());
}
