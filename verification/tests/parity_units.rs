use stable_sort::order::{KeyOrder, NaturalOrder};
use stable_sort::parity::{finish_down, finish_up, merge_down, merge_up, parity_merge, parity_merge8};

#[test]
fn merge_up_exact() {
    let src = vec![2, 3, 4, 7, 0, 1, 6, 8];
    let mut dest = vec![-1; 8];
    let (il, ir, id) = merge_up(&src, 0, 4, &mut dest, 0, &NaturalOrder);
    // The right head 0 is less: both candidates written, right consumed.
    assert_eq!((il, ir, id), (0, 5, 1));
    assert_eq!(&dest[0..2], &[0, 2]);
}

#[test]
fn merge_down_exact() {
    let src = vec![2, 3, 4, 7, 0, 1, 6, 8];
    let mut dest = vec![-1; 8];
    let (il, ir, id) = merge_down(&src, 3, 7, &mut dest, 7, &NaturalOrder);
    // The right last 8 is greater: both written, right consumed.
    assert_eq!((il, ir, id), (3, 6, 6));
    assert_eq!(&dest[6..8], &[7, 8]);
}

#[test]
fn finishes_exact() {
    let src = vec![5, 9];
    let mut dest = vec![0; 2];
    finish_up(&src, 0, 1, &mut dest, 0, &NaturalOrder);
    assert_eq!(dest[0], 5);
    finish_down(&src, 0, 1, &mut dest, 1, &NaturalOrder);
    assert_eq!(dest[1], 9);
}

#[test]
fn parity_merge8_exact() {
    let src = vec![2, 3, 4, 7, 0, 1, 6, 8];
    let mut dest = vec![-1; 8];
    parity_merge8(&src, 0, &mut dest, 0, &NaturalOrder);
    assert_eq!(dest, vec![0, 1, 2, 3, 4, 6, 7, 8]);
}

#[test]
fn parity_merge8_offsets_and_frame() {
    let src = vec![99, 1, 3, 5, 7, 2, 4, 6, 8, 99];
    let mut dest = vec![-1; 10];
    parity_merge8(&src, 1, &mut dest, 1, &NaturalOrder);
    assert_eq!(dest, vec![-1, 1, 2, 3, 4, 5, 6, 7, 8, -1]);
}

#[test]
fn parity_merge8_stable_on_ties() {
    let src: Vec<(i32, i32)> = vec![
        (0, 0),
        (1, 1),
        (1, 2),
        (2, 3),
        (0, 4),
        (1, 5),
        (2, 6),
        (2, 7),
    ];
    let mut dest: Vec<(i32, i32)> = vec![(-1, -1); 8];
    parity_merge8(&src, 0, &mut dest, 0, &KeyOrder);
    // Equal keys: the left half's elements come first.
    assert_eq!(
        dest,
        vec![
            (0, 0),
            (0, 4),
            (1, 1),
            (1, 2),
            (1, 5),
            (2, 3),
            (2, 6),
            (2, 7),
        ]
    );
}

#[test]
fn parity_merge_wide() {
    let mut src: Vec<i32> = Vec::new();
    for i in 0..8 {
        src.push(i * 2);
    }
    for i in 0..8 {
        src.push(i * 2 + 1);
    }
    let mut dest = vec![-1; 16];
    parity_merge(&src, 0, &mut dest, 0, 8, &NaturalOrder);
    let expected: Vec<i32> = (0..16).collect();
    assert_eq!(dest, expected);
}

#[test]
fn parity_merge_single_blocks() {
    let src = vec![9, 4];
    let mut dest = vec![0; 2];
    parity_merge(&src, 0, &mut dest, 0, 1, &NaturalOrder);
    assert_eq!(dest, vec![4, 9]);
}
