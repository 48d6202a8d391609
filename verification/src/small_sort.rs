//! The small-extent sorter: fixed-size exchange networks for tiny ranges.
//!
//! Sizes two to four are sorted by a fixed pattern of conditional
//! exchanges of neighbouring slots.  Sizes eight and sixteen sort their
//! four-element quadrants with the network, check the boundary elements —
//! which ends the work when the quadrants happen to be globally ordered —
//! and otherwise fuse the quadrants with the guarded scratch-buffer merge,
//! whose every exit path keeps each element exactly once, whatever the
//! comparator answers.

use vstd::prelude::*;
use vstd::relations::sorted_by;

use crate::classes::{lemma_classes_rotate, lemma_classes_trans, lemma_multiset_rotate};
use crate::insertion::is_less_in;
use crate::merge::merge;
use crate::order::{
    classes_preserved, equiv, le_of, lemma_adjacent_sorted, valid_cmp, Comparator,
};

verus! {

/// Exchanges `v[i]` with its right neighbour when the neighbour comes
/// strictly first, leaving the pair in order.
pub fn swap_next_if_less<T: Copy, C: Comparator<T>>(v: &mut Vec<T>, i: usize, c: &C)
    requires
        i + 1 < old(v)@.len(),
    ensures
        final(v)@.len() == old(v)@.len(),
        c.lt(old(v)@[i + 1], old(v)@[i as int]) ==> final(v)@ == old(v)@.update(
            i as int,
            old(v)@[i + 1],
        ).update(i + 1, old(v)@[i as int]),
        !c.lt(old(v)@[i + 1], old(v)@[i as int]) ==> final(v)@ == old(v)@,
        final(v)@.to_multiset() == old(v)@.to_multiset(),
        valid_cmp(*c) ==> classes_preserved(*c, old(v)@, final(v)@),
        valid_cmp(*c) ==> !c.lt(final(v)@[i + 1], final(v)@[i as int]),
{
    let ghost orig = v@;
    let n = v.len();
    let should_swap = is_less_in(c, v, i + 1, i);
    if should_swap {
        let x = v[i];
        let y = v[i + 1];
        v[i] = y;
        v[i + 1] = x;
        proof {
            let ii = i as int;
            let n = orig.len() as int;
            assert(v@ =~= orig.update(ii, orig[ii + 1]).update(ii + 1, orig[ii]));
            let a = orig.subrange(0, ii);
            let m = seq![orig[ii]];
            let e = orig[ii + 1];
            let b = orig.subrange(ii + 2, n);
            assert(orig =~= a + m + seq![e] + b);
            assert(v@ =~= a + seq![e] + m + b);
            lemma_multiset_rotate(a, m, e, b);
            if valid_cmp(*c) {
                assert forall|k: int| 0 <= k < m.len() implies !equiv(*c, e, #[trigger] m[k]) by {}
                lemma_classes_rotate(*c, a, m, e, b);
                assert(!c.lt(v@[ii + 1], v@[ii])) by {
                    let le = le_of(*c);
                    assert(le(orig[ii + 1], orig[ii]) || le(orig[ii], orig[ii + 1]));
                }
            }
        }
    }
}

/// Sorts the two elements at `lo`.
pub fn sort2<T: Copy, C: Comparator<T>>(v: &mut Vec<T>, lo: usize, c: &C)
    requires
        lo + 2 <= old(v)@.len(),
    ensures
        final(v)@.len() == old(v)@.len(),
        final(v)@.subrange(0, lo as int) == old(v)@.subrange(0, lo as int),
        final(v)@.subrange(lo + 2, old(v)@.len() as int) == old(v)@.subrange(
            lo + 2,
            old(v)@.len() as int,
        ),
        final(v)@.to_multiset() == old(v)@.to_multiset(),
        valid_cmp(*c) ==> classes_preserved(*c, old(v)@, final(v)@),
        valid_cmp(*c) ==> sorted_by(final(v)@.subrange(lo as int, lo + 2), le_of(*c)),
{
    let ghost orig = v@;
    let n = v.len();
    swap_next_if_less(v, lo, c);
    proof {
        assert(final(v)@.subrange(0, lo as int) =~= orig.subrange(0, lo as int));
        assert(final(v)@.subrange(lo + 2, orig.len() as int) =~= orig.subrange(
            lo + 2,
            orig.len() as int,
        ));
        if valid_cmp(*c) {
            let sub = final(v)@.subrange(lo as int, lo + 2);
            assert forall|m: int| 0 <= m < sub.len() - 1 implies !c.lt(
                #[trigger] sub[m + 1],
                sub[m],
            ) by {
                assert(!c.lt(v@[lo + 1], v@[lo as int]));
            }
            lemma_adjacent_sorted(*c, sub);
        }
    }
}

/// Sorts the three elements at `lo` with three conditional exchanges.
pub fn sort3<T: Copy, C: Comparator<T>>(v: &mut Vec<T>, lo: usize, c: &C)
    requires
        lo + 3 <= old(v)@.len(),
    ensures
        final(v)@.len() == old(v)@.len(),
        final(v)@.subrange(0, lo as int) == old(v)@.subrange(0, lo as int),
        final(v)@.subrange(lo + 3, old(v)@.len() as int) == old(v)@.subrange(
            lo + 3,
            old(v)@.len() as int,
        ),
        final(v)@.to_multiset() == old(v)@.to_multiset(),
        valid_cmp(*c) ==> classes_preserved(*c, old(v)@, final(v)@),
        valid_cmp(*c) ==> sorted_by(final(v)@.subrange(lo as int, lo + 3), le_of(*c)),
{
    let ghost orig = v@;
    let ghost le = le_of(*c);
    let n = v.len();
    let ghost g0 = v@;
    swap_next_if_less(v, lo, c);
    let ghost g1 = v@;
    swap_next_if_less(v, lo + 1, c);
    let ghost g2 = v@;
    swap_next_if_less(v, lo, c);
    proof {
        let li = lo as int;
        assert(final(v)@.subrange(0, li) =~= orig.subrange(0, li));
        assert(final(v)@.subrange(li + 3, orig.len() as int) =~= orig.subrange(
            li + 3,
            orig.len() as int,
        ));
        if valid_cmp(*c) {
            lemma_classes_trans(*c, g0, g1, g2);
            lemma_classes_trans(*c, g0, g2, v@);
            // Neighbours are in order after the three exchanges.
            assert(!c.lt(v@[li + 1], v@[li]));
            assert(!c.lt(v@[li + 2], v@[li + 1])) by {
                assert(!c.lt(g2[li + 2], g2[li + 1]));
                assert(v@[li + 2] == g2[li + 2]);
                if c.lt(g2[li + 1], g2[li]) {
                    // The final exchange moved the old head up one slot; it
                    // is still below the last element.
                    assert(v@[li + 1] == g2[li]);
                    assert(!c.lt(g1[li + 1], g1[li]));
                    assert(g2[li] == g1[li]);
                    if c.lt(g1[li + 2], g1[li + 1]) {
                        assert(g2[li + 2] == g1[li + 1]);
                        assert(le(g1[li], g1[li + 1]));
                    } else {
                        assert(g2[li + 2] == g1[li + 2] && g2[li + 1] == g1[li + 1]);
                        assert(le(g1[li], g1[li + 1]));
                        assert(le(g1[li + 1], g1[li + 2]));
                        assert(le(g1[li], g1[li + 2]));
                    }
                } else {
                    assert(v@ == g2);
                }
            }
            let sub = final(v)@.subrange(li, li + 3);
            assert forall|m: int| 0 <= m < sub.len() - 1 implies !c.lt(
                #[trigger] sub[m + 1],
                sub[m],
            ) by {
                assert(sub[m] == v@[li + m] && sub[m + 1] == v@[li + m + 1]);
            }
            lemma_adjacent_sorted(*c, sub);
        }
    }
}

/// Sorts the four elements at `lo`: both halves are put in order, and when
/// the two middle elements disagree the halves are interleaved with three
/// more conditional exchanges.
pub fn sort4<T: Copy, C: Comparator<T>>(v: &mut Vec<T>, lo: usize, c: &C)
    requires
        lo + 4 <= old(v)@.len(),
    ensures
        final(v)@.len() == old(v)@.len(),
        final(v)@.subrange(0, lo as int) == old(v)@.subrange(0, lo as int),
        final(v)@.subrange(lo + 4, old(v)@.len() as int) == old(v)@.subrange(
            lo + 4,
            old(v)@.len() as int,
        ),
        final(v)@.to_multiset() == old(v)@.to_multiset(),
        valid_cmp(*c) ==> classes_preserved(*c, old(v)@, final(v)@),
        valid_cmp(*c) ==> sorted_by(final(v)@.subrange(lo as int, lo + 4), le_of(*c)),
{
    let ghost orig = v@;
    let n = v.len();
    swap_next_if_less(v, lo, c);
    let ghost g1 = v@;
    swap_next_if_less(v, lo + 2, c);
    let ghost g2 = v@;
    if is_less_in(c, v, lo + 2, lo + 1) {
        // The halves overlap: exchange the middle pair, then repair both
        // halves and the middle again.
        let x = v[lo + 1];
        let y = v[lo + 2];
        v[lo + 1] = y;
        v[lo + 2] = x;
        proof {
            let i1 = lo + 1int;
            let nn = orig.len() as int;
            assert(v@ =~= g2.update(i1, g2[i1 + 1]).update(i1 + 1, g2[i1]));
            let a = g2.subrange(0, i1);
            let m = seq![g2[i1]];
            let e = g2[i1 + 1];
            let b = g2.subrange(i1 + 2, nn);
            assert(g2 =~= a + m + seq![e] + b);
            assert(v@ =~= a + seq![e] + m + b);
            lemma_multiset_rotate(a, m, e, b);
            if valid_cmp(*c) {
                assert forall|k: int| 0 <= k < m.len() implies !equiv(*c, e, #[trigger] m[k]) by {}
                lemma_classes_rotate(*c, a, m, e, b);
            }
        }
        let ghost g3 = v@;
        swap_next_if_less(v, lo, c);
        let ghost g4 = v@;
        swap_next_if_less(v, lo + 2, c);
        let ghost g5 = v@;
        swap_next_if_less(v, lo + 1, c);
        proof {
            let l0 = lo as int;
            let l1 = lo + 1int;
            let l2 = lo + 2int;
            let l3 = lo + 3int;
            assert(final(v)@.subrange(0, l0) =~= orig.subrange(0, l0));
            assert(final(v)@.subrange(l0 + 4, orig.len() as int) =~= orig.subrange(
                l0 + 4,
                orig.len() as int,
            ));
            if valid_cmp(*c) {
                lemma_classes_trans(*c, orig, g1, g2);
                lemma_classes_trans(*c, orig, g2, g3);
                lemma_classes_trans(*c, orig, g3, g4);
                lemma_classes_trans(*c, orig, g4, g5);
                lemma_classes_trans(*c, orig, g5, v@);
                // The four values after the middle exchange: the lower half
                // held aa then bb, the upper dd then ee, and the exchange
                // put dd — strictly below bb — before bb.
                let aa = g3[l0];
                let dd = g3[l1];
                let bb = g3[l2];
                let ee = g3[l3];
                assert(!c.lt(bb, aa)) by {
                    assert(!c.lt(g1[l1], g1[l0]));
                }
                assert(!c.lt(ee, dd)) by {
                    assert(!c.lt(g2[l3], g2[l2]));
                }
                assert(c.lt(dd, bb));
                crate::order::lemma_lt_asym(*c, dd, bb);
                // Walk the three repairs: each leaf closes with the facts
                // the branch conditions provide.
                if c.lt(dd, aa) {
                    assert(g4 =~= g3.update(l0, dd).update(l1, aa));
                    crate::order::lemma_lt_asym(*c, dd, aa);
                    if c.lt(ee, bb) {
                        assert(g5 =~= g4.update(l2, ee).update(l3, bb));
                        crate::order::lemma_lt_asym(*c, ee, bb);
                        if c.lt(ee, aa) {
                            assert(v@ =~= g5.update(l1, ee).update(l2, aa));
                            crate::order::lemma_lt_asym(*c, ee, aa);
                        } else {
                            assert(v@ =~= g5);
                        }
                    } else {
                        assert(g5 =~= g4);
                        assert(!c.lt(g5[l2], g5[l1]));
                        assert(v@ =~= g5);
                    }
                } else {
                    assert(g4 =~= g3);
                    if c.lt(ee, bb) {
                        assert(g5 =~= g4.update(l2, ee).update(l3, bb));
                        crate::order::lemma_lt_asym(*c, ee, bb);
                        assert(!c.lt(g5[l2], g5[l1]));
                        assert(v@ =~= g5);
                    } else {
                        assert(g5 =~= g4);
                        assert(!c.lt(g5[l2], g5[l1]));
                        assert(v@ =~= g5);
                    }
                }
                assert(!c.lt(v@[l1], v@[l0]));
                assert(!c.lt(v@[l2], v@[l1]));
                assert(!c.lt(v@[l3], v@[l2]));
                let sub = final(v)@.subrange(l0, l0 + 4);
                assert forall|m: int| 0 <= m < sub.len() - 1 implies !c.lt(
                    #[trigger] sub[m + 1],
                    sub[m],
                ) by {
                    assert(sub[m] == v@[l0 + m] && sub[m + 1] == v@[l0 + m + 1]);
                }
                lemma_adjacent_sorted(*c, sub);
            }
        }
    } else {
        proof {
            let l0 = lo as int;
            assert(final(v)@.subrange(0, l0) =~= orig.subrange(0, l0));
            assert(final(v)@.subrange(l0 + 4, orig.len() as int) =~= orig.subrange(
                l0 + 4,
                orig.len() as int,
            ));
            if valid_cmp(*c) {
                lemma_classes_trans(*c, orig, g1, v@);
                assert(!c.lt(v@[l0 + 1], v@[l0]));
                assert(!c.lt(v@[l0 + 2], v@[l0 + 1]));
                assert(!c.lt(v@[l0 + 3], v@[l0 + 2]));
                let sub = final(v)@.subrange(l0, l0 + 4);
                assert forall|m: int| 0 <= m < sub.len() - 1 implies !c.lt(
                    #[trigger] sub[m + 1],
                    sub[m],
                ) by {
                    assert(sub[m] == v@[l0 + m] && sub[m + 1] == v@[l0 + m + 1]);
                }
                lemma_adjacent_sorted(*c, sub);
            }
        }
    }
}

/// Sorts the eight elements at `lo`: both four-element quadrants are
/// sorted by the network; a single boundary comparison detects the case
/// where the halves are already globally ordered, and otherwise the halves
/// are fused with the guarded merge.
pub fn sort8<T: Copy, C: Comparator<T>>(v: &mut Vec<T>, lo: usize, c: &C)
    requires
        lo + 8 <= old(v)@.len(),
    ensures
        final(v)@.len() == old(v)@.len(),
        final(v)@.subrange(0, lo as int) == old(v)@.subrange(0, lo as int),
        final(v)@.subrange(lo + 8, old(v)@.len() as int) == old(v)@.subrange(
            lo + 8,
            old(v)@.len() as int,
        ),
        final(v)@.to_multiset() == old(v)@.to_multiset(),
        valid_cmp(*c) ==> classes_preserved(*c, old(v)@, final(v)@),
        valid_cmp(*c) ==> sorted_by(final(v)@.subrange(lo as int, lo + 8), le_of(*c)),
{
    let ghost orig = v@;
    let ghost le = le_of(*c);
    let n = v.len();
    sort4(v, lo, c);
    let ghost g1 = v@;
    sort4(v, lo + 4, c);
    let ghost g2 = v@;
    proof {
        let l0 = lo as int;
        crate::classes::lemma_frames(orig, g1, l0, l0 + 4);
        crate::classes::lemma_frames(g1, g2, l0 + 4, l0 + 8);
        if valid_cmp(*c) {
            lemma_classes_trans(*c, orig, g1, g2);
            assert(sorted_by(g2.subrange(l0, l0 + 4), le)) by {
                assert(g2.subrange(l0, l0 + 4) =~= g1.subrange(l0, l0 + 4));
            }
            assert(sorted_by(g2.subrange(l0 + 4, l0 + 8), le));
        }
    }
    if !is_less_in(c, v, lo + 4, lo + 3) {
        proof {
            let l0 = lo as int;
            assert(final(v)@.subrange(0, l0) =~= orig.subrange(0, l0));
            assert(final(v)@.subrange(l0 + 8, orig.len() as int) =~= orig.subrange(
                l0 + 8,
                orig.len() as int,
            ));
            if valid_cmp(*c) {
                let a = g2.subrange(l0, l0 + 4);
                let b = g2.subrange(l0 + 4, l0 + 8);
                crate::merge_spec::lemma_sorted_concat(*c, a, b);
                assert(final(v)@.subrange(l0, l0 + 8) =~= a + b);
            }
        }
        return ;
    }
    let mut buf: Vec<T> = Vec::new();
    merge(v, lo, lo + 4, lo + 8, &mut buf, c);
    proof {
        let l0 = lo as int;
        crate::classes::lemma_frames(g2, v@, l0, l0 + 8);
        assert(final(v)@.subrange(0, l0) =~= orig.subrange(0, l0));
        assert(final(v)@.subrange(l0 + 8, orig.len() as int) =~= orig.subrange(
            l0 + 8,
            orig.len() as int,
        ));
        if valid_cmp(*c) {
            lemma_classes_trans(*c, orig, g2, v@);
        }
    }
}

/// Sorts the sixteen elements at `lo`: the four quadrants are sorted by the
/// network; three boundary comparisons detect an already ordered whole, and
/// otherwise the quadrants are fused pairwise and then in one final merge.
pub fn sort16<T: Copy, C: Comparator<T>>(v: &mut Vec<T>, lo: usize, c: &C)
    requires
        lo + 16 <= old(v)@.len(),
    ensures
        final(v)@.len() == old(v)@.len(),
        final(v)@.subrange(0, lo as int) == old(v)@.subrange(0, lo as int),
        final(v)@.subrange(lo + 16, old(v)@.len() as int) == old(v)@.subrange(
            lo + 16,
            old(v)@.len() as int,
        ),
        final(v)@.to_multiset() == old(v)@.to_multiset(),
        valid_cmp(*c) ==> classes_preserved(*c, old(v)@, final(v)@),
        valid_cmp(*c) ==> sorted_by(final(v)@.subrange(lo as int, lo + 16), le_of(*c)),
{
    let ghost orig = v@;
    let ghost le = le_of(*c);
    let n = v.len();
    sort4(v, lo, c);
    let ghost h1 = v@;
    sort4(v, lo + 4, c);
    let ghost h2 = v@;
    sort4(v, lo + 8, c);
    let ghost h3 = v@;
    sort4(v, lo + 12, c);
    let ghost g4 = v@;
    proof {
        let l0 = lo as int;
        crate::classes::lemma_frames(orig, h1, l0, l0 + 4);
        crate::classes::lemma_frames(h1, h2, l0 + 4, l0 + 8);
        crate::classes::lemma_frames(h2, h3, l0 + 8, l0 + 12);
        crate::classes::lemma_frames(h3, g4, l0 + 12, l0 + 16);
        if valid_cmp(*c) {
            lemma_classes_trans(*c, orig, h1, h2);
            lemma_classes_trans(*c, orig, h2, h3);
            lemma_classes_trans(*c, orig, h3, g4);
            assert(quadrants_sorted(*c, g4, l0)) by {
                assert(g4.subrange(l0, l0 + 4) =~= h1.subrange(l0, l0 + 4));
                assert(g4.subrange(l0 + 4, l0 + 8) =~= h2.subrange(l0 + 4, l0 + 8));
                assert(g4.subrange(l0 + 8, l0 + 12) =~= h3.subrange(l0 + 8, l0 + 12));
            }
        }
    }
    let ordered_bounds = !is_less_in(c, v, lo + 4, lo + 3) && !is_less_in(c, v, lo + 8, lo + 7)
        && !is_less_in(c, v, lo + 12, lo + 11);
    if ordered_bounds {
        proof {
            let l0 = lo as int;
            crate::classes::lemma_frames(orig, h1, l0, l0 + 4);
            crate::classes::lemma_frames(h1, h2, l0 + 4, l0 + 8);
            crate::classes::lemma_frames(h2, h3, l0 + 8, l0 + 12);
            crate::classes::lemma_frames(h3, g4, l0 + 12, l0 + 16);
            assert(final(v)@.subrange(0, l0) =~= orig.subrange(0, l0));
            assert(final(v)@.subrange(l0 + 16, orig.len() as int) =~= orig.subrange(
                l0 + 16,
                orig.len() as int,
            ));
            if valid_cmp(*c) {
                assert(quadrants_sorted(*c, g4, l0));
                let q1 = g4.subrange(l0, l0 + 4);
                let q2 = g4.subrange(l0 + 4, l0 + 8);
                let q3 = g4.subrange(l0 + 8, l0 + 12);
                let q4 = g4.subrange(l0 + 12, l0 + 16);
                crate::merge_spec::lemma_sorted_concat(*c, q1, q2);
                assert((q1 + q2).last() == g4[l0 + 7] && q3.first() == g4[l0 + 8]);
                crate::merge_spec::lemma_sorted_concat(*c, q1 + q2, q3);
                assert((q1 + q2 + q3).last() == g4[l0 + 11] && q4.first() == g4[l0 + 12]);
                crate::merge_spec::lemma_sorted_concat(*c, q1 + q2 + q3, q4);
                assert(final(v)@.subrange(l0, l0 + 16) =~= q1 + q2 + q3 + q4);
            }
        }
        return ;
    }
    let mut buf: Vec<T> = Vec::new();
    merge(v, lo, lo + 4, lo + 8, &mut buf, c);
    let ghost g5 = v@;
    proof {
        let l0 = lo as int;
        crate::classes::lemma_frames(g4, g5, l0, l0 + 8);
        if valid_cmp(*c) {
            lemma_classes_trans(*c, orig, g4, g5);
            assert(sorted_by(g5.subrange(l0 + 8, l0 + 12), le) && sorted_by(
                g5.subrange(l0 + 12, l0 + 16),
                le,
            )) by {
                assert(g5.subrange(l0 + 8, l0 + 12) =~= g4.subrange(l0 + 8, l0 + 12));
                assert(g5.subrange(l0 + 12, l0 + 16) =~= g4.subrange(l0 + 12, l0 + 16));
            }
        }
    }
    merge(v, lo + 8, lo + 12, lo + 16, &mut buf, c);
    let ghost g6 = v@;
    proof {
        let l0 = lo as int;
        crate::classes::lemma_frames(g5, g6, l0 + 8, l0 + 16);
        if valid_cmp(*c) {
            lemma_classes_trans(*c, orig, g5, g6);
            assert(sorted_by(g6.subrange(l0, l0 + 8), le)) by {
                assert(g6.subrange(l0, l0 + 8) =~= g5.subrange(l0, l0 + 8));
            }
            assert(sorted_by(g6.subrange(l0 + 8, l0 + 16), le));
        }
    }
    merge(v, lo, lo + 8, lo + 16, &mut buf, c);
    proof {
        let l0 = lo as int;
        crate::classes::lemma_frames(orig, h1, l0, l0 + 4);
        crate::classes::lemma_frames(h1, h2, l0 + 4, l0 + 8);
        crate::classes::lemma_frames(h2, h3, l0 + 8, l0 + 12);
        crate::classes::lemma_frames(h3, g4, l0 + 12, l0 + 16);
        crate::classes::lemma_frames(g4, g5, l0, l0 + 8);
        crate::classes::lemma_frames(g5, g6, l0 + 8, l0 + 16);
        crate::classes::lemma_frames(g6, v@, l0, l0 + 16);
        assert(final(v)@.subrange(0, l0) =~= orig.subrange(0, l0));
        assert(final(v)@.subrange(l0 + 16, orig.len() as int) =~= orig.subrange(
            l0 + 16,
            orig.len() as int,
        ));
        if valid_cmp(*c) {
            lemma_classes_trans(*c, orig, g6, v@);
        }
    }
}

/// All four quadrants of a sixteen-element range are sorted.
pub open spec fn quadrants_sorted<T, C: Comparator<T>>(c: C, s: Seq<T>, l0: int) -> bool {
    &&& sorted_by(s.subrange(l0, l0 + 4), le_of(c))
    &&& sorted_by(s.subrange(l0 + 4, l0 + 8), le_of(c))
    &&& sorted_by(s.subrange(l0 + 8, l0 + 12), le_of(c))
    &&& sorted_by(s.subrange(l0 + 12, l0 + 16), le_of(c))
}

} // verus!
