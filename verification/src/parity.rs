//! The parity merge: two interleaved merge cursors walk two sorted halves
//! from both ends toward the middle, each step consuming one candidate and
//! writing both, so that the next step overwrites the speculative write.
//!
//! This is the fast fusion path for trivially relocatable elements.  Its
//! result is exact for a valid comparator; a comparator that violates a
//! total preorder can drive the two passes into consuming the same source
//! slot twice, which is why the engine's default path fuses runs with the
//! guarded scratch-buffer merge instead, keeping the multiset invariant
//! unconditional.

use vstd::prelude::*;
use vstd::relations::sorted_by;

use crate::insertion::is_less_in;
use crate::merge_spec::{
    lemma_merge_len_multiset, lemma_merge_unfold_back, lemma_sorted_subrange, merge_seqs,
};
use crate::order::{le_of, valid_cmp, Comparator};

verus! {

/// One forward step of the parity merge: reads the two candidates, writes
/// both into the destination — the lesser first — and advances the cursor
/// of the side that was consumed, preferring the left side on ties.
pub fn merge_up<T: Copy, C: Comparator<T>>(
    src: &Vec<T>,
    il: usize,
    ir: usize,
    dest: &mut Vec<T>,
    id: usize,
    c: &C,
) -> (ret: (usize, usize, usize))
    requires
        il < ir < src@.len(),
        id + 1 < old(dest)@.len(),
    ensures
        final(dest)@.len() == old(dest)@.len(),
        ({
            let took_right = c.lt(src@[ir as int], src@[il as int]);
            &&& final(dest)@ == (if took_right {
                old(dest)@.update(id as int, src@[ir as int]).update(id + 1, src@[il as int])
            } else {
                old(dest)@.update(id as int, src@[il as int]).update(id + 1, src@[ir as int])
            })
            &&& ret.0 == (if took_right {
                il as int
            } else {
                il + 1
            })
            &&& ret.1 == (if took_right {
                ir + 1
            } else {
                ir as int
            })
            &&& ret.2 == id + 1
        }),
{
    let ns = src.len();
    let nd = dest.len();
    let took_right = is_less_in(c, src, ir, il);
    let lv = src[il];
    let rv = src[ir];
    if took_right {
        dest[id] = rv;
        dest[id + 1] = lv;
        (il, ir + 1, id + 1)
    } else {
        dest[id] = lv;
        dest[id + 1] = rv;
        (il + 1, ir, id + 1)
    }
}

/// One backward step of the parity merge: the mirror of [`merge_up`],
/// walking right to left and consuming the greater candidate, preferring
/// the right side on ties.
pub fn merge_down<T: Copy, C: Comparator<T>>(
    src: &Vec<T>,
    il: usize,
    ir: usize,
    dest: &mut Vec<T>,
    id: usize,
    c: &C,
) -> (ret: (usize, usize, usize))
    requires
        0 < il < ir < src@.len(),
        0 < id < old(dest)@.len(),
    ensures
        final(dest)@.len() == old(dest)@.len(),
        ({
            let took_left = c.lt(src@[ir as int], src@[il as int]);
            &&& final(dest)@ == (if took_left {
                old(dest)@.update(id - 1, src@[ir as int]).update(id as int, src@[il as int])
            } else {
                old(dest)@.update(id - 1, src@[il as int]).update(id as int, src@[ir as int])
            })
            &&& ret.0 == (if took_left {
                il - 1
            } else {
                il as int
            })
            &&& ret.1 == (if took_left {
                ir as int
            } else {
                ir - 1
            })
            &&& ret.2 == id - 1
        }),
{
    let took_left = is_less_in(c, src, ir, il);
    let lv = src[il];
    let rv = src[ir];
    if took_left {
        dest[id - 1] = rv;
        dest[id] = lv;
        (il - 1, ir, id - 1)
    } else {
        dest[id - 1] = lv;
        dest[id] = rv;
        (il, ir - 1, id - 1)
    }
}

/// The last forward write: the lesser of the two remaining candidates,
/// preferring the left side on ties.
pub fn finish_up<T: Copy, C: Comparator<T>>(
    src: &Vec<T>,
    il: usize,
    ir: usize,
    dest: &mut Vec<T>,
    id: usize,
    c: &C,
)
    requires
        il < ir < src@.len(),
        id < old(dest)@.len(),
    ensures
        final(dest)@.len() == old(dest)@.len(),
        final(dest)@ == old(dest)@.update(
            id as int,
            if c.lt(src@[ir as int], src@[il as int]) {
                src@[ir as int]
            } else {
                src@[il as int]
            },
        ),
{
    let took_right = is_less_in(c, src, ir, il);
    let x = if took_right {
        src[ir]
    } else {
        src[il]
    };
    dest[id] = x;
}

/// The last backward write: the greater of the two remaining candidates,
/// preferring the right side on ties.
pub fn finish_down<T: Copy, C: Comparator<T>>(
    src: &Vec<T>,
    il: usize,
    ir: usize,
    dest: &mut Vec<T>,
    id: usize,
    c: &C,
)
    requires
        il < ir < src@.len(),
        id < old(dest)@.len(),
    ensures
        final(dest)@.len() == old(dest)@.len(),
        final(dest)@ == old(dest)@.update(
            id as int,
            if c.lt(src@[ir as int], src@[il as int]) {
                src@[il as int]
            } else {
                src@[ir as int]
            },
        ),
{
    let took_left = is_less_in(c, src, ir, il);
    let x = if took_left {
        src[il]
    } else {
        src[ir]
    };
    dest[id] = x;
}

/// One forward step, at the level of the model: consuming the lesser head
/// moves one element of the merge from the unconsumed remainder into the
/// written prefix.
proof fn lemma_up_step<T, C: Comparator<T>>(c: C, lhalf: Seq<T>, rhalf: Seq<T>, a: int, b: int)
    requires
        0 <= a < lhalf.len(),
        0 <= b < rhalf.len(),
    ensures
        ({
            let ls = lhalf.skip(a);
            let rs = rhalf.skip(b);
            &&& (c.lt(rhalf[b], lhalf[a]) ==> merge_seqs(c, ls, rs) == seq![rhalf[b]] + merge_seqs(
                c,
                ls,
                rhalf.skip(b + 1),
            ))
            &&& (!c.lt(rhalf[b], lhalf[a]) ==> merge_seqs(c, ls, rs) == seq![lhalf[a]]
                + merge_seqs(c, lhalf.skip(a + 1), rs))
        }),
{
    let ls = lhalf.skip(a);
    let rs = rhalf.skip(b);
    assert(ls[0] == lhalf[a] && rs[0] == rhalf[b]);
    assert(ls.len() > 0 && rs.len() > 0);
    if c.lt(rhalf[b], lhalf[a]) {
        assert(rs.drop_first() =~= rhalf.skip(b + 1));
    } else {
        assert(ls.drop_first() =~= lhalf.skip(a + 1));
    }
}

/// One backward step, at the level of the model: consuming the greater last
/// element moves one element of the merge from the unconsumed remainder
/// into the written suffix.
proof fn lemma_down_step<T, C: Comparator<T>>(c: C, lhalf: Seq<T>, rhalf: Seq<T>, ta: int, tb: int)
    requires
        valid_cmp(c),
        sorted_by(lhalf, le_of(c)),
        sorted_by(rhalf, le_of(c)),
        1 <= ta <= lhalf.len(),
        1 <= tb <= rhalf.len(),
    ensures
        ({
            let lt0 = lhalf.take(ta);
            let rt0 = rhalf.take(tb);
            &&& (c.lt(rhalf[tb - 1], lhalf[ta - 1]) ==> merge_seqs(c, lt0, rt0) == merge_seqs(
                c,
                lhalf.take(ta - 1),
                rt0,
            ) + seq![lhalf[ta - 1]])
            &&& (!c.lt(rhalf[tb - 1], lhalf[ta - 1]) ==> merge_seqs(c, lt0, rt0) == merge_seqs(
                c,
                lt0,
                rhalf.take(tb - 1),
            ) + seq![rhalf[tb - 1]])
        }),
{
    let lt0 = lhalf.take(ta);
    let rt0 = rhalf.take(tb);
    lemma_sorted_subrange(lhalf, le_of(c), 0, ta);
    lemma_sorted_subrange(rhalf, le_of(c), 0, tb);
    assert(lt0.last() == lhalf[ta - 1] && rt0.last() == rhalf[tb - 1]);
    lemma_merge_unfold_back(c, lt0, rt0);
    assert(lt0.drop_last() =~= lhalf.take(ta - 1));
    assert(rt0.drop_last() =~= rhalf.take(tb - 1));
}

/// Merges the two sorted four-element halves of `src[s_lo..s_lo+8]` into
/// `dest[d_lo..d_lo+8]`: three interleaved steps from each end and one
/// finishing write apiece.  The cursors never leave their halves, because
/// each pass consumes only three elements before its finishing write.  For
/// a valid comparator the destination range is exactly the stable merge of
/// the two halves.
pub fn parity_merge8<T: Copy, C: Comparator<T>>(
    src: &Vec<T>,
    s_lo: usize,
    dest: &mut Vec<T>,
    d_lo: usize,
    c: &C,
)
    requires
        s_lo + 8 <= src@.len(),
        d_lo + 8 <= old(dest)@.len(),
    ensures
        final(dest)@.len() == old(dest)@.len(),
        final(dest)@.subrange(0, d_lo as int) == old(dest)@.subrange(0, d_lo as int),
        final(dest)@.subrange(d_lo + 8, old(dest)@.len() as int) == old(dest)@.subrange(
            d_lo + 8,
            old(dest)@.len() as int,
        ),
        valid_cmp(*c) && sorted_by(src@.subrange(s_lo as int, s_lo + 4), le_of(*c)) && sorted_by(
            src@.subrange(s_lo + 4, s_lo + 8),
            le_of(*c),
        ) ==> final(dest)@.subrange(d_lo as int, d_lo + 8) == merge_seqs(
            *c,
            src@.subrange(s_lo as int, s_lo + 4),
            src@.subrange(s_lo + 4, s_lo + 8),
        ),
{
    let ghost lhalf = src@.subrange(s_lo as int, s_lo + 4);
    let ghost rhalf = src@.subrange(s_lo + 4, s_lo + 8);
    let ghost le = le_of(*c);
    let ghost ordered = valid_cmp(*c) && sorted_by(lhalf, le) && sorted_by(rhalf, le);
    let ghost merged = merge_seqs(*c, lhalf, rhalf);
    let ghost dstart = dest@;
    let ns = src.len();
    let nd = dest.len();
    proof {
        lemma_merge_len_multiset(*c, lhalf, rhalf);
        assert(lhalf.skip(0) =~= lhalf);
        assert(rhalf.skip(0) =~= rhalf);
        assert(merged.skip(0) =~= merged);
        assert(dest@.subrange(d_lo as int, d_lo as int) =~= merged.take(0));
    }
    // The ascending pass: three steps and a finish fill the lower quarter
    // of the destination range with the four least elements of the merge.
    let mut il = s_lo;
    let mut ir = s_lo + 4;
    let mut id = d_lo;
    let mut k: usize = 0;
    while k < 3
        invariant
            k <= 3,
            s_lo + 8 <= src@.len(),
            d_lo + 8 <= nd == dest@.len() == dstart.len(),
            lhalf == src@.subrange(s_lo as int, s_lo + 4),
            rhalf == src@.subrange(s_lo + 4, s_lo + 8),
            le == le_of(*c),
            ordered == (valid_cmp(*c) && sorted_by(lhalf, le) && sorted_by(rhalf, le)),
            merged == merge_seqs(*c, lhalf, rhalf),
            ordered ==> merged.len() == 8,
            il - s_lo + ir - (s_lo + 4) == k,
            s_lo <= il <= s_lo + 3,
            s_lo + 4 <= ir <= s_lo + 7,
            id == d_lo + k,
            dest@.subrange(0, d_lo as int) == dstart.subrange(0, d_lo as int),
            dest@.subrange(d_lo + 4, nd as int) == dstart.subrange(d_lo + 4, nd as int),
            ordered ==> dest@.subrange(d_lo as int, d_lo + k) == merged.take(k as int),
            ordered ==> merge_seqs(*c, lhalf.skip(il - s_lo), rhalf.skip(ir - s_lo - 4))
                == merged.skip(k as int),
        decreases 3 - k,
    {
        let ghost a = il - s_lo;
        let ghost b = ir - s_lo - 4;
        let ghost dpre = dest@;
        let step = merge_up(src, il, ir, dest, id, c);
        il = step.0;
        ir = step.1;
        id = step.2;
        proof {
            assert(src@[s_lo + a] == lhalf[a] && src@[s_lo + 4 + b] == rhalf[b]);
            let took = c.lt(rhalf[b], lhalf[a]);
            let head = if took {
                rhalf[b]
            } else {
                lhalf[a]
            };
            assert(dest@.subrange(0, d_lo as int) =~= dpre.subrange(0, d_lo as int));
            assert(dest@.subrange(d_lo + 4, nd as int) =~= dpre.subrange(d_lo + 4, nd as int));
            if ordered {
                lemma_up_step(*c, lhalf, rhalf, a, b);
                assert(merged.skip(k as int) == seq![head] + merge_seqs(
                    *c,
                    lhalf.skip(il - s_lo),
                    rhalf.skip(ir - s_lo - 4),
                ));
                assert(merged[k as int] == head) by {
                    assert(merged.skip(k as int)[0] == merged[k as int]);
                }
                assert(merged.skip(k + 1) =~= merge_seqs(
                    *c,
                    lhalf.skip(il - s_lo),
                    rhalf.skip(ir - s_lo - 4),
                )) by {
                    let rest = merge_seqs(*c, lhalf.skip(il - s_lo), rhalf.skip(ir - s_lo - 4));
                    assert forall|p: int| 0 <= p < merged.len() - k - 1 implies #[trigger] merged.skip(
                        k + 1,
                    )[p] == rest[p] by {
                        assert(merged.skip(k as int)[p + 1] == merged[k + 1 + p]);
                        assert((seq![head] + rest)[p + 1] == rest[p]);
                    }
                }
                assert(dest@.subrange(d_lo as int, d_lo + k + 1) =~= dpre.subrange(
                    d_lo as int,
                    d_lo + k,
                ).push(head));
                assert(merged.take(k + 1) =~= merged.take(k as int).push(merged[k as int]));
            }
        }
        k = k + 1;
    }
    let ghost a3 = il - s_lo;
    let ghost b3 = ir - s_lo - 4;
    let ghost dpre3 = dest@;
    finish_up(src, il, ir, dest, id, c);
    let ghost dmid = dest@;
    proof {
        assert(src@[s_lo + a3] == lhalf[a3] && src@[s_lo + 4 + b3] == rhalf[b3]);
        assert(dmid.subrange(0, d_lo as int) =~= dstart.subrange(0, d_lo as int));
        assert(dmid.subrange(d_lo + 4, nd as int) =~= dstart.subrange(d_lo + 4, nd as int));
        if ordered {
            lemma_up_step(*c, lhalf, rhalf, a3, b3);
            let took = c.lt(rhalf[b3], lhalf[a3]);
            let head = if took {
                rhalf[b3]
            } else {
                lhalf[a3]
            };
            assert(merged[3] == head) by {
                assert(merged.skip(3)[0] == merged[3]);
            }
            assert(dmid.subrange(d_lo as int, d_lo + 4) =~= merged.take(4)) by {
                assert(dpre3.subrange(d_lo as int, d_lo + 3) == merged.take(3));
                assert forall|p: int| 0 <= p < 3 implies dmid[d_lo + p] == merged[p] by {
                    assert(dpre3.subrange(d_lo as int, d_lo + 3)[p] == merged.take(3)[p]);
                }
            }
        }
    }
    // The descending pass mirrors it from the top, filling the upper
    // quarter with the four greatest.
    let mut til = s_lo + 3;
    let mut tir = s_lo + 7;
    let mut tid = d_lo + 7;
    let mut j: usize = 0;
    proof {
        assert(lhalf.take(4) =~= lhalf);
        assert(rhalf.take(4) =~= rhalf);
        assert(dest@.subrange(d_lo + 8, d_lo + 8) =~= merged.subrange(8, 8));
        assert(dest@.subrange(d_lo + 8, nd as int) =~= dstart.subrange(d_lo + 8, nd as int)) by {
            assert forall|p: int| d_lo + 8 <= p < nd implies dest@[p] == dstart[p] by {
                assert(dest@.subrange(d_lo + 4, nd as int)[p - d_lo - 4] == dstart.subrange(
                    d_lo + 4,
                    nd as int,
                )[p - d_lo - 4]);
            }
        }
    }
    while j < 3
        invariant
            j <= 3,
            s_lo + 8 <= src@.len(),
            d_lo + 8 <= nd == dest@.len() == dstart.len(),
            lhalf == src@.subrange(s_lo as int, s_lo + 4),
            rhalf == src@.subrange(s_lo + 4, s_lo + 8),
            le == le_of(*c),
            ordered == (valid_cmp(*c) && sorted_by(lhalf, le) && sorted_by(rhalf, le)),
            merged == merge_seqs(*c, lhalf, rhalf),
            ordered ==> merged.len() == 8,
            til - s_lo + 1 + (tir - s_lo - 3) == 8 - j,
            s_lo <= til <= s_lo + 3,
            s_lo + 4 <= tir <= s_lo + 7,
            tid == d_lo + 7 - j,
            dest@.subrange(0, d_lo as int) == dstart.subrange(0, d_lo as int),
            dest@.subrange(d_lo + 8, nd as int) == dstart.subrange(d_lo + 8, nd as int),
            ordered ==> dest@.subrange(d_lo as int, d_lo + 4) == merged.take(4),
            ordered ==> dest@.subrange(d_lo + 8 - j, d_lo + 8) == merged.subrange(8 - j, 8),
            ordered ==> merge_seqs(*c, lhalf.take(til - s_lo + 1), rhalf.take(tir - s_lo - 3))
                == merged.take(8 - j),
        decreases 3 - j,
    {
        let ghost ta = til - s_lo + 1;
        let ghost tb = tir - s_lo - 3;
        let ghost dpre = dest@;
        let step = merge_down(src, til, tir, dest, tid, c);
        til = step.0;
        tir = step.1;
        tid = step.2;
        proof {
            assert(src@[s_lo + ta - 1] == lhalf[ta - 1] && src@[s_lo + 4 + tb - 1] == rhalf[tb
                - 1]);
            let took = c.lt(rhalf[tb - 1], lhalf[ta - 1]);
            let last = if took {
                lhalf[ta - 1]
            } else {
                rhalf[tb - 1]
            };
            assert(dest@.subrange(0, d_lo as int) =~= dpre.subrange(0, d_lo as int));
            assert(dest@.subrange(d_lo + 8, nd as int) =~= dpre.subrange(d_lo + 8, nd as int));
            if ordered {
                lemma_down_step(*c, lhalf, rhalf, ta, tb);
                assert(merged.take(8 - j) == merge_seqs(
                    *c,
                    lhalf.take(til - s_lo + 1),
                    rhalf.take(tir - s_lo - 3),
                ) + seq![last]);
                assert(merged[7 - j] == last) by {
                    assert(merged.take(8 - j)[8 - j - 1] == merged[7 - j]);
                }
                assert(merge_seqs(*c, lhalf.take(til - s_lo + 1), rhalf.take(tir - s_lo - 3))
                    =~= merged.take(7 - j)) by {
                    assert forall|p: int| 0 <= p < 7 - j implies merge_seqs(
                        *c,
                        lhalf.take(til - s_lo + 1),
                        rhalf.take(tir - s_lo - 3),
                    )[p] == merged[p] by {
                        assert(merged.take(8 - j)[p] == merged[p]);
                    }
                }
                assert(merged.take(7 - j) == merge_seqs(
                    *c,
                    lhalf.take(til - s_lo + 1),
                    rhalf.take(tir - s_lo - 3),
                ));
                assert(dest@.subrange(d_lo as int, d_lo + 4) =~= dpre.subrange(
                    d_lo as int,
                    d_lo + 4,
                ));
                assert(dest@.subrange(d_lo + 8 - (j + 1), d_lo + 8) =~= seq![last]
                    + dpre.subrange(d_lo + 8 - j, d_lo + 8));
                assert(merged.subrange(8 - (j + 1), 8) =~= seq![merged[7 - j]] + merged.subrange(
                    8 - j,
                    8,
                ));
            }
        }
        j = j + 1;
    }
    let ghost ta5 = til - s_lo + 1;
    let ghost tb5 = tir - s_lo - 3;
    let ghost dpre5 = dest@;
    finish_down(src, til, tir, dest, tid, c);
    proof {
        assert(src@[s_lo + ta5 - 1] == lhalf[ta5 - 1] && src@[s_lo + 4 + tb5 - 1] == rhalf[tb5
            - 1]);
        assert(final(dest)@.subrange(0, d_lo as int) =~= dstart.subrange(0, d_lo as int));
        assert(final(dest)@.subrange(d_lo + 8, nd as int) =~= dstart.subrange(d_lo + 8, nd as int));
        if ordered {
            lemma_down_step(*c, lhalf, rhalf, ta5, tb5);
            let took = c.lt(rhalf[tb5 - 1], lhalf[ta5 - 1]);
            let last = if took {
                lhalf[ta5 - 1]
            } else {
                rhalf[tb5 - 1]
            };
            assert(merged[4] == last) by {
                assert(merged.take(5)[4] == merged[4]);
            }
            assert(final(dest)@.subrange(d_lo as int, d_lo + 8) =~= merged) by {
                assert forall|p: int| 0 <= p < 8 implies final(dest)@[d_lo + p] == merged[p] by {
                    if p < 4 {
                        assert(dpre5.subrange(d_lo as int, d_lo + 4)[p] == merged.take(4)[p]);
                    } else if p == 4 {
                    } else {
                        assert(dpre5.subrange(d_lo + 5, d_lo + 8)[p - 5] == merged.subrange(
                            5,
                            8,
                        )[p - 5]);
                    }
                }
            }
        }
    }
}


/// Merges the two sorted `block`-element halves of
/// `src[s_lo..s_lo+2*block]` into `dest[d_lo..d_lo+2*block]`: one fewer
/// interleaved step than the block length from each end, and one finishing
/// write apiece.  The cursors never leave their halves, because each pass
/// consumes only `block - 1` elements before its finishing write.  For a
/// valid comparator the destination range is exactly the stable merge of
/// the two halves.
#[verifier::rlimit(100)]
#[verifier::spinoff_prover]
pub fn parity_merge<T: Copy, C: Comparator<T>>(
    src: &Vec<T>,
    s_lo: usize,
    dest: &mut Vec<T>,
    d_lo: usize,
    block: usize,
    c: &C,
)
    requires
        1 <= block,
        s_lo + 2 * block <= src@.len(),
        d_lo + 2 * block <= old(dest)@.len(),
    ensures
        final(dest)@.len() == old(dest)@.len(),
        final(dest)@.subrange(0, d_lo as int) == old(dest)@.subrange(0, d_lo as int),
        final(dest)@.subrange(d_lo + 2 * block, old(dest)@.len() as int) == old(dest)@.subrange(
            d_lo + 2 * block,
            old(dest)@.len() as int,
        ),
        valid_cmp(*c) && sorted_by(src@.subrange(s_lo as int, s_lo + block), le_of(*c)) && sorted_by(
            src@.subrange(s_lo + block, s_lo + 2 * block),
            le_of(*c),
        ) ==> final(dest)@.subrange(d_lo as int, d_lo + 2 * block) == merge_seqs(
            *c,
            src@.subrange(s_lo as int, s_lo + block),
            src@.subrange(s_lo + block, s_lo + 2 * block),
        ),
{
    let ghost lhalf = src@.subrange(s_lo as int, s_lo + block);
    let ghost rhalf = src@.subrange(s_lo + block, s_lo + 2 * block);
    let ghost le = le_of(*c);
    let ghost ordered = valid_cmp(*c) && sorted_by(lhalf, le) && sorted_by(rhalf, le);
    let ghost merged = merge_seqs(*c, lhalf, rhalf);
    let ghost dstart = dest@;
    let ns = src.len();
    let nd = dest.len();
    proof {
        lemma_merge_len_multiset(*c, lhalf, rhalf);
        assert(lhalf.skip(0) =~= lhalf);
        assert(rhalf.skip(0) =~= rhalf);
        assert(merged.skip(0) =~= merged);
        assert(dest@.subrange(d_lo as int, d_lo as int) =~= merged.take(0));
    }
    // The ascending pass: three steps and a finish fill the lower quarter
    // of the destination range with the four least elements of the merge.
    let mut il = s_lo;
    let mut ir = s_lo + block;
    let mut id = d_lo;
    let mut k: usize = 0;
    while k < block - 1
        invariant
            k <= block - 1,
            s_lo + 2 * block <= src@.len(),
            d_lo + 2 * block <= nd == dest@.len() == dstart.len(),
            lhalf == src@.subrange(s_lo as int, s_lo + block),
            rhalf == src@.subrange(s_lo + block, s_lo + 2 * block),
            le == le_of(*c),
            ordered == (valid_cmp(*c) && sorted_by(lhalf, le) && sorted_by(rhalf, le)),
            merged == merge_seqs(*c, lhalf, rhalf),
            ordered ==> merged.len() == 2 * block,
            il - s_lo + ir - (s_lo + block) == k,
            s_lo <= il <= s_lo + block - 1,
            s_lo + block <= ir <= s_lo + 2 * block - 1,
            id == d_lo + k,
            dest@.subrange(0, d_lo as int) == dstart.subrange(0, d_lo as int),
            dest@.subrange(d_lo + block, nd as int) == dstart.subrange(d_lo + block, nd as int),
            ordered ==> dest@.subrange(d_lo as int, d_lo + k) == merged.take(k as int),
            ordered ==> merge_seqs(*c, lhalf.skip(il - s_lo), rhalf.skip(ir - s_lo - block))
                == merged.skip(k as int),
        decreases block - 1 - k,
    {
        let ghost a = il - s_lo;
        let ghost b = ir - s_lo - block;
        let ghost dpre = dest@;
        let step = merge_up(src, il, ir, dest, id, c);
        il = step.0;
        ir = step.1;
        id = step.2;
        proof {
            assert(src@[s_lo + a] == lhalf[a] && src@[s_lo + block + b] == rhalf[b]);
            let took = c.lt(rhalf[b], lhalf[a]);
            let head = if took {
                rhalf[b]
            } else {
                lhalf[a]
            };
            assert(dest@.subrange(0, d_lo as int) =~= dpre.subrange(0, d_lo as int));
            assert(dest@.subrange(d_lo + block, nd as int) =~= dpre.subrange(d_lo + block, nd as int));
            if ordered {
                lemma_up_step(*c, lhalf, rhalf, a, b);
                assert(merged.skip(k as int) == seq![head] + merge_seqs(
                    *c,
                    lhalf.skip(il - s_lo),
                    rhalf.skip(ir - s_lo - block),
                ));
                assert(merged[k as int] == head) by {
                    assert(merged.skip(k as int)[0] == merged[k as int]);
                }
                assert(merged.skip(k + 1) =~= merge_seqs(
                    *c,
                    lhalf.skip(il - s_lo),
                    rhalf.skip(ir - s_lo - block),
                )) by {
                    let rest = merge_seqs(*c, lhalf.skip(il - s_lo), rhalf.skip(ir - s_lo - block));
                    assert forall|p: int| 0 <= p < merged.len() - k - 1 implies #[trigger] merged.skip(
                        k + 1,
                    )[p] == rest[p] by {
                        assert(merged.skip(k as int)[p + 1] == merged[k + 1 + p]);
                        assert((seq![head] + rest)[p + 1] == rest[p]);
                    }
                }
                assert(dest@.subrange(d_lo as int, d_lo + k + 1) =~= dpre.subrange(
                    d_lo as int,
                    d_lo + k,
                ).push(head));
                assert(merged.take(k + 1) =~= merged.take(k as int).push(merged[k as int]));
            }
        }
        k = k + 1;
    }
    let ghost a3 = il - s_lo;
    let ghost b3 = ir - s_lo - block;
    let ghost dpre3 = dest@;
    finish_up(src, il, ir, dest, id, c);
    let ghost dmid = dest@;
    proof {
        assert(src@[s_lo + a3] == lhalf[a3] && src@[s_lo + block + b3] == rhalf[b3]);
        assert(dmid.subrange(0, d_lo as int) =~= dstart.subrange(0, d_lo as int));
        assert(dmid.subrange(d_lo + block, nd as int) =~= dstart.subrange(d_lo + block, nd as int));
        if ordered {
            lemma_up_step(*c, lhalf, rhalf, a3, b3);
            let took = c.lt(rhalf[b3], lhalf[a3]);
            let head = if took {
                rhalf[b3]
            } else {
                lhalf[a3]
            };
            assert(merged[block - 1] == head) by {
                assert(merged.skip(block - 1)[0] == merged[block - 1]);
            }
            assert(dmid.subrange(d_lo as int, d_lo + block) =~= merged.take(block as int)) by {
                assert(dpre3.subrange(d_lo as int, d_lo + block - 1) == merged.take(block - 1));
                assert forall|p: int| 0 <= p < block - 1 implies dmid[d_lo + p] == merged[p] by {
                    assert(dpre3.subrange(d_lo as int, d_lo + block - 1)[p] == merged.take(block - 1)[p]);
                }
            }
        }
    }
    // The descending pass mirrors it from the top, filling the upper
    // quarter with the four greatest.
    let mut til = s_lo + block - 1;
    let mut tir = s_lo + 2 * block - 1;
    let mut tid = d_lo + 2 * block - 1;
    let mut j: usize = 0;
    proof {
        assert(lhalf.take(block as int) =~= lhalf);
        assert(rhalf.take(block as int) =~= rhalf);
        assert(dest@.subrange(d_lo + 2 * block, d_lo + 2 * block) =~= merged.subrange(2 * block, 2 * block));
        assert(dest@.subrange(d_lo + 2 * block, nd as int) =~= dstart.subrange(d_lo + 2 * block, nd as int)) by {
            assert forall|p: int| d_lo + 2 * block <= p < nd implies dest@[p] == dstart[p] by {
                assert(dest@.subrange(d_lo + block, nd as int)[p - d_lo - block] == dstart.subrange(
                    d_lo + block,
                    nd as int,
                )[p - d_lo - block]);
            }
        }
    }
    while j < block - 1
        invariant
            j <= block - 1,
            s_lo + 2 * block <= src@.len(),
            d_lo + 2 * block <= nd == dest@.len() == dstart.len(),
            lhalf == src@.subrange(s_lo as int, s_lo + block),
            rhalf == src@.subrange(s_lo + block, s_lo + 2 * block),
            le == le_of(*c),
            ordered == (valid_cmp(*c) && sorted_by(lhalf, le) && sorted_by(rhalf, le)),
            merged == merge_seqs(*c, lhalf, rhalf),
            ordered ==> merged.len() == 2 * block,
            til - s_lo + 1 + (tir - s_lo - (block - 1)) == 2 * block - j,
            s_lo <= til <= s_lo + block - 1,
            s_lo + block <= tir <= s_lo + 2 * block - 1,
            tid == d_lo + 2 * block - 1 - j,
            dest@.subrange(0, d_lo as int) == dstart.subrange(0, d_lo as int),
            dest@.subrange(d_lo + 2 * block, nd as int) == dstart.subrange(d_lo + 2 * block, nd as int),
            ordered ==> dest@.subrange(d_lo as int, d_lo + block) == merged.take(block as int),
            ordered ==> dest@.subrange(d_lo + 2 * block - j, d_lo + 2 * block) == merged.subrange(2 * block - j, 2 * block),
            ordered ==> merge_seqs(*c, lhalf.take(til - s_lo + 1), rhalf.take(tir - s_lo - (block - 1)))
                == merged.take(2 * block - j),
        decreases block - 1 - j,
    {
        let ghost ta = til - s_lo + 1;
        let ghost tb = tir - s_lo - (block - 1);
        let ghost dpre = dest@;
        let step = merge_down(src, til, tir, dest, tid, c);
        til = step.0;
        tir = step.1;
        tid = step.2;
        proof {
            assert(src@[s_lo + ta - 1] == lhalf[ta - 1] && src@[s_lo + block + tb - 1] == rhalf[tb
                - 1]);
            let took = c.lt(rhalf[tb - 1], lhalf[ta - 1]);
            let last = if took {
                lhalf[ta - 1]
            } else {
                rhalf[tb - 1]
            };
            assert(dest@.subrange(0, d_lo as int) =~= dpre.subrange(0, d_lo as int));
            assert(dest@.subrange(d_lo + 2 * block, nd as int) =~= dpre.subrange(d_lo + 2 * block, nd as int));
            if ordered {
                lemma_down_step(*c, lhalf, rhalf, ta, tb);
                assert(merged.take(2 * block - j) == merge_seqs(
                    *c,
                    lhalf.take(til - s_lo + 1),
                    rhalf.take(tir - s_lo - (block - 1)),
                ) + seq![last]);
                assert(merged[2 * block - 1 - j] == last) by {
                    assert(merged.take(2 * block - j)[2 * block - j - 1] == merged[2 * block - 1
                        - j]);
                }
                assert(merge_seqs(*c, lhalf.take(til - s_lo + 1), rhalf.take(tir - s_lo - (block - 1)))
                    =~= merged.take(2 * block - 1 - j)) by {
                    assert forall|p: int| 0 <= p < 2 * block - 1 - j implies merge_seqs(
                        *c,
                        lhalf.take(til - s_lo + 1),
                        rhalf.take(tir - s_lo - (block - 1)),
                    )[p] == merged[p] by {
                        assert(merged.take(2 * block - j)[p] == merged[p]);
                    }
                }
                assert(merged.take(2 * block - 1 - j) == merge_seqs(
                    *c,
                    lhalf.take(til - s_lo + 1),
                    rhalf.take(tir - s_lo - (block - 1)),
                ));
                assert(dest@.subrange(d_lo as int, d_lo + block) =~= dpre.subrange(
                    d_lo as int,
                    d_lo + block,
                ));
                assert(dest@.subrange(d_lo + 2 * block - (j + 1), d_lo + 2 * block) =~= seq![last]
                    + dpre.subrange(d_lo + 2 * block - j, d_lo + 2 * block));
                assert(merged.subrange(2 * block - (j + 1), 2 * block) =~= seq![merged[2 * block - 1 - j]] + merged.subrange(
                    2 * block - j,
                    2 * block,
                ));
            }
        }
        j = j + 1;
    }
    let ghost ta5 = til - s_lo + 1;
    let ghost tb5 = tir - s_lo - (block - 1);
    let ghost dpre5 = dest@;
    finish_down(src, til, tir, dest, tid, c);
    proof {
        assert(src@[s_lo + ta5 - 1] == lhalf[ta5 - 1] && src@[s_lo + block + tb5 - 1] == rhalf[tb5
            - 1]);
        assert(final(dest)@.subrange(0, d_lo as int) =~= dstart.subrange(0, d_lo as int));
        assert(final(dest)@.subrange(d_lo + 2 * block, nd as int) =~= dstart.subrange(d_lo + 2 * block, nd as int));
        if ordered {
            lemma_down_step(*c, lhalf, rhalf, ta5, tb5);
            let took = c.lt(rhalf[tb5 - 1], lhalf[ta5 - 1]);
            let last = if took {
                lhalf[ta5 - 1]
            } else {
                rhalf[tb5 - 1]
            };
            assert(merged[block as int] == last) by {
                assert(merged.take(block + 1)[block as int] == merged[block as int]);
            }
            assert(final(dest)@.subrange(d_lo as int, d_lo + 2 * block) =~= merged) by {
                assert forall|p: int| 0 <= p < 2 * block implies final(dest)@[d_lo + p]
                    == merged[p] by {
                    if p < block {
                        assert(dpre5.subrange(d_lo as int, d_lo + block)[p] == merged.take(
                            block as int,
                        )[p]);
                    } else if p == block {
                    } else {
                        assert(dpre5.subrange(d_lo + block + 1, d_lo + 2 * block)[p - block - 1]
                            == merged.subrange(block + 1, 2 * block as int)[p - block - 1]);
                    }
                }
            }
        }
    }
}

} // verus!
