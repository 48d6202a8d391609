//! The merge engine: a stable two-way merge of two adjacent sorted runs,
//! using a scratch buffer sized to the shorter run.
//!
//! The shorter run is copied into the scratch buffer; the merge then walks
//! the buffer and the longer run, forward when the left run is shorter and
//! backward when the right run is shorter, always resolving ties towards the
//! logically earlier run.  On every exit path the elements remaining in the
//! buffer are written back into the sequence, so the element multiset is
//! preserved no matter what the comparator answers.

use vstd::prelude::*;
use vstd::relations::sorted_by;
use vstd::seq_lib::lemma_multiset_commutative;

use crate::classes::{
    lemma_classes_frame, lemma_concat_push_left_multiset, lemma_concat_push_right_multiset,
    lemma_multiset_frame, lemma_prepend_multiset,
};
use crate::merge_spec::{
    lemma_merge_classes, lemma_merge_len_multiset, lemma_merge_sorted, lemma_merge_unfold_back,
    lemma_sorted_subrange, merge_seqs,
};
use crate::order::{class_seq, classes_preserved, le_of, valid_cmp, Comparator};

verus! {

broadcast use vstd::seq_lib::group_to_multiset_ensures, vstd::multiset::group_multiset_axioms;

/// What `merge` leaves behind in `v`: the merged range in place of the two
/// runs when the comparator behaves, the same multiset always.
pub open spec fn merge_post<T, C: Comparator<T>>(
    c: C,
    pre: Seq<T>,
    post: Seq<T>,
    lo: int,
    mid: int,
    hi: int,
) -> bool {
    &&& post.len() == pre.len()
    &&& post.subrange(0, lo) == pre.subrange(0, lo)
    &&& post.subrange(hi, pre.len() as int) == pre.subrange(hi, pre.len() as int)
    &&& post.to_multiset() == pre.to_multiset()
    &&& {
        valid_cmp(c) && sorted_by(pre.subrange(lo, mid), le_of(c)) && sorted_by(
            pre.subrange(mid, hi),
            le_of(c),
        ) ==> post.subrange(lo, hi) == merge_seqs(c, pre.subrange(lo, mid), pre.subrange(mid, hi))
    }
}

/// Merges the sorted runs `v[lo..mid]` and `v[mid..hi]` in place, with the
/// scratch buffer holding a copy of the shorter run during the merge.
pub fn merge<T: Copy, C: Comparator<T>>(
    v: &mut Vec<T>,
    lo: usize,
    mid: usize,
    hi: usize,
    buf: &mut Vec<T>,
    c: &C,
)
    requires
        lo <= mid <= hi <= old(v)@.len(),
    ensures
        merge_post(*c, old(v)@, final(v)@, lo as int, mid as int, hi as int),
        valid_cmp(*c) && sorted_by(old(v)@.subrange(lo as int, mid as int), le_of(*c)) && sorted_by(
            old(v)@.subrange(mid as int, hi as int),
            le_of(*c),
        ) ==> sorted_by(final(v)@.subrange(lo as int, hi as int), le_of(*c)) && classes_preserved(
            *c,
            old(v)@,
            final(v)@,
        ),
{
    let ghost orig = v@;
    let ghost li = lo as int;
    let ghost mi = mid as int;
    let ghost hh = hi as int;
    let ghost lrun = orig.subrange(li, mi);
    let ghost rrun = orig.subrange(mi, hh);
    if mid - lo <= hi - mid {
        merge_forward(v, lo, mid, hi, buf, c);
    } else {
        merge_backward(v, lo, mid, hi, buf, c);
    }
    proof {
        if valid_cmp(*c) && sorted_by(lrun, le_of(*c)) && sorted_by(rrun, le_of(*c)) {
            lemma_merge_sorted(*c, lrun, rrun);
            lemma_merge_classes(*c, lrun, rrun);
            lemma_merge_len_multiset(*c, lrun, rrun);
            assert forall|x: T|
                class_seq(*c, final(v)@.subrange(li, hh), x) == class_seq(
                    *c,
                    orig.subrange(li, hh),
                    x,
                ) by {
                let pred = crate::order::class_pred(*c, x);
                assert(orig.subrange(li, hh) =~= lrun + rrun);
                Seq::filter_distributes_over_add(lrun, rrun, pred);
            }
            lemma_classes_frame(*c, orig, final(v)@, li, hh);
        }
    }
}

/// Forward merge: the left run is no longer than the right one; it is copied
/// into the buffer and consumed front to back, the left side winning ties.
fn merge_forward<T: Copy, C: Comparator<T>>(
    v: &mut Vec<T>,
    lo: usize,
    mid: usize,
    hi: usize,
    buf: &mut Vec<T>,
    c: &C,
)
    requires
        lo <= mid <= hi <= old(v)@.len(),
    ensures
        merge_post(*c, old(v)@, final(v)@, lo as int, mid as int, hi as int),
{
    let ghost orig = v@;
    let ghost li = lo as int;
    let ghost mi = mid as int;
    let ghost hh = hi as int;
    let ghost lrun = orig.subrange(li, mi);
    let ghost rrun = orig.subrange(mi, hh);
    let ghost le = le_of(*c);
    let ghost ordered = valid_cmp(*c) && sorted_by(lrun, le) && sorted_by(rrun, le);
    let n = v.len();
    let m = mid - lo;
    buf.clear();
    let mut k = lo;
    while k < mid
        invariant
            lo <= k <= mid <= n == v@.len(),
            orig.len() == n,
            li == lo as int,
            v@ == orig,
            buf@ == orig.subrange(li, k as int),
        decreases mid - k,
    {
        let x = v[k];
        buf.push(x);
        proof {
            assert(buf@ =~= orig.subrange(li, k + 1));
        }
        k = k + 1;
    }
    assert(buf@ == lrun);
    let mut i: usize = 0;
    let mut j = mid;
    let mut out = lo;
    proof {
        assert(lrun.skip(0) =~= lrun);
        assert(rrun.skip(0) =~= rrun);
        assert(lrun.take(0) + rrun.take(0) =~= Seq::<T>::empty());
        assert(v@.subrange(li, li) =~= Seq::<T>::empty());
        assert(v@.subrange(li, li).to_multiset().len() == 0);
        assert((lrun.take(0) + rrun.take(0)).to_multiset().len() == 0);
        vstd::multiset::lemma_multiset_empty_len(v@.subrange(li, li).to_multiset());
        vstd::multiset::lemma_multiset_empty_len((lrun.take(0) + rrun.take(0)).to_multiset());
        if ordered {
            assert(v@.subrange(li, li) + merge_seqs(*c, lrun.skip(0), rrun.skip(0)) =~= merge_seqs(
                *c,
                lrun,
                rrun,
            ));
        }
    }
    while i < m && j < hi
        invariant
            i <= m,
            mid <= j <= hi <= n == v@.len(),
            orig.len() == n,
            li == lo as int && mi == mid as int && hh == hi as int,
            m == mid - lo,
            lo <= mid <= hi,
            out == lo + i + (j - mid),
            buf@ == lrun,
            lrun == orig.subrange(li, mi),
            rrun == orig.subrange(mi, hh),
            le == le_of(*c),
            ordered == (valid_cmp(*c) && sorted_by(lrun, le) && sorted_by(rrun, le)),
            v@.subrange(0, li) == orig.subrange(0, li),
            v@.subrange(j as int, n as int) == orig.subrange(j as int, n as int),
            v@.subrange(lo as int, out as int).to_multiset() == (lrun.take(i as int) + rrun.take(
                j - mi,
            )).to_multiset(),
            ordered ==> merge_seqs(*c, lrun, rrun) == v@.subrange(li, out as int) + merge_seqs(
                *c,
                lrun.skip(i as int),
                rrun.skip(j - mi),
            ),
        decreases hi - j + m - i,
    {
        let ghost before = v@;
        let bv = buf[i];
        let rv = v[j];
        proof {
            assert(rv == orig[j as int]) by {
                assert(v@.subrange(j as int, n as int)[0] == orig.subrange(j as int, n as int)[0]);
            }
            assert(bv == lrun[i as int] && rv == rrun[j - mi]);
        }
        let take_right = c.is_less(&rv, &bv);
        let x = if take_right {
            rv
        } else {
            bv
        };
        v[out] = x;
        proof {
            assert(v@.subrange(0, li) =~= before.subrange(0, li));
            assert(v@.subrange(j as int, n as int) =~= before.subrange(j as int, n as int));
            let pre = before.subrange(lo as int, out as int);
            assert(v@.subrange(lo as int, out + 1) =~= pre.push(x));
            assert(pre.push(x).to_multiset() =~= pre.to_multiset().insert(x));
            let lt = lrun.take(i as int);
            let rt = rrun.take(j - mi);
            if take_right {
                assert(rrun.take(j - mi + 1) =~= rt.push(x));
                lemma_concat_push_right_multiset(lt, rt, x);
                assert((lt + rrun.take(j - mi + 1)).to_multiset() == (lt
                    + rt).to_multiset().insert(x));
            } else {
                assert(lrun.take(i + 1) =~= lt.push(x));
                lemma_concat_push_left_multiset(lt, rt, x);
                assert((lrun.take(i + 1) + rt).to_multiset() == (lt + rt).to_multiset().insert(x));
            }
            if ordered {
                let ls = lrun.skip(i as int);
                let rs = rrun.skip(j - mi);
                assert(ls[0] == bv && rs[0] == rv);
                assert(ls.len() > 0 && rs.len() > 0);
                if take_right {
                    assert(merge_seqs(*c, ls, rs) == seq![rv] + merge_seqs(
                        *c,
                        ls,
                        rs.drop_first(),
                    ));
                    assert(rs.drop_first() =~= rrun.skip(j - mi + 1));
                } else {
                    assert(merge_seqs(*c, ls, rs) == seq![bv] + merge_seqs(
                        *c,
                        ls.drop_first(),
                        rs,
                    ));
                    assert(ls.drop_first() =~= lrun.skip(i + 1));
                }
                assert(v@.subrange(li, out + 1) =~= before.subrange(li, out as int) + seq![x]);
                assert(merge_seqs(*c, lrun, rrun) =~= v@.subrange(li, out + 1) + merge_seqs(
                    *c,
                    lrun.skip(if take_right { i as int } else { i + 1 }),
                    rrun.skip(if take_right { j - mi + 1 } else { j - mi }),
                ));
            }
            if take_right {
                assert(v@.subrange(j + 1, n as int) =~= orig.subrange(j + 1, n as int)) by {
                    assert forall|p: int| j + 1 <= p < n implies v@[p] == orig[p] by {
                        assert(v@.subrange(j as int, n as int)[p - j] == orig.subrange(
                            j as int,
                            n as int,
                        )[p - j]);
                    }
                }
            }
        }
        if take_right {
            j = j + 1;
        } else {
            i = i + 1;
        }
        out = out + 1;
    }
    // The right run is exhausted: restore what is left of the buffer.  (When
    // the buffer is exhausted instead, the right tail is already in place.)
    while i < m
        invariant
            i <= m,
            mid <= j <= hi <= n == v@.len(),
            orig.len() == n,
            li == lo as int && mi == mid as int && hh == hi as int,
            m == mid - lo,
            lo <= mid <= hi,
            j == hi || i == m,
            out == lo + i + (j - mid),
            buf@ == lrun,
            lrun == orig.subrange(li, mi),
            rrun == orig.subrange(mi, hh),
            le == le_of(*c),
            ordered == (valid_cmp(*c) && sorted_by(lrun, le) && sorted_by(rrun, le)),
            v@.subrange(0, li) == orig.subrange(0, li),
            v@.subrange(j as int, n as int) == orig.subrange(j as int, n as int),
            v@.subrange(lo as int, out as int).to_multiset() == (lrun.take(i as int) + rrun.take(
                j - mi,
            )).to_multiset(),
            ordered ==> merge_seqs(*c, lrun, rrun) == v@.subrange(li, out as int) + merge_seqs(
                *c,
                lrun.skip(i as int),
                rrun.skip(j - mi),
            ),
        decreases m - i,
    {
        let ghost before = v@;
        let x = buf[i];
        v[out] = x;
        proof {
            assert(x == lrun[i as int]);
            assert(v@.subrange(0, li) =~= before.subrange(0, li));
            assert(v@.subrange(j as int, n as int) =~= before.subrange(j as int, n as int));
            let pre = before.subrange(lo as int, out as int);
            assert(v@.subrange(lo as int, out + 1) =~= pre.push(x));
            assert(pre.push(x).to_multiset() =~= pre.to_multiset().insert(x));
            let lt = lrun.take(i as int);
            let rt = rrun.take(j - mi);
            assert(lrun.take(i + 1) =~= lt.push(x));
            lemma_concat_push_left_multiset(lt, rt, x);
            assert((lrun.take(i + 1) + rt).to_multiset() == (lt + rt).to_multiset().insert(x));
            if ordered {
                let ls = lrun.skip(i as int);
                let rs = rrun.skip(j - mi);
                assert(rs.len() == 0);
                assert(ls.len() > 0 && ls[0] == x);
                assert(merge_seqs(*c, ls, rs) == ls);
                assert(ls =~= seq![x] + lrun.skip(i + 1));
                assert(merge_seqs(*c, lrun.skip(i + 1), rs) == lrun.skip(i + 1));
                assert(v@.subrange(li, out + 1) =~= before.subrange(li, out as int) + seq![x]);
                assert(merge_seqs(*c, lrun, rrun) =~= v@.subrange(li, out + 1) + merge_seqs(
                    *c,
                    lrun.skip(i + 1),
                    rs,
                ));
            }
        }
        i = i + 1;
        out = out + 1;
    }
    proof {
        assert(i == m);
        assert(out == j);
        assert(v@.subrange(hh, n as int) =~= orig.subrange(hh, n as int)) by {
            assert forall|p: int| hh <= p < n implies v@[p] == orig[p] by {
                assert(v@.subrange(j as int, n as int)[p - j] == orig.subrange(
                    j as int,
                    n as int,
                )[p - j]);
            }
        }
        let rt = rrun.take(j - mi);
        let rs = rrun.skip(j - mi);
        assert(v@.subrange(out as int, hh) =~= rs) by {
            assert forall|p: int| out <= p < hh implies v@[p] == rrun[p - mi] by {
                assert(v@.subrange(j as int, n as int)[p - j] == orig.subrange(
                    j as int,
                    n as int,
                )[p - j]);
                assert(orig[p] == rrun[p - mi]);
            }
        }
        assert(lrun.take(m as int) =~= lrun);
        assert(rrun =~= rt + rs);
        assert(v@.subrange(li, hh) =~= v@.subrange(li, out as int) + v@.subrange(out as int, hh));
        lemma_multiset_commutative(v@.subrange(li, out as int), v@.subrange(out as int, hh));
        lemma_multiset_commutative(lrun, rt);
        lemma_multiset_commutative(rt, rs);
        lemma_multiset_commutative(lrun, rrun);
        assert(v@.subrange(li, hh).to_multiset() =~= (lrun + rrun).to_multiset());
        assert(orig.subrange(li, hh) =~= lrun + rrun);
        lemma_multiset_frame(orig, v@, li, hh);
        if ordered {
            assert(lrun.skip(m as int).len() == 0);
            assert(merge_seqs(*c, lrun.skip(m as int), rs) == rs);
            assert(merge_seqs(*c, lrun, rrun) =~= v@.subrange(li, hh));
        }
    }
}

/// Backward merge: the right run is shorter; it is copied into the buffer
/// and consumed back to front, the right side winning ties, which read
/// forward is the same left-before-right stability rule.
fn merge_backward<T: Copy, C: Comparator<T>>(
    v: &mut Vec<T>,
    lo: usize,
    mid: usize,
    hi: usize,
    buf: &mut Vec<T>,
    c: &C,
)
    requires
        lo <= mid <= hi <= old(v)@.len(),
    ensures
        merge_post(*c, old(v)@, final(v)@, lo as int, mid as int, hi as int),
{
    let ghost orig = v@;
    let ghost li = lo as int;
    let ghost mi = mid as int;
    let ghost hh = hi as int;
    let ghost lrun = orig.subrange(li, mi);
    let ghost rrun = orig.subrange(mi, hh);
    let ghost le = le_of(*c);
    let ghost ordered = valid_cmp(*c) && sorted_by(lrun, le) && sorted_by(rrun, le);
    let n = v.len();
    let m2 = hi - mid;
    buf.clear();
    let mut k = mid;
    while k < hi
        invariant
            mid <= k <= hi <= n == v@.len(),
            orig.len() == n,
            mi == mid as int,
            v@ == orig,
            buf@ == orig.subrange(mi, k as int),
        decreases hi - k,
    {
        let x = v[k];
        buf.push(x);
        proof {
            assert(buf@ =~= orig.subrange(mi, k + 1));
        }
        k = k + 1;
    }
    assert(buf@ == rrun);
    let mut i = mid;
    let mut jj = m2;
    let mut out = hi;
    proof {
        assert(lrun.take(mi - li) =~= lrun);
        assert(rrun.take(m2 as int) =~= rrun);
        assert(v@.subrange(hh, hh) =~= Seq::<T>::empty());
        assert(v@.subrange(li, mi) =~= lrun);
        assert(v@.subrange(li, mi) + rrun.take(m2 as int) + v@.subrange(hh, hh) =~= lrun + rrun);
        if ordered {
            assert(merge_seqs(*c, lrun.take(mi - li), rrun.take(m2 as int)) + v@.subrange(hh, hh)
                =~= merge_seqs(*c, lrun, rrun));
        }
    }
    while i > lo && jj > 0
        invariant
            lo <= i <= mid,
            jj <= m2 == hi - mid,
            hi <= n == v@.len(),
            orig.len() == n,
            li == lo as int && mi == mid as int && hh == hi as int,
            lo <= mid <= hi,
            out == i + jj,
            buf@ == rrun,
            lrun == orig.subrange(li, mi),
            rrun == orig.subrange(mi, hh),
            le == le_of(*c),
            ordered == (valid_cmp(*c) && sorted_by(lrun, le) && sorted_by(rrun, le)),
            v@.subrange(0, i as int) == orig.subrange(0, i as int),
            v@.subrange(hh, n as int) == orig.subrange(hh, n as int),
            (v@.subrange(li, i as int) + rrun.take(jj as int) + v@.subrange(
                out as int,
                hh,
            )).to_multiset() == (lrun + rrun).to_multiset(),
            ordered ==> merge_seqs(*c, lrun, rrun) == merge_seqs(
                *c,
                lrun.take(i - li),
                rrun.take(jj as int),
            ) + v@.subrange(out as int, hh),
        decreases i + jj,
    {
        let ghost before = v@;
        let bv = buf[jj - 1];
        let lv = v[i - 1];
        proof {
            assert(lv == orig[i - 1]) by {
                assert(v@.subrange(0, i as int)[i - 1] == orig.subrange(0, i as int)[i - 1]);
            }
            assert(lv == lrun[i - 1 - li] && bv == rrun[jj - 1]);
        }
        let take_left = c.is_less(&bv, &lv);
        let x = if take_left {
            lv
        } else {
            bv
        };
        out = out - 1;
        v[out] = x;
        proof {
            let a = before.subrange(li, i as int);
            let rt = rrun.take(jj as int);
            let tail = before.subrange(out + 1, hh);
            assert(a.len() > 0 && rt.len() > 0);
            assert(a.last() == lv && rt.last() == bv);
            assert(v@.subrange(0, i - 1) =~= before.subrange(0, i - 1));
            assert(v@.subrange(hh, n as int) =~= before.subrange(hh, n as int));
            assert(v@.subrange(out as int, hh) =~= seq![x] + tail);
            lemma_prepend_multiset(x, tail);
            lemma_multiset_commutative(a, rt);
            lemma_multiset_commutative(a + rt, tail);
            if take_left {
                let a2 = before.subrange(li, i - 1);
                assert(a =~= a2.push(x));
                assert(a2.push(x).to_multiset() =~= a2.to_multiset().insert(x));
                lemma_multiset_commutative(a2, rt);
                lemma_multiset_commutative(a2 + rt, seq![x] + tail);
                assert(v@.subrange(li, i - 1) =~= a2);
                assert((v@.subrange(li, i - 1) + rt + v@.subrange(out as int, hh)).to_multiset()
                    =~= (a + rt + tail).to_multiset());
            } else {
                let rt2 = rrun.take(jj - 1);
                assert(rt =~= rt2.push(x));
                assert(rt2.push(x).to_multiset() =~= rt2.to_multiset().insert(x));
                assert(v@.subrange(li, i as int) =~= a);
                assert(v@.subrange(0, i as int) =~= before.subrange(0, i as int));
                lemma_multiset_commutative(a, rt2);
                lemma_multiset_commutative(a + rt2, seq![x] + tail);
                assert((v@.subrange(li, i as int) + rt2 + v@.subrange(
                    out as int,
                    hh,
                )).to_multiset() =~= (a + rt + tail).to_multiset());
            }
            if ordered {
                let lt = lrun.take(i - li);
                lemma_sorted_subrange(lrun, le, 0, i - li);
                lemma_sorted_subrange(rrun, le, 0, jj as int);
                assert(lt.last() == lv && rt.last() == bv) by {
                    assert(lt[i - li - 1] == lrun[i - li - 1]);
                }
                lemma_merge_unfold_back(*c, lt, rt);
                if take_left {
                    assert(lt.drop_last() =~= lrun.take(i - 1 - li));
                    assert(merge_seqs(*c, lrun, rrun) =~= merge_seqs(
                        *c,
                        lrun.take(i - 1 - li),
                        rt,
                    ) + v@.subrange(out as int, hh));
                } else {
                    assert(rt.drop_last() =~= rrun.take(jj - 1));
                    assert(merge_seqs(*c, lrun, rrun) =~= merge_seqs(
                        *c,
                        lt,
                        rrun.take(jj - 1),
                    ) + v@.subrange(out as int, hh));
                }
            }
        }
        if take_left {
            i = i - 1;
        } else {
            jj = jj - 1;
        }
    }
    // The left run is exhausted: restore what is left of the buffer.  (When
    // the buffer is exhausted instead, the left tail is already in place.)
    while jj > 0
        invariant
            lo <= i <= mid,
            jj <= m2 == hi - mid,
            hi <= n == v@.len(),
            orig.len() == n,
            li == lo as int && mi == mid as int && hh == hi as int,
            lo <= mid <= hi,
            i == lo || jj == 0,
            out == i + jj,
            buf@ == rrun,
            lrun == orig.subrange(li, mi),
            rrun == orig.subrange(mi, hh),
            le == le_of(*c),
            ordered == (valid_cmp(*c) && sorted_by(lrun, le) && sorted_by(rrun, le)),
            v@.subrange(0, i as int) == orig.subrange(0, i as int),
            v@.subrange(hh, n as int) == orig.subrange(hh, n as int),
            (v@.subrange(li, i as int) + rrun.take(jj as int) + v@.subrange(
                out as int,
                hh,
            )).to_multiset() == (lrun + rrun).to_multiset(),
            ordered ==> merge_seqs(*c, lrun, rrun) == merge_seqs(
                *c,
                lrun.take(i - li),
                rrun.take(jj as int),
            ) + v@.subrange(out as int, hh),
        decreases jj,
    {
        let ghost before = v@;
        let x = buf[jj - 1];
        out = out - 1;
        v[out] = x;
        proof {
            let a = before.subrange(li, i as int);
            let rt = rrun.take(jj as int);
            let rt2 = rrun.take(jj - 1);
            let tail = before.subrange(out + 1, hh);
            assert(x == rrun[jj - 1]);
            assert(rt =~= rt2.push(x));
            assert(rt2.push(x).to_multiset() =~= rt2.to_multiset().insert(x));
            assert(v@.subrange(0, i as int) =~= before.subrange(0, i as int));
            assert(v@.subrange(hh, n as int) =~= before.subrange(hh, n as int));
            assert(v@.subrange(out as int, hh) =~= seq![x] + tail);
            assert(v@.subrange(li, i as int) =~= a);
            lemma_prepend_multiset(x, tail);
            lemma_multiset_commutative(a, rt);
            lemma_multiset_commutative(a + rt, tail);
            lemma_multiset_commutative(a, rt2);
            lemma_multiset_commutative(a + rt2, seq![x] + tail);
            assert((v@.subrange(li, i as int) + rt2 + v@.subrange(out as int, hh)).to_multiset()
                =~= (a + rt + tail).to_multiset());
            if ordered {
                let lt = lrun.take(i - li);
                assert(lt.len() == 0);
                assert(merge_seqs(*c, lt, rt) == rt);
                assert(merge_seqs(*c, lt, rt2) == rt2);
                assert(rt2 + (seq![x] + tail) =~= rt + tail);
                assert(merge_seqs(*c, lrun, rrun) =~= merge_seqs(*c, lt, rt2) + v@.subrange(
                    out as int,
                    hh,
                ));
            }
        }
        jj = jj - 1;
    }
    proof {
        assert(out == i);
        let a = v@.subrange(li, i as int);
        let tail = v@.subrange(out as int, hh);
        assert(v@.subrange(li, hh) =~= a + tail);
        assert(rrun.take(0).len() == 0);
        assert(a + rrun.take(0) =~= a);
        lemma_multiset_commutative(a, rrun.take(0));
        lemma_multiset_commutative(a + rrun.take(0), tail);
        lemma_multiset_commutative(a, tail);
        assert(v@.subrange(li, hh).to_multiset() =~= (lrun + rrun).to_multiset());
        assert(orig.subrange(li, hh) =~= lrun + rrun);
        assert(v@.subrange(0, li) =~= orig.subrange(0, li));
        lemma_multiset_frame(orig, v@, li, hh);
        if ordered {
            assert(merge_seqs(*c, lrun.take(i - li), rrun.take(0)) == lrun.take(i - li));
            assert(lrun.take(i - li) =~= a) by {
                assert forall|p: int| li <= p < i implies v@[p] == orig[p] by {
                    assert(v@.subrange(0, i as int)[p] == orig.subrange(0, i as int)[p]);
                }
            }
            assert(merge_seqs(*c, lrun, rrun) =~= v@.subrange(li, hh));
        }
    }
}

} // verus!
