//! Panic-free insertion sorting.
//!
//! The element to be placed is lifted out once, the gap is shifted over the
//! elements it must pass, and the lifted element is written into the final
//! hole — a rotation by one.  Because the shift is driven by comparisons
//! made *before* any element moves, every comparison sees two distinct live
//! slots of the sequence, and the rotation itself can never lose or
//! duplicate an element.

use vstd::prelude::*;
use vstd::relations::sorted_by;

use crate::classes::{lemma_classes_rotate, lemma_classes_trans, lemma_multiset_rotate};
use crate::merge_spec::{lemma_sorted_concat, lemma_sorted_subrange};
use crate::order::{classes_preserved, equiv, le_of, valid_cmp, Comparator};

verus! {

/// Compares two distinct slots of one sequence.  Every comparison the engine
/// makes between elements living in the same sequence goes through this
/// helper; its precondition `i != j` is the engine's guarantee that a
/// comparator is never handed the same storage slot twice.
pub fn is_less_in<T: Copy, C: Comparator<T>>(c: &C, v: &Vec<T>, i: usize, j: usize) -> (r: bool)
    requires
        i < v@.len(),
        j < v@.len(),
        i != j,
    ensures
        r == c.lt(v@[i as int], v@[j as int]),
{
    let a = v[i];
    let b = v[j];
    c.is_less(&a, &b)
}

/// Inserts `v[i]` into the sorted range `v[lo..i]`, extending it to
/// `v[lo..i+1]`.  The multiset is preserved for every comparator; sortedness
/// and stability hold when the comparator is valid.
pub fn insert_tail<T: Copy, C: Comparator<T>>(v: &mut Vec<T>, lo: usize, i: usize, c: &C)
    requires
        lo <= i < old(v)@.len(),
    ensures
        final(v)@.len() == old(v)@.len(),
        final(v)@.subrange(0, lo as int) == old(v)@.subrange(0, lo as int),
        final(v)@.subrange(i + 1, old(v)@.len() as int) == old(v)@.subrange(
            i + 1,
            old(v)@.len() as int,
        ),
        final(v)@.to_multiset() == old(v)@.to_multiset(),
        valid_cmp(*c) ==> classes_preserved(*c, old(v)@, final(v)@),
        valid_cmp(*c) && sorted_by(old(v)@.subrange(lo as int, i as int), le_of(*c)) ==> sorted_by(
            final(v)@.subrange(lo as int, i + 1),
            le_of(*c),
        ),
{
    let ghost orig = v@;
    let ghost le = le_of(*c);
    let n = v.len();
    // Find the hole: scan left over the elements the new element must pass.
    let mut h = i;
    while h > lo && is_less_in(c, v, i, h - 1)
        invariant
            lo <= h <= i < n == v@.len(),
            v@ == orig,
            forall|m: int| h <= m < i ==> c.lt(orig[i as int], #[trigger] orig[m]),
        decreases h,
    {
        h = h - 1;
    }
    // Shift the passed elements one slot right and drop the element in.
    if h < i {
        let tmp = v[i];
        let mut j = i;
        while j > h
            invariant
                lo <= h <= j <= i < n == v@.len(),
                tmp == orig[i as int],
                forall|m: int| 0 <= m <= j ==> v@[m] == orig[m],
                forall|m: int| j < m <= i ==> v@[m] == orig[m - 1],
                forall|m: int| i < m < n ==> v@[m] == orig[m],
            decreases j,
        {
            let x = v[j - 1];
            v[j] = x;
            j = j - 1;
        }
        v[h] = tmp;
    }
    proof {
        let li = lo as int;
        let ii = i as int;
        let hi = h as int;
        let ni = n as int;
        let a = orig.subrange(0, hi);
        let m = orig.subrange(hi, ii);
        let e = orig[ii];
        let b = orig.subrange(ii + 1, ni);
        assert(v@ =~= a + seq![e] + m + b);
        assert(orig =~= a + m + seq![e] + b);
        lemma_multiset_rotate(a, m, e, b);
        assert(final(v)@.subrange(0, li) =~= orig.subrange(0, li));
        assert(final(v)@.subrange(ii + 1, ni) =~= orig.subrange(ii + 1, ni));
        if valid_cmp(*c) {
            assert forall|k: int| 0 <= k < m.len() implies !equiv(*c, e, #[trigger] m[k]) by {
                assert(c.lt(orig[ii], orig[hi + k]));
            }
            lemma_classes_rotate(*c, a, m, e, b);
            if sorted_by(orig.subrange(li, ii), le) {
                let pre = orig.subrange(li, hi);
                lemma_sorted_subrange(orig.subrange(li, ii), le, 0, hi - li);
                lemma_sorted_subrange(orig.subrange(li, ii), le, hi - li, ii - li);
                assert(pre =~= orig.subrange(li, ii).subrange(0, hi - li));
                assert(m =~= orig.subrange(li, ii).subrange(hi - li, ii - li));
                // The element sits above its left neighbour and strictly
                // below everything it passed.
                if h < i {
                    assert forall|k: int| 0 <= k < m.len() implies le(e, #[trigger] m[k]) by {
                        assert(c.lt(orig[ii], orig[hi + k]));
                        assert(le(e, m[k]) || le(m[k], e));
                    }
                    lemma_sorted_concat(*c, seq![e], m);
                    if h > lo {
                        assert(le(pre.last(), (seq![e] + m).first())) by {
                            assert(!c.lt(orig[ii], orig[hi - 1]));
                        }
                    }
                    lemma_sorted_concat(*c, pre, seq![e] + m);
                    assert(final(v)@.subrange(li, ii + 1) =~= pre + (seq![e] + m));
                } else {
                    assert(m.len() == 0);
                    if i > lo {
                        assert(le(pre.last(), e)) by {
                            assert(!c.lt(orig[ii], orig[ii - 1]));
                        }
                    }
                    lemma_sorted_concat(*c, pre, seq![e]);
                    assert(final(v)@.subrange(li, ii + 1) =~= pre + seq![e]);
                }
            }
        }
    }
}

/// Inserts `v[i]` into the sorted range `v[i+1..hi]`, extending it to
/// `v[i..hi]`.  Ties keep the lifted element in front, so stability is
/// preserved.
pub fn insert_head<T: Copy, C: Comparator<T>>(v: &mut Vec<T>, i: usize, hi: usize, c: &C)
    requires
        i < hi <= old(v)@.len(),
    ensures
        final(v)@.len() == old(v)@.len(),
        final(v)@.subrange(0, i as int) == old(v)@.subrange(0, i as int),
        final(v)@.subrange(hi as int, old(v)@.len() as int) == old(v)@.subrange(
            hi as int,
            old(v)@.len() as int,
        ),
        final(v)@.to_multiset() == old(v)@.to_multiset(),
        valid_cmp(*c) ==> classes_preserved(*c, old(v)@, final(v)@),
        valid_cmp(*c) && sorted_by(old(v)@.subrange(i + 1, hi as int), le_of(*c)) ==> sorted_by(
            final(v)@.subrange(i as int, hi as int),
            le_of(*c),
        ),
{
    let ghost orig = v@;
    let ghost le = le_of(*c);
    let n = v.len();
    // Scan right over the elements that come strictly before the lifted one.
    let mut j = i + 1;
    while j < hi && is_less_in(c, v, j, i)
        invariant
            i < j <= hi <= n == v@.len(),
            v@ == orig,
            forall|m: int| i < m < j ==> c.lt(#[trigger] orig[m], orig[i as int]),
        decreases hi - j,
    {
        j = j + 1;
    }
    // Shift them one slot left and drop the element in at the far end.
    if j > i + 1 {
        let tmp = v[i];
        let mut k = i;
        while k + 1 < j
            invariant
                i <= k < j <= hi <= n == v@.len(),
                tmp == orig[i as int],
                forall|m: int| 0 <= m < i ==> v@[m] == orig[m],
                forall|m: int| i <= m < k ==> v@[m] == orig[m + 1],
                forall|m: int| k <= m < n ==> v@[m] == orig[m],
            decreases j - k,
        {
            let x = v[k + 1];
            v[k] = x;
            k = k + 1;
        }
        v[j - 1] = tmp;
    }
    proof {
        let ii = i as int;
        let hh = hi as int;
        let jj = j as int;
        let ni = n as int;
        let a = orig.subrange(0, ii);
        let e = orig[ii];
        let m = orig.subrange(ii + 1, jj);
        let b = orig.subrange(jj, ni);
        assert(v@ =~= a + m + seq![e] + b);
        assert(orig =~= a + seq![e] + m + b);
        lemma_multiset_rotate(a, m, e, b);
        assert(final(v)@.subrange(0, ii) =~= orig.subrange(0, ii));
        assert(final(v)@.subrange(hh, ni) =~= orig.subrange(hh, ni));
        if valid_cmp(*c) {
            assert forall|k: int| 0 <= k < m.len() implies !equiv(*c, e, #[trigger] m[k]) by {
                assert(c.lt(orig[ii + 1 + k], orig[ii]));
            }
            lemma_classes_rotate(*c, a, m, e, b);
            if sorted_by(orig.subrange(ii + 1, hh), le) {
                let post = orig.subrange(jj, hh);
                lemma_sorted_subrange(orig.subrange(ii + 1, hh), le, 0, jj - ii - 1);
                lemma_sorted_subrange(orig.subrange(ii + 1, hh), le, jj - ii - 1, hh - ii - 1);
                assert(m =~= orig.subrange(ii + 1, hh).subrange(0, jj - ii - 1));
                assert(post =~= orig.subrange(ii + 1, hh).subrange(jj - ii - 1, hh - ii - 1));
                assert forall|k: int| 0 <= k < m.len() implies le(#[trigger] m[k], e) by {
                    assert(c.lt(orig[ii + 1 + k], orig[ii]));
                    assert(le(m[k], e) || le(e, m[k]));
                }
                lemma_sorted_concat(*c, m, seq![e]);
                if j < hi {
                    assert(le((m + seq![e]).last(), post.first())) by {
                        assert(!c.lt(orig[jj], orig[ii]));
                        assert(le(e, orig[jj]));
                    }
                }
                lemma_sorted_concat(*c, m + seq![e], post);
                assert(final(v)@.subrange(ii, hh) =~= (m + seq![e]) + post);
            }
        }
    }
}

/// Extends the sorted range `v[lo..mid]` to cover `v[lo..hi]` by inserting
/// each following element in turn.
pub fn insertion_sort_remaining<T: Copy, C: Comparator<T>>(
    v: &mut Vec<T>,
    lo: usize,
    mid: usize,
    hi: usize,
    c: &C,
)
    requires
        lo <= mid <= hi <= old(v)@.len(),
        lo < mid,
    ensures
        final(v)@.len() == old(v)@.len(),
        final(v)@.subrange(0, lo as int) == old(v)@.subrange(0, lo as int),
        final(v)@.subrange(hi as int, old(v)@.len() as int) == old(v)@.subrange(
            hi as int,
            old(v)@.len() as int,
        ),
        final(v)@.to_multiset() == old(v)@.to_multiset(),
        valid_cmp(*c) ==> classes_preserved(*c, old(v)@, final(v)@),
        valid_cmp(*c) && sorted_by(old(v)@.subrange(lo as int, mid as int), le_of(*c))
            ==> sorted_by(final(v)@.subrange(lo as int, hi as int), le_of(*c)),
{
    let ghost orig = v@;
    let ghost le = le_of(*c);
    let n = v.len();
    let mut i = mid;
    while i < hi
        invariant
            lo < mid <= i <= hi <= n == v@.len(),
            orig.len() == n,
            le == le_of(*c),
            v@.subrange(0, lo as int) == orig.subrange(0, lo as int),
            v@.subrange(i as int, n as int) == orig.subrange(i as int, n as int),
            v@.to_multiset() == orig.to_multiset(),
            valid_cmp(*c) ==> classes_preserved(*c, orig, v@),
            valid_cmp(*c) && sorted_by(orig.subrange(lo as int, mid as int), le) ==> sorted_by(
                v@.subrange(lo as int, i as int),
                le,
            ),
        decreases hi - i,
    {
        let ghost before = v@;
        proof {
            assert(before[i as int] == orig[i as int]) by {
                assert(before.subrange(i as int, n as int)[0] == orig.subrange(
                    i as int,
                    n as int,
                )[0]);
            }
        }
        insert_tail(v, lo, i, c);
        proof {
            assert(v@.subrange(0, lo as int) =~= before.subrange(0, lo as int));
            assert(v@.subrange(i + 1, n as int) =~= before.subrange(i + 1, n as int)) by {
                assert(v@.subrange(i + 1, n as int) == before.subrange(i + 1, n as int));
            }
            assert(v@.subrange(i + 1, n as int) =~= orig.subrange(i + 1, n as int)) by {
                assert forall|m: int| i + 1 <= m < n implies v@[m] == orig[m] by {
                    assert(before.subrange(i as int, n as int)[m - i] == orig.subrange(
                        i as int,
                        n as int,
                    )[m - i]);
                    assert(v@.subrange(i + 1, n as int)[m - i - 1] == before.subrange(
                        i + 1,
                        n as int,
                    )[m - i - 1]);
                }
            }
            if valid_cmp(*c) {
                lemma_classes_trans(*c, orig, before, v@);
            }
        }
        i = i + 1;
    }
}

} // verus!
