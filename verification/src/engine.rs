//! The top of the engine: run detection, run extension, and the run stack
//! with its collapse rule.
//!
//! The sequence is scanned from the end towards the start for maximal
//! monotonic runs; strictly descending runs are reversed in place.  Short
//! runs are extended with insertion sorting.  Each run is pushed on a stack,
//! and after each push the top four runs are inspected: whenever the length
//! balance rule fires, a specific adjacent pair is merged, until exactly one
//! run spans the whole sequence.  Inspecting four runs (not three) is what
//! keeps the total merge work within bounds on adversarial run layouts.

use vstd::prelude::*;
use vstd::relations::sorted_by;

use crate::classes::{lemma_classes_frame, lemma_classes_reverse, lemma_classes_trans};
use crate::insertion::{insert_head, insertion_sort_remaining, is_less_in};
use crate::merge::merge;
use crate::order::{
    classes_preserved, le_of, lemma_adjacent_sorted, lemma_desc_reverse_sorted, lemma_lt_span,
    lemma_natural_order_valid, valid_cmp, Comparator, NaturalOrder, OrderedValue,
};

verus! {

/// Runs shorter than this are handled entirely by the small-extent sorter.
pub const MAX_INSERTION: usize = 20;

/// A detected run is extended until it is at least this long before it is
/// pushed on the run stack: merging is cheaper for longer runs.
pub const MIN_INSERTION_RUN: usize = 10;

/// A run this short with sixteen elements in front of it is extended by
/// sorting those sixteen with the wide network and fusing the run in.
pub const MAX_PRE_SORT16: usize = 8;

/// A pending run: a half-open range of the sequence, already non-decreasing
/// under the comparator when it was recorded.
#[derive(Clone, Copy)]
pub struct Run {
    pub start: usize,
    pub len: usize,
}

/// The run stack is well formed: runs are non-empty, adjacent, cover
/// `[end, n)` from the back of the sequence, and the most recently pushed
/// run starts at the scan position `end`.
pub open spec fn runs_wf(runs: Seq<Run>, end: int, n: int) -> bool {
    &&& (forall|q: int| 0 <= q < runs.len() ==> 0 < #[trigger] runs[q].len)
    &&& (forall|q: int| 0 <= q < runs.len() ==> #[trigger] runs[q].start + runs[q].len <= n)
    &&& (runs.len() > 0 ==> runs[0].start + runs[0].len == n)
    &&& (forall|q: int|
        1 <= q < runs.len() ==> #[trigger] runs[q].start + runs[q].len == runs[q - 1].start)
    &&& (runs.len() > 0 ==> runs[runs.len() - 1].start == end)
    &&& (runs.len() == 0 ==> end == n)
}

/// Every pending run is sorted (stated under a valid comparator).
pub open spec fn runs_sorted<T, C: Comparator<T>>(c: C, s: Seq<T>, runs: Seq<Run>) -> bool {
    forall|q: int|
        0 <= q < runs.len() ==> sorted_by(
            #[trigger] s.subrange(runs[q].start as int, runs[q].start + runs[q].len),
            le_of(c),
        )
}

/// Earlier-pushed runs lie further right: the run ranges are disjoint and
/// ordered.
pub proof fn lemma_runs_order(runs: Seq<Run>, end: int, n: int, q1: int, q2: int)
    requires
        runs_wf(runs, end, n),
        0 <= q1 <= q2 < runs.len(),
    ensures
        runs[q2].start + runs[q2].len <= runs[q1].start + runs[q1].len,
        q1 < q2 ==> runs[q2].start + runs[q2].len <= runs[q1].start,
    decreases q2 - q1,
{
    if q1 < q2 {
        lemma_runs_order(runs, end, n, q1, q2 - 1);
        assert(runs[q2].start + runs[q2].len == runs[q2 - 1].start);
    }
}

/// The collapse rule over the top four runs: the decision which adjacent
/// pair, if any, must be merged next.
pub open spec fn collapse_spec(runs: Seq<Run>) -> Option<int> {
    let n = runs.len() as int;
    if n >= 2 && (runs[n - 1].start == 0 || runs[n - 2].len <= runs[n - 1].len || (n >= 3 && runs[n
        - 3].len <= runs[n - 2].len + runs[n - 1].len) || (n >= 4 && runs[n - 4].len <= runs[n
        - 3].len + runs[n - 2].len)) {
        if n >= 3 && runs[n - 3].len < runs[n - 1].len {
            Option::Some(n - 3)
        } else {
            Option::Some(n - 2)
        }
    } else {
        Option::None
    }
}

/// Examines the stack and picks the next pair of adjacent runs to merge:
/// `Some(r)` asks for `runs[r + 1]` (left) and `runs[r]` (right).
pub fn collapse(runs: &Vec<Run>) -> (r: Option<usize>)
    ensures
        r is Some <==> collapse_spec(runs@) is Some,
        r matches Some(k) ==> collapse_spec(runs@) == Option::Some(k as int) && k + 1 < runs@.len(),
{
    let n = runs.len();
    if n >= 2 && (runs[n - 1].start == 0 || runs[n - 2].len <= runs[n - 1].len || (n >= 3 && (runs[n
        - 3].len as u128) <= (runs[n - 2].len as u128) + (runs[n - 1].len as u128)) || (n >= 4
        && (runs[n - 4].len as u128) <= (runs[n - 3].len as u128) + (runs[n - 2].len as u128))) {
        if n >= 3 && runs[n - 3].len < runs[n - 1].len {
            Some(n - 3)
        } else {
            Some(n - 2)
        }
    } else {
        None
    }
}

/// Reverses `v[lo..hi]` in place with plain exchanges, which can never lose
/// or duplicate an element, whatever happens around them.
pub fn reverse_range<T: Copy>(v: &mut Vec<T>, lo: usize, hi: usize)
    requires
        lo <= hi <= old(v)@.len(),
    ensures
        final(v)@.len() == old(v)@.len(),
        final(v)@.subrange(0, lo as int) == old(v)@.subrange(0, lo as int),
        final(v)@.subrange(hi as int, old(v)@.len() as int) == old(v)@.subrange(
            hi as int,
            old(v)@.len() as int,
        ),
        final(v)@.subrange(lo as int, hi as int) == old(v)@.subrange(lo as int, hi as int).reverse(),
        final(v)@.to_multiset() == old(v)@.to_multiset(),
{
    let ghost orig = v@;
    let n = v.len();
    let mut a = lo;
    let mut b = hi;
    while a < b && b - a >= 2
        invariant
            lo <= a <= b <= hi <= n == v@.len(),
            orig.len() == n,
            a - lo == hi - b,
            forall|m: int| 0 <= m < lo ==> v@[m] == orig[m],
            forall|m: int| hi <= m < n ==> v@[m] == orig[m],
            forall|m: int| a <= m < b ==> v@[m] == orig[m],
            forall|m: int| lo <= m < a ==> v@[m] == orig[hi - 1 - (m - lo)],
            forall|m: int| b <= m < hi ==> v@[m] == orig[hi - 1 - (m - lo)],
        decreases b - a,
    {
        b = b - 1;
        let x = v[a];
        let y = v[b];
        v[a] = y;
        v[b] = x;
        a = a + 1;
    }
    proof {
        let li = lo as int;
        let hh = hi as int;
        assert(final(v)@.subrange(0, li) =~= orig.subrange(0, li));
        assert(final(v)@.subrange(hh, n as int) =~= orig.subrange(hh, n as int));
        assert(final(v)@.subrange(li, hh) =~= orig.subrange(li, hh).reverse()) by {
            let sub = orig.subrange(li, hh);
            assert forall|m: int| 0 <= m < hh - li implies final(v)@.subrange(li, hh)[m]
                == sub.reverse()[m] by {
                assert(sub.reverse()[m] == sub[hh - li - 1 - m]);
                assert(sub[hh - li - 1 - m] == orig[hh - 1 - m]);
                assert(v@[li + m] == orig[hh - 1 - m]);
            }
        }
        orig.subrange(li, hh).lemma_reverse_to_multiset();
        crate::classes::lemma_multiset_frame(orig, final(v)@, li, hh);
    }
}

/// Sorts a short range: exchange networks handle two to sixteen elements,
/// and the panic-free insertion sort extends a sorted network block over
/// whatever remains.
pub fn sort_small<T: Copy, C: Comparator<T>>(v: &mut Vec<T>, lo: usize, hi: usize, c: &C)
    requires
        lo <= hi <= old(v)@.len(),
    ensures
        final(v)@.len() == old(v)@.len(),
        final(v)@.subrange(0, lo as int) == old(v)@.subrange(0, lo as int),
        final(v)@.subrange(hi as int, old(v)@.len() as int) == old(v)@.subrange(
            hi as int,
            old(v)@.len() as int,
        ),
        final(v)@.to_multiset() == old(v)@.to_multiset(),
        valid_cmp(*c) ==> classes_preserved(*c, old(v)@, final(v)@),
        valid_cmp(*c) ==> sorted_by(final(v)@.subrange(lo as int, hi as int), le_of(*c)),
{
    let n = v.len();
    let span = hi - lo;
    if span < 2 {
        proof {
            assert(final(v)@.subrange(0, lo as int) =~= old(v)@.subrange(0, lo as int));
            assert(final(v)@.subrange(hi as int, old(v)@.len() as int) =~= old(v)@.subrange(
                hi as int,
                old(v)@.len() as int,
            ));
        }
        return ;
    }
    if span == 2 {
        crate::small_sort::sort2(v, lo, c);
        return ;
    }
    if span == 3 {
        crate::small_sort::sort3(v, lo, c);
        return ;
    }
    let block: usize = if span < 8 {
        4
    } else if span < 16 {
        8
    } else {
        16
    };
    let ghost orig = v@;
    if block == 4 {
        crate::small_sort::sort4(v, lo, c);
    } else if block == 8 {
        crate::small_sort::sort8(v, lo, c);
    } else {
        crate::small_sort::sort16(v, lo, c);
    }
    let ghost mid_state = v@;
    insertion_sort_remaining(v, lo, lo + block, hi, c);
    proof {
        let li = lo as int;
        let hh = hi as int;
        let n = orig.len() as int;
        crate::classes::lemma_frames(orig, mid_state, li, lo + block);
        assert(final(v)@.subrange(0, li) =~= orig.subrange(0, li)) by {
            assert forall|m: int| 0 <= m < li implies final(v)@[m] == orig[m] by {
                assert(final(v)@.subrange(0, li)[m] == mid_state.subrange(0, li)[m]);
            }
        }
        assert(final(v)@.subrange(hh, n) =~= orig.subrange(hh, n)) by {
            assert forall|m: int| hh <= m < n implies final(v)@[m] == orig[m] by {
                assert(final(v)@.subrange(hh, n)[m - hh] == mid_state.subrange(hh, n)[m - hh]);
            }
        }
        if valid_cmp(*c) {
            lemma_classes_trans(*c, orig, mid_state, v@);
        }
    }
}

/// Extends a detected run `v[start..end]` leftwards until it reaches the
/// minimum run length or the start of the sequence.  A run that is already
/// long enough is returned as it stands, with the sequence untouched.
pub fn provide_sorted_batch<T: Copy, C: Comparator<T>>(
    v: &mut Vec<T>,
    start: usize,
    end: usize,
    c: &C,
) -> (ns: usize)
    requires
        start < end <= old(v)@.len(),
    ensures
        ns <= start,
        end - start >= MIN_INSERTION_RUN ==> ns == start && final(v)@ == old(v)@,
        end - start < MIN_INSERTION_RUN ==> ns == 0 || end - ns >= MIN_INSERTION_RUN,
        final(v)@.len() == old(v)@.len(),
        final(v)@.subrange(0, ns as int) == old(v)@.subrange(0, ns as int),
        final(v)@.subrange(end as int, old(v)@.len() as int) == old(v)@.subrange(
            end as int,
            old(v)@.len() as int,
        ),
        final(v)@.to_multiset() == old(v)@.to_multiset(),
        valid_cmp(*c) ==> classes_preserved(*c, old(v)@, final(v)@),
        valid_cmp(*c) && sorted_by(old(v)@.subrange(start as int, end as int), le_of(*c))
            ==> sorted_by(final(v)@.subrange(ns as int, end as int), le_of(*c)),
{
    let ghost orig = v@;
    let ghost le = le_of(*c);
    let n = v.len();
    let diff = end - start;
    if diff < MAX_PRE_SORT16 && start >= 16 {
        let ns = start - 16;
        crate::small_sort::sort16(v, ns, c);
        let ghost mid_state = v@;
        insertion_sort_remaining(v, ns, start, end, c);
        proof {
            let si = ns as int;
            let ei = end as int;
            crate::classes::lemma_frames(orig, mid_state, si, si + 16);
            assert(final(v)@.subrange(0, si) =~= orig.subrange(0, si)) by {
                assert forall|m: int| 0 <= m < si implies final(v)@[m] == orig[m] by {
                    assert(final(v)@.subrange(0, si)[m] == mid_state.subrange(0, si)[m]);
                }
            }
            assert(final(v)@.subrange(ei, n as int) =~= orig.subrange(ei, n as int)) by {
                assert forall|m: int| ei <= m < n implies final(v)@[m] == orig[m] by {
                    assert(final(v)@.subrange(ei, n as int)[m - ei] == mid_state.subrange(
                        ei,
                        n as int,
                    )[m - ei]);
                }
            }
            if valid_cmp(*c) {
                lemma_classes_trans(*c, orig, mid_state, v@);
            }
        }
        return ns;
    }
    if diff >= MIN_INSERTION_RUN || start == 0 {
        proof {
            assert(final(v)@.subrange(0, start as int) =~= orig.subrange(0, start as int));
            assert(final(v)@.subrange(end as int, n as int) =~= orig.subrange(
                end as int,
                n as int,
            ));
        }
        return start;
    }
    let deficit = MIN_INSERTION_RUN - diff;
    let target = if start >= deficit {
        start - deficit
    } else {
        0
    };
    let mut i = start;
    while i > target
        invariant
            target <= i <= start < end <= n == v@.len(),
            orig.len() == n,
            le == le_of(*c),
            v@.subrange(0, i as int) == orig.subrange(0, i as int),
            v@.subrange(end as int, n as int) == orig.subrange(end as int, n as int),
            v@.to_multiset() == orig.to_multiset(),
            valid_cmp(*c) ==> classes_preserved(*c, orig, v@),
            valid_cmp(*c) && sorted_by(orig.subrange(start as int, end as int), le) ==> sorted_by(
                v@.subrange(i as int, end as int),
                le,
            ),
        decreases i,
    {
        i = i - 1;
        let ghost before = v@;
        insert_head(v, i, end, c);
        proof {
            assert(v@.subrange(0, i as int) =~= orig.subrange(0, i as int)) by {
                assert forall|m: int| 0 <= m < i implies v@[m] == orig[m] by {
                    assert(v@.subrange(0, i as int)[m] == before.subrange(0, i as int)[m]);
                    assert(before.subrange(0, i + 1)[m] == orig.subrange(0, i + 1)[m]);
                }
            }
            assert(v@.subrange(end as int, n as int) =~= orig.subrange(end as int, n as int)) by {
                assert forall|m: int| end <= m < n implies v@[m] == orig[m] by {
                    assert(v@.subrange(end as int, n as int)[m - end] == before.subrange(
                        end as int,
                        n as int,
                    )[m - end]);
                    assert(before.subrange(end as int, n as int)[m - end] == orig.subrange(
                        end as int,
                        n as int,
                    )[m - end]);
                }
            }
            if valid_cmp(*c) {
                lemma_classes_trans(*c, orig, before, v@);
            }
        }
    }
    i
}

/// One collapse step keeps the run stack well formed: the fused run takes
/// the left run's start, spans both, and stays adjacent to its neighbours.
pub proof fn lemma_collapse_wf(
    old_runs: Seq<Run>,
    new_runs: Seq<Run>,
    r: int,
    end: int,
    n: int,
)
    requires
        runs_wf(old_runs, end, n),
        0 <= r && r + 1 < old_runs.len(),
        new_runs.len() == old_runs.len() - 1,
        forall|q: int| 0 <= q < r ==> #[trigger] new_runs[q] == old_runs[q],
        forall|q: int| r < q < new_runs.len() ==> #[trigger] new_runs[q] == old_runs[q + 1],
        new_runs[r].start == old_runs[r + 1].start,
        new_runs[r].len == old_runs[r + 1].len + old_runs[r].len,
    ensures
        runs_wf(new_runs, end, n),
{
    assert(old_runs[r + 1].start + old_runs[r + 1].len == old_runs[r].start);
    if new_runs.len() > 0 {
        assert(new_runs[new_runs.len() - 1].start == end) by {
            if r == new_runs.len() - 1 {
                assert(old_runs[old_runs.len() - 1].start == end);
            } else {
                assert(new_runs[new_runs.len() - 1] == old_runs[old_runs.len() - 1]);
            }
        }
    }
}

/// One collapse step keeps every pending run sorted when the comparator is
/// valid: the merged pair becomes the stable merge of two sorted runs, and
/// the other runs' ranges are untouched by the merge.
#[verifier::rlimit(100)]
#[verifier::spinoff_prover]
pub proof fn lemma_collapse_sorted<T, C: Comparator<T>>(
    c: C,
    before: Seq<T>,
    after: Seq<T>,
    old_runs: Seq<Run>,
    new_runs: Seq<Run>,
    r: int,
    end: int,
    n: int,
)
    requires
        valid_cmp(c),
        runs_wf(old_runs, end, n),
        0 <= r && r + 1 < old_runs.len(),
        new_runs.len() == old_runs.len() - 1,
        forall|q: int| 0 <= q < r ==> #[trigger] new_runs[q] == old_runs[q],
        forall|q: int| r < q < new_runs.len() ==> #[trigger] new_runs[q] == old_runs[q + 1],
        new_runs[r].start == old_runs[r + 1].start,
        new_runs[r].len == old_runs[r + 1].len + old_runs[r].len,
        before.len() == n,
        crate::merge::merge_post(
            c,
            before,
            after,
            old_runs[r + 1].start as int,
            old_runs[r].start as int,
            old_runs[r].start + old_runs[r].len,
        ),
        runs_sorted(c, before, old_runs),
    ensures
        after.len() == n,
        runs_sorted(c, after, new_runs),
{
    let le = le_of(c);
    let left = old_runs[r + 1];
    let right = old_runs[r];
    let lo2 = left.start as int;
    let mi2 = right.start as int;
    let hi3 = right.start + right.len;
    assert(left.start + left.len == right.start);
    assert(sorted_by(before.subrange(lo2, mi2), le));
    assert(sorted_by(before.subrange(mi2, hi3), le));
    assert forall|q: int| 0 <= q < new_runs.len() implies sorted_by(
        #[trigger] after.subrange(new_runs[q].start as int, new_runs[q].start + new_runs[q].len),
        le,
    ) by {
        if q == r {
            assert(after.subrange(lo2, hi3) == crate::merge_spec::merge_seqs(
                c,
                before.subrange(lo2, mi2),
                before.subrange(mi2, hi3),
            ));
            crate::merge_spec::lemma_merge_sorted(
                c,
                before.subrange(lo2, mi2),
                before.subrange(mi2, hi3),
            );
        } else {
            let q_old = if q < r {
                q
            } else {
                q + 1
            };
            let rs = old_runs[q_old].start as int;
            let rl = old_runs[q_old].len as int;
            if q < r {
                lemma_runs_order(old_runs, end, n, q, r);
                assert(hi3 <= rs);
            } else {
                lemma_runs_order(old_runs, end, n, r + 1, q_old);
                assert(rs + rl <= lo2);
            }
            assert(after.subrange(rs, rs + rl) =~= before.subrange(rs, rs + rl)) by {
                assert forall|m: int| rs <= m < rs + rl implies after[m] == before[m] by {
                    if m < lo2 {
                        assert(after.subrange(0, lo2)[m] == before.subrange(0, lo2)[m]);
                    } else {
                        assert(after.subrange(hi3, n)[m - hi3] == before.subrange(
                            hi3,
                            n,
                        )[m - hi3]);
                    }
                }
            }
            assert(sorted_by(before.subrange(rs, rs + rl), le));
        }
    }
}

/// The core of the engine: sort `v` by detecting runs, extending short
/// ones, and merging adjacent runs as the collapse rule demands, until one
/// run spans the whole sequence.
#[verifier::rlimit(100)]
fn merge_sort<T: Copy, C: Comparator<T>>(v: &mut Vec<T>, c: &C)
    ensures
        final(v)@.len() == old(v)@.len(),
        final(v)@.to_multiset() == old(v)@.to_multiset(),
        valid_cmp(*c) ==> sorted_by(final(v)@, le_of(*c)),
        valid_cmp(*c) ==> classes_preserved(*c, old(v)@, final(v)@),
{
    let ghost orig = v@;
    let ghost le = le_of(*c);
    let n = v.len();
    if n <= MAX_INSERTION {
        sort_small(v, 0, n, c);
        proof {
            if valid_cmp(*c) {
                assert(v@.subrange(0, n as int) =~= v@);
            }
        }
        return;
    }
    // The scratch buffer is allocated once per call; a merge copies at most
    // the shorter run, never more than half the sequence, into it.
    let mut buf: Vec<T> = Vec::with_capacity(n / 2);
    let mut runs: Vec<Run> = Vec::new();
    let mut end = n;
    while end > 0
        invariant
            end <= n == v@.len(),
            orig.len() == n,
            le == le_of(*c),
            v@.to_multiset() == orig.to_multiset(),
            valid_cmp(*c) ==> classes_preserved(*c, orig, v@),
            runs_wf(runs@, end as int, n as int),
            valid_cmp(*c) ==> runs_sorted(*c, v@, runs@),
            collapse_spec(runs@) is None,
        decreases end,
    {
        let ghost at_iter = v@;
        // Find the next maximal monotonic run ending at `end`, reversing it
        // when it is strictly descending.
        let mut start = end - 1;
        if start > 0 {
            start = start - 1;
            if is_less_in(c, v, start + 1, start) {
                while start > 0 && is_less_in(c, v, start, start - 1)
                    invariant
                        end <= n == v@.len(),
                        start < end - 1 < n,
                        v@ == at_iter,
                        forall|m: int|
                            start <= m < end - 1 ==> c.lt(#[trigger] v@[m + 1], v@[m]),
                    decreases start,
                {
                    start = start - 1;
                }
                let ghost pre = v@;
                reverse_range(v, start, end);
                proof {
                    let si = start as int;
                    let ei = end as int;
                    let sub = pre.subrange(si, ei);
                    assert forall|m: int| 0 <= m < sub.len() - 1 implies c.lt(
                        #[trigger] sub[m + 1],
                        sub[m],
                    ) by {
                        assert(c.lt(pre[si + m + 1], pre[si + m]));
                    }
                    if valid_cmp(*c) {
                        lemma_desc_reverse_sorted(*c, sub);
                        assert forall|i1: int, j1: int| 0 <= i1 < j1 < sub.len() implies c.lt(
                            #[trigger] sub[j1],
                            #[trigger] sub[i1],
                        ) by {
                            lemma_lt_span(*c, sub, i1, j1);
                        }
                        lemma_classes_reverse(*c, sub);
                        lemma_classes_frame(*c, pre, v@, si, ei);
                        lemma_classes_trans(*c, orig, pre, v@);
                        assert(sorted_by(v@.subrange(si, ei), le));
                        // Runs on the stack lie in [end, n): untouched.
                        assert forall|q: int| 0 <= q < runs@.len() implies sorted_by(
                            #[trigger] v@.subrange(runs@[q].start as int, runs@[q].start
                                + runs@[q].len),
                            le,
                        ) by {
                            assert(runs@[q].start + runs@[q].len <= n);
                            assert(runs@[q].start >= end) by {
                                lemma_runs_order(runs@, ei, n as int, q, runs@.len() - 1);
                            }
                            assert(v@.subrange(runs@[q].start as int, runs@[q].start
                                + runs@[q].len) =~= pre.subrange(runs@[q].start as int,
                            runs@[q].start + runs@[q].len)) by {
                                assert forall|m: int|
                                    runs@[q].start <= m < runs@[q].start + runs@[q].len implies v@[m]
                                    == pre[m] by {
                                    assert(v@.subrange(ei, n as int)[m - ei] == pre.subrange(
                                        ei,
                                        n as int,
                                    )[m - ei]);
                                }
                            }
                        }
                    }
                }
            } else {
                while start > 0 && !is_less_in(c, v, start, start - 1)
                    invariant
                        end <= n == v@.len(),
                        start < end - 1 < n,
                        v@ == at_iter,
                        forall|m: int|
                            start <= m < end - 1 ==> !c.lt(#[trigger] v@[m + 1], v@[m]),
                    decreases start,
                {
                    start = start - 1;
                }
                proof {
                    if valid_cmp(*c) {
                        let sub = v@.subrange(start as int, end as int);
                        assert forall|m: int| 0 <= m < sub.len() - 1 implies !c.lt(
                            #[trigger] sub[m + 1],
                            sub[m],
                        ) by {
                            assert(!c.lt(v@[start + m + 1], v@[start + m]));
                        }
                        lemma_adjacent_sorted(*c, sub);
                    }
                }
            }
        }
        proof {
            if valid_cmp(*c) && start == end - 1 {
                let sub = v@.subrange(start as int, end as int);
                assert(sub.len() == 1);
                assert(sorted_by(sub, le));
            }
        }
        let ghost pre_batch = v@;
        let start2 = provide_sorted_batch(v, start, end, c);
        proof {
            if valid_cmp(*c) {
                lemma_classes_trans(*c, orig, pre_batch, v@);
                // Pending runs lie beyond `end` and are untouched.
                assert forall|q: int| 0 <= q < runs@.len() implies sorted_by(
                    #[trigger] v@.subrange(runs@[q].start as int, runs@[q].start + runs@[q].len),
                    le,
                ) by {
                    assert(runs@[q].start + runs@[q].len <= n);
                    assert(runs@[q].start >= end) by {
                        lemma_runs_order(runs@, end as int, n as int, q, runs@.len() - 1);
                    }
                    assert(v@.subrange(runs@[q].start as int, runs@[q].start + runs@[q].len)
                        =~= pre_batch.subrange(runs@[q].start as int, runs@[q].start
                        + runs@[q].len)) by {
                        assert forall|m: int|
                            runs@[q].start <= m < runs@[q].start + runs@[q].len implies v@[m]
                            == pre_batch[m] by {
                            assert(v@.subrange(end as int, n as int)[m - end] == pre_batch.subrange(
                                end as int,
                                n as int,
                            )[m - end]);
                        }
                    }
                }
            }
        }
        let ghost runs_before_push = runs@;
        runs.push(Run { start: start2, len: end - start2 });
        proof {
            assert(runs@ == runs_before_push.push(Run { start: start2, len: (end - start2) as usize }));
            assert(runs_wf(runs@, start2 as int, n as int)) by {
                assert(runs@[runs@.len() - 1].start == start2);
                assert(forall|q: int|
                    0 <= q < runs_before_push.len() ==> runs@[q] == runs_before_push[q]);
            }
        }
        end = start2;
        // Merge adjacent runs until the collapse rule is satisfied.
        let mut merging: usize = 1;
        while merging == 1
            invariant
                end <= n == v@.len(),
                orig.len() == n,
                le == le_of(*c),
                merging <= 1,
                v@.to_multiset() == orig.to_multiset(),
                valid_cmp(*c) ==> classes_preserved(*c, orig, v@),
                runs_wf(runs@, end as int, n as int),
                valid_cmp(*c) ==> runs_sorted(*c, v@, runs@),
                merging == 0 ==> collapse_spec(runs@) is None,
            decreases runs@.len() + merging,
        {
            match collapse(&runs) {
                Option::Some(r) => {
                    let ghost old_runs = runs@;
                    let ghost before = v@;
                    let stack_len = runs.len();
                    proof {
                        assert(r + 1 < stack_len);
                    }
                    let left = runs[r + 1];
                    let right = runs[r];
                    proof {
                        assert(left == old_runs[r + 1] && right == old_runs[r as int]);
                        assert(left.start + left.len == right.start);
                        assert(right.start + right.len <= n);
                        assert(0 < left.len && 0 < right.len);
                    }
                    let hi2 = right.start + right.len;
                    merge(v, left.start, right.start, hi2, &mut buf, c);
                    runs[r] = Run { start: left.start, len: left.len + right.len };
                    let _removed = runs.remove(r + 1);
                    proof {
                        let new_runs = runs@;
                        assert(new_runs.len() == old_runs.len() - 1);
                        assert(forall|q: int| 0 <= q < r ==> #[trigger] new_runs[q] == old_runs[q]);
                        assert(forall|q: int|
                            r < q < new_runs.len() ==> #[trigger] new_runs[q] == old_runs[q + 1]);
                        lemma_collapse_wf(old_runs, new_runs, r as int, end as int, n as int);
                        if valid_cmp(*c) {
                            assert(sorted_by(
                                before.subrange(left.start as int, left.start + left.len),
                                le,
                            ));
                            assert(sorted_by(
                                before.subrange(right.start as int, right.start + right.len),
                                le,
                            ));
                            lemma_collapse_sorted(
                                *c,
                                before,
                                v@,
                                old_runs,
                                new_runs,
                                r as int,
                                end as int,
                                n as int,
                            );
                            lemma_classes_trans(*c, orig, before, v@);
                        }
                    }
                }
                Option::None => {
                    merging = 0;
                }
            }
        }
    }
    proof {
        assert(runs@.len() >= 1) by {
            if runs@.len() == 0 {
                assert(end == n);
            }
        }
        assert(runs@.len() == 1) by {
            if runs@.len() >= 2 {
                assert(runs@[runs@.len() - 1].start == 0);
                assert(collapse_spec(runs@) is Some);
            }
        }
        assert(runs@[0].start == 0 && runs@[0].len == n);
        if valid_cmp(*c) {
            assert(sorted_by(v@.subrange(0, n as int), le));
            assert(v@.subrange(0, n as int) =~= v@);
        }
    }
}

/// Sorts the sequence with a caller-supplied comparator.  The element
/// multiset is preserved for every comparator, even one that violates a
/// strict total order; when the comparator is valid the result is sorted
/// and stable.
pub fn stable_sort<T: Copy, C: Comparator<T>>(v: &mut Vec<T>, c: &C)
    ensures
        final(v)@.len() == old(v)@.len(),
        final(v)@.to_multiset() == old(v)@.to_multiset(),
        valid_cmp(*c) ==> sorted_by(final(v)@, le_of(*c)),
        valid_cmp(*c) ==> classes_preserved(*c, old(v)@, final(v)@),
        vstd::relations::total_ordering(le_of(*c)) ==> final(v)@ == old(v)@.sort_by(le_of(*c)),
{
    merge_sort(v, c);
    proof {
        if vstd::relations::total_ordering(le_of(*c)) {
            assert(valid_cmp(*c));
            crate::laws::lemma_sorted_matches_reference(*c, old(v)@, v@);
        }
    }
}

/// Sorts the sequence by a comparator, stably.
pub fn sort_by<T: Copy, C: Comparator<T>>(v: &mut Vec<T>, c: &C)
    ensures
        final(v)@.len() == old(v)@.len(),
        final(v)@.to_multiset() == old(v)@.to_multiset(),
        valid_cmp(*c) ==> sorted_by(final(v)@, le_of(*c)),
        valid_cmp(*c) ==> classes_preserved(*c, old(v)@, final(v)@),
        vstd::relations::total_ordering(le_of(*c)) ==> final(v)@ == old(v)@.sort_by(le_of(*c)),
{
    stable_sort(v, c);
}

/// Sorts the sequence ascending by the elements' own total order.  The
/// result is exactly the sorted permutation of the input.
pub fn sort<T: OrderedValue>(v: &mut Vec<T>)
    ensures
        final(v)@.len() == old(v)@.len(),
        final(v)@.to_multiset() == old(v)@.to_multiset(),
        sorted_by(final(v)@, le_of::<T, NaturalOrder>(NaturalOrder)),
        classes_preserved(NaturalOrder, old(v)@, final(v)@),
        final(v)@ == old(v)@.sort_by(le_of::<T, NaturalOrder>(NaturalOrder)),
{
    let ghost orig = v@;
    stable_sort(v, &NaturalOrder);
    proof {
        lemma_natural_order_valid::<T>();
        let le = le_of::<T, NaturalOrder>(NaturalOrder);
        orig.lemma_sort_by_ensures(le);
        vstd::seq_lib::lemma_sorted_unique(v@, orig.sort_by(le), le);
    }
}

} // verus!
