//! The mathematical model of a stable two-way merge.
//!
//! `merge_seqs` merges two sequences front to back, taking from the left
//! sequence on ties — the rule that makes the engine stable.  The lemmas
//! here give its length, multiset, sortedness and stability properties,
//! an unfolding law from the back (used by the backward merge), and the
//! uniqueness theorem: a sorted sequence with prescribed equivalence-class
//! subsequences is unique.

use vstd::prelude::*;
use vstd::relations::sorted_by;
use vstd::seq_lib::lemma_multiset_commutative;

use crate::classes::{lemma_equiv_trans, lemma_filter_empty, lemma_filter_singleton};
use crate::order::{class_pred, class_seq, classes_preserved, equiv, le_of, valid_cmp, Comparator};

verus! {

/// The stable merge of `l` and `r`: the smaller head is taken first, and the
/// head of `l` is preferred when neither head is strictly less.
pub open spec fn merge_seqs<T, C: Comparator<T>>(c: C, l: Seq<T>, r: Seq<T>) -> Seq<T>
    decreases l.len() + r.len(),
{
    if l.len() == 0 {
        r
    } else if r.len() == 0 {
        l
    } else if c.lt(r[0], l[0]) {
        seq![r[0]] + merge_seqs(c, l, r.drop_first())
    } else {
        seq![l[0]] + merge_seqs(c, l.drop_first(), r)
    }
}

/// Any subrange of a sorted sequence is sorted.
pub proof fn lemma_sorted_subrange<T>(s: Seq<T>, le: spec_fn(T, T) -> bool, a: int, b: int)
    requires
        sorted_by(s, le),
        0 <= a <= b <= s.len(),
    ensures
        sorted_by(s.subrange(a, b), le),
{
    let sub = s.subrange(a, b);
    assert forall|i: int, j: int| 0 <= i < j < sub.len() implies #[trigger] le(sub[i], sub[j]) by {
        assert(sub[i] == s[a + i] && sub[j] == s[a + j]);
    }
}

/// Concatenating two sorted ranges whose boundary elements are ordered gives
/// a sorted range, provided the comparator is valid.
pub proof fn lemma_sorted_concat<T, C: Comparator<T>>(c: C, a: Seq<T>, b: Seq<T>)
    requires
        valid_cmp(c),
        sorted_by(a, le_of(c)),
        sorted_by(b, le_of(c)),
        a.len() > 0 && b.len() > 0 ==> le_of(c)(a.last(), b.first()),
    ensures
        sorted_by(a + b, le_of(c)),
{
    let le = le_of(c);
    let s = a + b;
    assert forall|i: int, j: int| 0 <= i < j < s.len() implies #[trigger] le(s[i], s[j]) by {
        if j < a.len() {
            assert(le(a[i], a[j]));
        } else if i >= a.len() {
            assert(le(b[i - a.len()], b[j - a.len()]));
        } else {
            let x = s[i];
            let y = s[j];
            assert(le(x, a.last()));
            assert(le(a.last(), b.first()));
            assert(le(b.first(), y));
            assert(le(x, b.first()));
        }
    }
}

/// Length and multiset of the stable merge, for every comparator.
pub proof fn lemma_merge_len_multiset<T, C: Comparator<T>>(c: C, l: Seq<T>, r: Seq<T>)
    ensures
        merge_seqs(c, l, r).len() == l.len() + r.len(),
        merge_seqs(c, l, r).to_multiset() == (l + r).to_multiset(),
    decreases l.len() + r.len(),
{
    broadcast use vstd::multiset::group_multiset_axioms;

    if l.len() == 0 {
        assert(l + r =~= r);
    } else if r.len() == 0 {
        assert(l + r =~= l);
    } else if c.lt(r[0], l[0]) {
        lemma_merge_len_multiset(c, l, r.drop_first());
        lemma_multiset_commutative(seq![r[0]], merge_seqs(c, l, r.drop_first()));
        lemma_multiset_commutative(l, r.drop_first());
        lemma_multiset_commutative(l, r);
        lemma_multiset_commutative(seq![r[0]], r.drop_first());
        assert(r =~= seq![r[0]] + r.drop_first());
        assert(merge_seqs(c, l, r).to_multiset() =~= (l + r).to_multiset());
    } else {
        lemma_merge_len_multiset(c, l.drop_first(), r);
        lemma_multiset_commutative(seq![l[0]], merge_seqs(c, l.drop_first(), r));
        lemma_multiset_commutative(l.drop_first(), r);
        lemma_multiset_commutative(l, r);
        lemma_multiset_commutative(seq![l[0]], l.drop_first());
        assert(l =~= seq![l[0]] + l.drop_first());
        assert(merge_seqs(c, l, r).to_multiset() =~= (l + r).to_multiset());
    }
}

/// The stable merge of two sorted sequences is sorted, for a valid comparator.
pub proof fn lemma_merge_sorted<T, C: Comparator<T>>(c: C, l: Seq<T>, r: Seq<T>)
    requires
        valid_cmp(c),
        sorted_by(l, le_of(c)),
        sorted_by(r, le_of(c)),
    ensures
        sorted_by(merge_seqs(c, l, r), le_of(c)),
    decreases l.len() + r.len(),
{
    let le = le_of(c);
    if l.len() == 0 || r.len() == 0 {
    } else {
        let take_right = c.lt(r[0], l[0]);
        let head = if take_right {
            r[0]
        } else {
            l[0]
        };
        let l2 = if take_right {
            l
        } else {
            l.drop_first()
        };
        let r2 = if take_right {
            r.drop_first()
        } else {
            r
        };
        lemma_sorted_subrange(l, le, if take_right { 0 } else { 1 }, l.len() as int);
        lemma_sorted_subrange(r, le, if take_right { 1 } else { 0 }, r.len() as int);
        assert(l2 == if take_right { l } else { l.drop_first() });
        lemma_merge_sorted(c, l2, r2);
        let rest = merge_seqs(c, l2, r2);
        lemma_merge_len_multiset(c, l2, r2);
        // The head is below both sequences' heads, hence below the head of
        // the merged remainder.
        if take_right {
            assert(le_of(c)(r[0], l[0]) || le_of(c)(l[0], r[0]));
            assert(le_of(c)(l[0], r[0]) == !c.lt(r[0], l[0]));
            assert(le(head, l[0]));
        }
        assert forall|j: int| 0 <= j < rest.len() implies le(head, #[trigger] rest[j]) by {
            assert(sorted_by(rest, le));
            if rest.len() > 0 {
                assert(rest[0] == if l2.len() == 0 {
                    r2[0]
                } else if r2.len() == 0 {
                    l2[0]
                } else if c.lt(r2[0], l2[0]) {
                    r2[0]
                } else {
                    l2[0]
                });
                if take_right {
                    assert(!c.lt(l[0], r[0]) ==> le(r[0], l[0]));
                    assert(le(head, l[0])) by {
                        if c.lt(l[0], r[0]) {
                        }
                    }
                    assert(r2.len() > 0 ==> le(head, r2[0]));
                } else {
                    assert(le(head, r[0]));
                    assert(l2.len() > 0 ==> le(head, l2[0]));
                }
                assert(le(head, rest[0]));
                assert(le(rest[0], rest[j]));
            }
        }
        let merged = merge_seqs(c, l, r);
        assert(merged == seq![head] + rest);
        assert forall|i: int, j: int| 0 <= i < j < merged.len() implies #[trigger] le(
            merged[i],
            merged[j],
        ) by {
            if i == 0 {
                assert(merged[j] == rest[j - 1]);
            } else {
                assert(merged[i] == rest[i - 1] && merged[j] == rest[j - 1]);
            }
        }
    }
}

/// The stable merge concatenates each equivalence class's subsequence:
/// everything equivalent that came from `l` precedes everything equivalent
/// that came from `r`.  Needs the left side sorted, so that a strictly
/// smaller right head cannot jump over a left element of its own class.
pub proof fn lemma_merge_classes<T, C: Comparator<T>>(c: C, l: Seq<T>, r: Seq<T>)
    requires
        valid_cmp(c),
        sorted_by(l, le_of(c)),
    ensures
        forall|x: T|
            #[trigger] class_seq(c, merge_seqs(c, l, r), x) == class_seq(c, l, x) + class_seq(
                c,
                r,
                x,
            ),
    decreases l.len() + r.len(),
{
    let le = le_of(c);
    reveal_with_fuel(Seq::filter, 1);
    if l.len() == 0 {
        assert forall|x: T|
            #[trigger] class_seq(c, merge_seqs(c, l, r), x) == class_seq(c, l, x) + class_seq(
                c,
                r,
                x,
            ) by {
            let pred = class_pred(c, x);
            assert(l.filter(pred) == Seq::<T>::empty());
            assert(class_seq(c, merge_seqs(c, l, r), x) =~= class_seq(c, l, x) + class_seq(
                c,
                r,
                x,
            ));
        }
    } else if r.len() == 0 {
        assert forall|x: T|
            #[trigger] class_seq(c, merge_seqs(c, l, r), x) == class_seq(c, l, x) + class_seq(
                c,
                r,
                x,
            ) by {
            let pred = class_pred(c, x);
            assert(r.filter(pred) == Seq::<T>::empty());
            assert(class_seq(c, merge_seqs(c, l, r), x) =~= class_seq(c, l, x) + class_seq(
                c,
                r,
                x,
            ));
        }
    } else if c.lt(r[0], l[0]) {
        lemma_merge_classes(c, l, r.drop_first());
        assert forall|x: T|
            #[trigger] class_seq(c, merge_seqs(c, l, r), x) == class_seq(c, l, x) + class_seq(
                c,
                r,
                x,
            ) by {
            let pred = class_pred(c, x);
            let rest = merge_seqs(c, l, r.drop_first());
            assert(merge_seqs(c, l, r) == seq![r[0]] + rest);
            assert(class_seq(c, rest, x) == class_seq(c, l, x) + class_seq(c, r.drop_first(), x));
            Seq::filter_distributes_over_add(seq![r[0]], rest, pred);
            Seq::filter_distributes_over_add(seq![r[0]], r.drop_first(), pred);
            lemma_filter_singleton(r[0], pred);
            assert(r =~= seq![r[0]] + r.drop_first());
            if pred(r[0]) {
                // No left element shares the class of this right head.
                assert forall|k: int| 0 <= k < l.len() implies !pred(#[trigger] l[k]) by {
                    if equiv(c, l[k], x) {
                        assert(equiv(c, x, r[0])) by {
                            assert(equiv(c, r[0], x));
                        }
                        lemma_equiv_trans(c, l[k], x, r[0]);
                        assert(le(l[k], r[0]));
                        assert(le(l[0], l[k]));
                        assert(le(l[0], r[0]));
                        assert(c.lt(r[0], l[0]));
                    }
                }
                lemma_filter_empty(l, pred);
            }
            assert(class_seq(c, merge_seqs(c, l, r), x) =~= class_seq(c, l, x) + class_seq(
                c,
                r,
                x,
            ));
        }
    } else {
        lemma_sorted_subrange(l, le, 1, l.len() as int);
        lemma_merge_classes(c, l.drop_first(), r);
        assert forall|x: T|
            #[trigger] class_seq(c, merge_seqs(c, l, r), x) == class_seq(c, l, x) + class_seq(
                c,
                r,
                x,
            ) by {
            let pred = class_pred(c, x);
            let rest = merge_seqs(c, l.drop_first(), r);
            assert(merge_seqs(c, l, r) == seq![l[0]] + rest);
            assert(class_seq(c, rest, x) == class_seq(c, l.drop_first(), x) + class_seq(c, r, x));
            Seq::filter_distributes_over_add(seq![l[0]], rest, pred);
            Seq::filter_distributes_over_add(seq![l[0]], l.drop_first(), pred);
            lemma_filter_singleton(l[0], pred);
            assert(l =~= seq![l[0]] + l.drop_first());
            assert(class_seq(c, merge_seqs(c, l, r), x) =~= class_seq(c, l, x) + class_seq(
                c,
                r,
                x,
            ));
        }
    }
}

/// Unfolding the stable merge from the back: the last element of the merge
/// is the larger of the two last elements, with the right side preferred on
/// ties — the dual of the front rule, and the reason a backward merge that
/// prefers its right run on ties produces the same stable result.
pub proof fn lemma_merge_unfold_back<T, C: Comparator<T>>(c: C, l: Seq<T>, r: Seq<T>)
    requires
        valid_cmp(c),
        sorted_by(l, le_of(c)),
        sorted_by(r, le_of(c)),
        l.len() > 0,
        r.len() > 0,
    ensures
        c.lt(r.last(), l.last()) ==> merge_seqs(c, l, r) == merge_seqs(c, l.drop_last(), r)
            + seq![l.last()],
        !c.lt(r.last(), l.last()) ==> merge_seqs(c, l, r) == merge_seqs(c, l, r.drop_last())
            + seq![r.last()],
    decreases l.len() + r.len(),
{
    let le = le_of(c);
    let l0 = l[0];
    let r0 = r[0];
    let ll = l.last();
    let rl = r.last();
    let lp = l.drop_first();
    let rp = r.drop_first();
    let ld = l.drop_last();
    let rd = r.drop_last();
    lemma_sorted_subrange(l, le, 1, l.len() as int);
    lemma_sorted_subrange(r, le, 1, r.len() as int);
    lemma_sorted_subrange(l, le, 0, l.len() - 1);
    lemma_sorted_subrange(r, le, 0, r.len() - 1);
    assert(lp == l.subrange(1, l.len() as int) && rp == r.subrange(1, r.len() as int));
    assert(ld == l.subrange(0, l.len() - 1) && rd == r.subrange(0, r.len() - 1));
    if c.lt(r0, l0) {
        assert(merge_seqs(c, l, r) == seq![r0] + merge_seqs(c, l, rp));
        // A strictly smaller right head is strictly below the whole left run.
        assert(le(r0, l0)) by {
            assert(le(r0, l0) || le(l0, r0));
        }
        if r.len() == 1 {
            assert(rl == r0);
            assert(c.lt(rl, ll)) by {
                assert(le(l0, ll));
                if le(ll, r0) {
                    assert(le(l0, r0));
                }
            }
            assert(merge_seqs(c, l, rp) == l);
            if l.len() == 1 {
                assert(merge_seqs(c, ld, r) == r);
                assert(seq![r0] + l =~= r + seq![ll]);
            } else {
                assert(ld.len() > 0 && ld[0] == l0);
                assert(merge_seqs(c, ld, r) == seq![r0] + merge_seqs(c, ld, rp));
                assert(merge_seqs(c, ld, rp) == ld);
                assert(seq![r0] + l =~= (seq![r0] + ld) + seq![ll]);
            }
        } else {
            assert(rp.len() > 0 && rp.last() == rl && rp[0] == r[1]);
            lemma_merge_unfold_back(c, l, rp);
            if c.lt(rl, ll) {
                assert(merge_seqs(c, l, rp) == merge_seqs(c, ld, rp) + seq![ll]);
                if l.len() == 1 {
                    assert(ld.len() == 0);
                    assert(merge_seqs(c, ld, rp) == rp);
                    assert(merge_seqs(c, ld, r) == r);
                    assert(seq![r0] + (rp + seq![ll]) =~= r + seq![ll]);
                } else {
                    assert(ld.len() > 0 && ld[0] == l0);
                    assert(merge_seqs(c, ld, r) == seq![r0] + merge_seqs(c, ld, rp));
                    assert(seq![r0] + (merge_seqs(c, ld, rp) + seq![ll]) =~= (seq![r0]
                        + merge_seqs(c, ld, rp)) + seq![ll]);
                }
            } else {
                assert(merge_seqs(c, l, rp) == merge_seqs(c, l, rp.drop_last()) + seq![rl]);
                assert(rd.len() > 0 && rd[0] == r0);
                assert(merge_seqs(c, l, rd) == seq![r0] + merge_seqs(c, l, rd.drop_first()));
                assert(rd.drop_first() =~= rp.drop_last());
                assert(seq![r0] + (merge_seqs(c, l, rp.drop_last()) + seq![rl]) =~= (seq![r0]
                    + merge_seqs(c, l, rp.drop_last())) + seq![rl]);
            }
        }
    } else {
        assert(merge_seqs(c, l, r) == seq![l0] + merge_seqs(c, lp, r));
        assert(le(l0, r0));
        if l.len() == 1 {
            assert(ll == l0);
            assert(!c.lt(rl, ll)) by {
                assert(le(r0, rl));
                assert(le(l0, rl));
            }
            assert(merge_seqs(c, lp, r) == r);
            if r.len() == 1 {
                assert(merge_seqs(c, l, rd) == l);
                assert(seq![l0] + r =~= l + seq![rl]);
            } else {
                assert(rd.len() > 0 && rd[0] == r0);
                assert(merge_seqs(c, l, rd) == seq![l0] + merge_seqs(c, lp, rd));
                assert(merge_seqs(c, lp, rd) == rd);
                assert(seq![l0] + r =~= (seq![l0] + rd) + seq![rl]);
            }
        } else {
            assert(lp.len() > 0 && lp.last() == ll && lp[0] == l[1]);
            lemma_merge_unfold_back(c, lp, r);
            if c.lt(rl, ll) {
                assert(merge_seqs(c, lp, r) == merge_seqs(c, lp.drop_last(), r) + seq![ll]);
                assert(ld.len() > 0 && ld[0] == l0);
                assert(merge_seqs(c, ld, r) == seq![l0] + merge_seqs(c, ld.drop_first(), r));
                assert(ld.drop_first() =~= lp.drop_last());
                assert(seq![l0] + (merge_seqs(c, lp.drop_last(), r) + seq![ll]) =~= (seq![l0]
                    + merge_seqs(c, lp.drop_last(), r)) + seq![ll]);
            } else {
                assert(merge_seqs(c, lp, r) == merge_seqs(c, lp, rd) + seq![rl]);
                if r.len() == 1 {
                    assert(rd.len() == 0);
                    assert(merge_seqs(c, lp, rd) == lp);
                    assert(merge_seqs(c, l, rd) == l);
                    assert(seq![l0] + (lp + seq![rl]) =~= l + seq![rl]);
                } else {
                    assert(rd.len() > 0 && rd[0] == r0);
                    assert(merge_seqs(c, l, rd) == seq![l0] + merge_seqs(c, lp, rd));
                    assert(seq![l0] + (merge_seqs(c, lp, rd) + seq![rl]) =~= (seq![l0]
                        + merge_seqs(c, lp, rd)) + seq![rl]);
                }
            }
        }
    }
}

/// A non-empty filtered sequence has a witness in the original.
pub proof fn lemma_filter_witness<T>(s: Seq<T>, pred: spec_fn(T) -> bool)
    requires
        s.filter(pred).len() > 0,
    ensures
        exists|k: int| 0 <= k < s.len() && pred(#[trigger] s[k]),
    decreases s.len(),
{
    reveal(Seq::filter);
    if s.len() > 0 {
        if pred(s.last()) {
            assert(pred(s[s.len() - 1]));
        } else {
            lemma_filter_witness(s.drop_last(), pred);
            let k = choose|k: int| 0 <= k < s.drop_last().len() && pred(#[trigger] s.drop_last()[k]);
            assert(pred(s[k]));
        }
    }
}

/// Filtering from the front: a passing head leads the filtered sequence.
pub proof fn lemma_filter_front<T>(s: Seq<T>, pred: spec_fn(T) -> bool)
    requires
        s.len() > 0,
    ensures
        pred(s[0]) ==> s.filter(pred) == seq![s[0]] + s.drop_first().filter(pred),
        !pred(s[0]) ==> s.filter(pred) == s.drop_first().filter(pred),
{
    assert(s =~= seq![s[0]] + s.drop_first());
    Seq::filter_distributes_over_add(seq![s[0]], s.drop_first(), pred);
    lemma_filter_singleton(s[0], pred);
    if !pred(s[0]) {
        assert(s.filter(pred) =~= s.drop_first().filter(pred));
    }
}

/// Under a valid comparator, a sorted sequence is determined by the
/// subsequences of its equivalence classes: two sorted sequences whose
/// classes agree are equal.
pub proof fn lemma_classes_unique<T, C: Comparator<T>>(c: C, s: Seq<T>, t: Seq<T>)
    requires
        valid_cmp(c),
        sorted_by(s, le_of(c)),
        sorted_by(t, le_of(c)),
        classes_preserved(c, s, t),
    ensures
        s == t,
    decreases s.len() + t.len(),
{
    let le = le_of(c);
    if s.len() == 0 && t.len() == 0 {
        assert(s =~= t);
    } else if s.len() == 0 {
        let pred = class_pred(c, t[0]);
        assert(pred(t[0])) by {
            assert(le(t[0], t[0]));
        }
        t.lemma_filter_contains(pred, 0);
        assert(class_seq(c, t, t[0]).len() > 0);
        lemma_filter_empty(s, pred);
        assert(class_seq(c, s, t[0]).len() == 0);
        assert(class_seq(c, t, t[0]) == class_seq(c, s, t[0]));
    } else if t.len() == 0 {
        let pred = class_pred(c, s[0]);
        assert(pred(s[0])) by {
            assert(le(s[0], s[0]));
        }
        s.lemma_filter_contains(pred, 0);
        assert(class_seq(c, s, s[0]).len() > 0);
        lemma_filter_empty(t, pred);
        assert(class_seq(c, s, s[0]) == class_seq(c, t, s[0]));
    } else {
        let s0 = s[0];
        let t0 = t[0];
        // Each head has a class mate in the other sequence, which bounds the
        // heads against each other: the heads are equivalent.
        let ps = class_pred(c, s0);
        assert(ps(s0)) by {
            assert(le(s0, s0));
        }
        s.lemma_filter_contains(ps, 0);
        assert(class_seq(c, t, s0) == class_seq(c, s, s0));
        assert(class_seq(c, t, s0).len() > 0);
        lemma_filter_witness(t, ps);
        let k = choose|k: int| 0 <= k < t.len() && ps(#[trigger] t[k]);
        let pt = class_pred(c, t0);
        assert(pt(t0)) by {
            assert(le(t0, t0));
        }
        t.lemma_filter_contains(pt, 0);
        assert(class_seq(c, s, t0) == class_seq(c, t, t0));
        assert(class_seq(c, s, t0).len() > 0);
        lemma_filter_witness(s, pt);
        let k2 = choose|k2: int| 0 <= k2 < s.len() && pt(#[trigger] s[k2]);
        assert(k == 0 || le(t0, t[k]));
        assert(le(t0, t[k])) by {
            assert(le(t0, t0));
        }
        assert(le(t[k], s0));
        assert(le(t0, s0));
        assert(le(s0, s[k2])) by {
            assert(le(s0, s0));
        }
        assert(le(s[k2], t0));
        assert(le(s0, t0));
        assert(equiv(c, t0, s0));
        // Equal classes force equal heads.
        lemma_filter_front(s, ps);
        lemma_filter_front(t, ps);
        assert(class_seq(c, s, s0)[0] == s0);
        assert(class_seq(c, t, s0)[0] == t0);
        assert(s0 == t0);
        // The tails again have equal classes.
        assert forall|x: T| class_seq(c, t.drop_first(), x) == class_seq(
            c,
            s.drop_first(),
            x,
        ) by {
            let pred = class_pred(c, x);
            lemma_filter_front(s, pred);
            lemma_filter_front(t, pred);
            assert(class_seq(c, t, x) == class_seq(c, s, x));
            if pred(s0) {
                assert(seq![s0] + s.drop_first().filter(pred) == seq![s0] + t.drop_first().filter(
                    pred,
                ));
                assert(s.drop_first().filter(pred) =~= t.drop_first().filter(pred)) by {
                    let a = s.drop_first().filter(pred);
                    let b = t.drop_first().filter(pred);
                    assert(forall|i: int|
                        0 <= i < a.len() ==> a[i] == (seq![s0] + a)[i + 1] && (seq![s0] + b)[i + 1]
                            == b[i]);
                }
            }
        }
        lemma_sorted_subrange(s, le, 1, s.len() as int);
        lemma_sorted_subrange(t, le, 1, t.len() as int);
        lemma_classes_unique(c, s.drop_first(), t.drop_first());
        assert(s =~= seq![s0] + s.drop_first());
        assert(t =~= seq![t0] + t.drop_first());
    }
}

} // verus!
