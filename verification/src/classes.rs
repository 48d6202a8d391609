//! Lemmas about equivalence classes, filtered subsequences and multisets.
//!
//! The stability contract of the engine says that, for every value, the
//! subsequence of elements equivalent to it is unchanged by sorting.  The
//! lemmas here show that each primitive rearrangement the engine performs —
//! exchanging out-of-order neighbours, rotating an element past strictly
//! greater ones, reversing a strictly descending range — preserves those
//! subsequences, and that sortedness plus preserved classes pins a sequence
//! down completely.

use vstd::prelude::*;
use vstd::multiset::Multiset;
use vstd::seq_lib::lemma_multiset_commutative;

use crate::order::{class_pred, class_seq, classes_preserved, equiv, le_of, valid_cmp, Comparator};

verus! {

/// Under a valid comparator, equivalence is transitive.
pub proof fn lemma_equiv_trans<T, C: Comparator<T>>(c: C, a: T, b: T, x: T)
    requires
        valid_cmp(c),
        equiv(c, a, b),
        equiv(c, b, x),
    ensures
        equiv(c, a, x),
{
    let le = le_of(c);
    assert(le(a, b) && le(b, a) && le(b, x) && le(x, b));
    assert(le(a, x) && le(x, a));
}

/// Under a valid comparator, a value not equivalent to `e` is not in the
/// class of anything that is.
pub proof fn lemma_lt_not_equiv<T, C: Comparator<T>>(c: C, e: T, u: T, x: T)
    requires
        valid_cmp(c),
        !equiv(c, e, u),
        equiv(c, e, x),
    ensures
        !equiv(c, u, x),
{
    if equiv(c, u, x) {
        let le = le_of(c);
        assert(le(e, x) && le(x, e) && le(u, x) && le(x, u));
        assert(le(e, u) && le(u, e));
    }
}

/// A sequence none of whose elements satisfies the predicate filters to the
/// empty sequence.
pub proof fn lemma_filter_empty<T>(s: Seq<T>, pred: spec_fn(T) -> bool)
    requires
        forall|i: int| 0 <= i < s.len() ==> !pred(#[trigger] s[i]),
    ensures
        s.filter(pred) == Seq::<T>::empty(),
    decreases s.len(),
{
    reveal(Seq::filter);
    if s.len() > 0 {
        assert(!pred(s.last()));
        lemma_filter_empty(s.drop_last(), pred);
    }
    assert(s.filter(pred) =~= Seq::<T>::empty());
}

/// Filtering a singleton keeps or drops its one element.
pub proof fn lemma_filter_singleton<T>(e: T, pred: spec_fn(T) -> bool)
    ensures
        pred(e) ==> seq![e].filter(pred) == seq![e],
        !pred(e) ==> seq![e].filter(pred) == Seq::<T>::empty(),
{
    reveal_with_fuel(Seq::filter, 2);
    assert(seq![e].drop_last() =~= Seq::<T>::empty());
    if pred(e) {
        assert(seq![e].filter(pred) =~= seq![e]);
    } else {
        assert(seq![e].filter(pred) =~= Seq::<T>::empty());
    }
}

/// Moving one element across a block of elements from other equivalence
/// classes leaves every class's subsequence unchanged.
pub proof fn lemma_classes_rotate<T, C: Comparator<T>>(c: C, a: Seq<T>, m: Seq<T>, e: T, b: Seq<T>)
    requires
        valid_cmp(c),
        forall|k: int| 0 <= k < m.len() ==> !equiv(c, e, #[trigger] m[k]),
    ensures
        classes_preserved(c, a + m + seq![e] + b, a + seq![e] + m + b),
{
    assert forall|x: T|
        class_seq(c, a + seq![e] + m + b, x) == class_seq(c, a + m + seq![e] + b, x) by {
        let pred = class_pred(c, x);
        Seq::filter_distributes_over_add(a + m + seq![e], b, pred);
        Seq::filter_distributes_over_add(a + m, seq![e], pred);
        Seq::filter_distributes_over_add(a, m, pred);
        Seq::filter_distributes_over_add(a + seq![e] + m, b, pred);
        Seq::filter_distributes_over_add(a + seq![e], m, pred);
        Seq::filter_distributes_over_add(a, seq![e], pred);
        lemma_filter_singleton(e, pred);
        if pred(e) {
            assert forall|k: int| 0 <= k < m.len() implies !pred(#[trigger] m[k]) by {
                lemma_lt_not_equiv(c, e, m[k], x);
            }
            lemma_filter_empty(m, pred);
        }
        assert((a + m + seq![e] + b).filter(pred) =~= (a + seq![e] + m + b).filter(pred));
    }
}

/// Reversing a strictly descending sequence leaves every equivalence class's
/// subsequence unchanged: no two of its elements are equivalent.
pub proof fn lemma_classes_reverse<T, C: Comparator<T>>(c: C, s: Seq<T>)
    requires
        valid_cmp(c),
        forall|i: int, j: int| 0 <= i < j < s.len() ==> c.lt(#[trigger] s[j], #[trigger] s[i]),
    ensures
        classes_preserved(c, s, s.reverse()),
    decreases s.len(),
{
    if s.len() == 0 {
        assert(s.reverse() =~= s);
    } else {
        let rest = s.drop_last();
        let e = s.last();
        lemma_classes_reverse(c, rest);
        assert forall|x: T| class_seq(c, s.reverse(), x) == class_seq(c, s, x) by {
            let pred = class_pred(c, x);
            assert(s.reverse() =~= seq![e] + rest.reverse());
            assert(s =~= rest + seq![e]);
            Seq::filter_distributes_over_add(seq![e], rest.reverse(), pred);
            Seq::filter_distributes_over_add(rest, seq![e], pred);
            lemma_filter_singleton(e, pred);
            assert(class_seq(c, rest.reverse(), x) == class_seq(c, rest, x));
            if pred(e) {
                assert forall|k: int| 0 <= k < rest.len() implies !pred(#[trigger] rest[k]) by {
                    assert(c.lt(s[s.len() - 1], s[k]));
                    lemma_lt_not_equiv(c, e, rest[k], x);
                }
                lemma_filter_empty(rest, pred);
            }
            assert(s.reverse().filter(pred) =~= s.filter(pred));
        }
    }
}

/// Preservation of classes composes.
pub proof fn lemma_classes_trans<T, C: Comparator<T>>(c: C, s: Seq<T>, t: Seq<T>, u: Seq<T>)
    requires
        classes_preserved(c, s, t),
        classes_preserved(c, t, u),
    ensures
        classes_preserved(c, s, u),
{
    assert forall|x: T| class_seq(c, u, x) == class_seq(c, s, x) by {
        assert(class_seq(c, u, x) == class_seq(c, t, x));
        assert(class_seq(c, t, x) == class_seq(c, s, x));
    }
}

/// A change confined to `[lo, hi)` that preserves classes there preserves
/// classes of the whole sequence.
pub proof fn lemma_classes_frame<T, C: Comparator<T>>(c: C, s: Seq<T>, t: Seq<T>, lo: int, hi: int)
    requires
        0 <= lo <= hi <= s.len(),
        s.len() == t.len(),
        s.subrange(0, lo) == t.subrange(0, lo),
        s.subrange(hi, s.len() as int) == t.subrange(hi, t.len() as int),
        classes_preserved(c, s.subrange(lo, hi), t.subrange(lo, hi)),
    ensures
        classes_preserved(c, s, t),
{
    let n = s.len() as int;
    assert forall|x: T| class_seq(c, t, x) == class_seq(c, s, x) by {
        let pred = class_pred(c, x);
        assert(s =~= s.subrange(0, lo) + s.subrange(lo, hi) + s.subrange(hi, n));
        assert(t =~= t.subrange(0, lo) + t.subrange(lo, hi) + t.subrange(hi, n));
        Seq::filter_distributes_over_add(s.subrange(0, lo) + s.subrange(lo, hi), s.subrange(hi, n), pred);
        Seq::filter_distributes_over_add(s.subrange(0, lo), s.subrange(lo, hi), pred);
        Seq::filter_distributes_over_add(t.subrange(0, lo) + t.subrange(lo, hi), t.subrange(hi, n), pred);
        Seq::filter_distributes_over_add(t.subrange(0, lo), t.subrange(lo, hi), pred);
        assert(class_seq(c, t.subrange(lo, hi), x) == class_seq(c, s.subrange(lo, hi), x));
        assert(s.filter(pred) =~= t.filter(pred));
    }
}

/// A change confined to `[lo, hi)` that preserves the multiset there
/// preserves the multiset of the whole sequence.
pub proof fn lemma_multiset_frame<T>(s: Seq<T>, t: Seq<T>, lo: int, hi: int)
    requires
        0 <= lo <= hi <= s.len(),
        s.len() == t.len(),
        s.subrange(0, lo) == t.subrange(0, lo),
        s.subrange(hi, s.len() as int) == t.subrange(hi, t.len() as int),
        s.subrange(lo, hi).to_multiset() == t.subrange(lo, hi).to_multiset(),
    ensures
        s.to_multiset() == t.to_multiset(),
{
    let n = s.len() as int;
    assert(s =~= s.subrange(0, lo) + s.subrange(lo, hi) + s.subrange(hi, n));
    assert(t =~= t.subrange(0, lo) + t.subrange(lo, hi) + t.subrange(hi, n));
    lemma_multiset_commutative(s.subrange(0, lo) + s.subrange(lo, hi), s.subrange(hi, n));
    lemma_multiset_commutative(s.subrange(0, lo), s.subrange(lo, hi));
    lemma_multiset_commutative(t.subrange(0, lo) + t.subrange(lo, hi), t.subrange(hi, n));
    lemma_multiset_commutative(t.subrange(0, lo), t.subrange(lo, hi));
    assert(s.to_multiset() =~= t.to_multiset());
}

/// The multiset of a singleton sequence.
pub proof fn lemma_singleton_multiset<T>(x: T)
    ensures
        seq![x].to_multiset() == Multiset::<T>::empty().insert(x),
{
    broadcast use vstd::seq_lib::group_to_multiset_ensures;
    broadcast use vstd::multiset::group_multiset_axioms;

    assert(seq![x] =~= Seq::<T>::empty().push(x));
    assert(Seq::<T>::empty().to_multiset().len() == 0);
    vstd::multiset::lemma_multiset_empty_len(Seq::<T>::empty().to_multiset());
    assert(Seq::<T>::empty().push(x).to_multiset() =~= Seq::<T>::empty().to_multiset().insert(x));
    assert(seq![x].to_multiset() =~= Multiset::<T>::empty().insert(x));
}

/// Prepending one element inserts it into the multiset.
pub proof fn lemma_prepend_multiset<T>(x: T, s: Seq<T>)
    ensures
        (seq![x] + s).to_multiset() == s.to_multiset().insert(x),
{
    broadcast use vstd::multiset::group_multiset_axioms;

    lemma_multiset_commutative(seq![x], s);
    lemma_singleton_multiset(x);
    assert((seq![x] + s).to_multiset() =~= s.to_multiset().insert(x));
}

/// Pushing onto the right part of a concatenation inserts into the multiset.
pub proof fn lemma_concat_push_right_multiset<T>(a: Seq<T>, b: Seq<T>, x: T)
    ensures
        (a + b.push(x)).to_multiset() == (a + b).to_multiset().insert(x),
{
    broadcast use vstd::seq_lib::group_to_multiset_ensures;
    broadcast use vstd::multiset::group_multiset_axioms;

    lemma_multiset_commutative(a, b.push(x));
    lemma_multiset_commutative(a, b);
    assert(b.push(x).to_multiset() =~= b.to_multiset().insert(x));
    assert((a + b.push(x)).to_multiset() =~= (a + b).to_multiset().insert(x));
}

/// Pushing onto the left part of a concatenation inserts into the multiset.
pub proof fn lemma_concat_push_left_multiset<T>(a: Seq<T>, b: Seq<T>, x: T)
    ensures
        (a.push(x) + b).to_multiset() == (a + b).to_multiset().insert(x),
{
    broadcast use vstd::seq_lib::group_to_multiset_ensures;
    broadcast use vstd::multiset::group_multiset_axioms;

    lemma_multiset_commutative(a.push(x), b);
    lemma_multiset_commutative(a, b);
    assert(a.push(x).to_multiset() =~= a.to_multiset().insert(x));
    assert((a.push(x) + b).to_multiset() =~= (a + b).to_multiset().insert(x));
}

/// Pointwise form of "unchanged outside `[lo, hi)`".
pub proof fn lemma_frames<T>(a: Seq<T>, b: Seq<T>, lo: int, hi: int)
    requires
        a.len() == b.len(),
        0 <= lo <= hi <= a.len(),
        b.subrange(0, lo) == a.subrange(0, lo),
        b.subrange(hi, a.len() as int) == a.subrange(hi, a.len() as int),
    ensures
        forall|m: int| 0 <= m < lo ==> (#[trigger] b[m]) == a[m],
        forall|m: int| hi <= m < a.len() ==> (#[trigger] b[m]) == a[m],
{
    assert forall|m: int| 0 <= m < lo implies (#[trigger] b[m]) == a[m] by {
        assert(b.subrange(0, lo)[m] == b[m]);
        assert(a.subrange(0, lo)[m] == a[m]);
    }
    assert forall|m: int| hi <= m < a.len() implies (#[trigger] b[m]) == a[m] by {
        assert(b.subrange(hi, a.len() as int)[m - hi] == b[m]);
        assert(a.subrange(hi, a.len() as int)[m - hi] == a[m]);
    }
}

/// Rotating one element past a block preserves the multiset.
pub proof fn lemma_multiset_rotate<T>(a: Seq<T>, m: Seq<T>, e: T, b: Seq<T>)
    ensures
        (a + m + seq![e] + b).to_multiset() == (a + seq![e] + m + b).to_multiset(),
{
    broadcast use vstd::multiset::group_multiset_axioms;

    lemma_multiset_commutative(a + m + seq![e], b);
    lemma_multiset_commutative(a + m, seq![e]);
    lemma_multiset_commutative(a, m);
    lemma_multiset_commutative(a + seq![e] + m, b);
    lemma_multiset_commutative(a + seq![e], m);
    lemma_multiset_commutative(a, seq![e]);
    assert((a + m + seq![e] + b).to_multiset() =~= (a + seq![e] + m + b).to_multiset());
}

} // verus!
