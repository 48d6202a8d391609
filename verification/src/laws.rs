//! The laws of the engine, proved once and for all from the contracts of
//! the sorting entry points.

use vstd::prelude::*;
use vstd::relations::{sorted_by, total_ordering};

use crate::merge_spec::lemma_classes_unique;
use crate::order::{
    class_seq, classes_preserved, equiv, le_of, lemma_natural_order_valid, valid_cmp, Comparator,
    KeyOrder, NaturalOrder, OrderedValue,
};

verus! {

/// Determinism: a valid comparator admits exactly one sorted, stable
/// rearrangement of a sequence.  Two results of sorting the same input —
/// sorted, with every equivalence class's subsequence preserved — are equal.
pub proof fn lemma_sort_deterministic<T, C: Comparator<T>>(c: C, s: Seq<T>, t1: Seq<T>, t2: Seq<T>)
    requires
        valid_cmp(c),
        sorted_by(t1, le_of(c)),
        sorted_by(t2, le_of(c)),
        classes_preserved(c, s, t1),
        classes_preserved(c, s, t2),
    ensures
        t1 == t2,
{
    assert forall|x: T| class_seq(c, t2, x) == class_seq(c, t1, x) by {
        assert(class_seq(c, t1, x) == class_seq(c, s, x));
        assert(class_seq(c, t2, x) == class_seq(c, s, x));
    }
    lemma_classes_unique(c, t1, t2);
}

/// Correctness against the reference: when the induced non-strict relation
/// is a total ordering, any sorted sequence with the input's multiset is
/// exactly the reference-sorted permutation of the input.
pub proof fn lemma_sorted_matches_reference<T, C: Comparator<T>>(c: C, s: Seq<T>, t: Seq<T>)
    requires
        total_ordering(le_of(c)),
        sorted_by(t, le_of(c)),
        t.to_multiset() == s.to_multiset(),
    ensures
        t == s.sort_by(le_of(c)),
{
    s.lemma_sort_by_ensures(le_of(c));
    vstd::seq_lib::lemma_sorted_unique(t, s.sort_by(le_of(c)), le_of(c));
}

/// Sorting by the natural-order comparator and sorting by the elements' own
/// order agree: both are the unique sorted permutation of the input.
pub proof fn lemma_sort_by_natural_agrees<T: OrderedValue>(s: Seq<T>, t1: Seq<T>, t2: Seq<T>)
    requires
        sorted_by(t1, le_of::<T, NaturalOrder>(NaturalOrder)),
        sorted_by(t2, le_of::<T, NaturalOrder>(NaturalOrder)),
        classes_preserved(NaturalOrder, s, t1),
        classes_preserved(NaturalOrder, s, t2),
    ensures
        t1 == t2,
{
    lemma_natural_order_valid::<T>();
    lemma_sort_deterministic(NaturalOrder, s, t1, t2);
}

/// A sequence whose kept elements ascend pairwise on the tag field still
/// ascends strictly after filtering.
proof fn lemma_filter_keeps_ascent(u: Seq<(i32, i32)>, pred: spec_fn((i32, i32)) -> bool)
    requires
        forall|a: int, b: int|
            0 <= a < b < u.len() && pred(#[trigger] u[a]) && pred(#[trigger] u[b]) ==> u[a].1
                < u[b].1,
    ensures
        forall|a: int, b: int|
            0 <= a < b < u.filter(pred).len() ==> u.filter(pred)[a].1 < u.filter(pred)[b].1,
    decreases u.len(),
{
    reveal(Seq::filter);
    if u.len() > 0 {
        let rest = u.drop_last();
        assert forall|a: int, b: int|
            0 <= a < b < rest.len() && pred(#[trigger] rest[a]) && pred(
                #[trigger] rest[b],
            ) implies rest[a].1 < rest[b].1 by {
            assert(pred(u[a]) && pred(u[b]));
        }
        lemma_filter_keeps_ascent(rest, pred);
        let f = u.filter(pred);
        let fr = rest.filter(pred);
        assert forall|a: int, b: int| 0 <= a < b < f.len() implies f[a].1 < f[b].1 by {
            if pred(u.last()) {
                assert(f == fr.push(u.last()));
                if b == f.len() - 1 {
                    // The appended element's tag dominates everything kept
                    // from the prefix.
                    assert(f[a] == fr[a]);
                    rest.lemma_filter_pred(pred, a);
                    lemma_filter_element_of(rest, pred, a);
                    let k = choose|k: int| 0 <= k < rest.len() && rest[k] == fr[a];
                    assert(pred(u[k]) && pred(u[u.len() - 1]));
                    assert(u[k].1 < u[u.len() - 1].1);
                } else {
                    assert(f[a] == fr[a] && f[b] == fr[b]);
                }
            } else {
                assert(f == fr);
            }
        }
    }
}

/// Every element of a filtered sequence occurs in the original.
proof fn lemma_filter_element_of<A>(u: Seq<A>, pred: spec_fn(A) -> bool, a: int)
    requires
        0 <= a < u.filter(pred).len(),
    ensures
        exists|k: int| 0 <= k < u.len() && u[k] == u.filter(pred)[a],
    decreases u.len(),
{
    reveal(Seq::filter);
    if u.len() > 0 {
        let rest = u.drop_last();
        let f = u.filter(pred);
        let fr = rest.filter(pred);
        if pred(u.last()) && a == f.len() - 1 {
            assert(u[u.len() - 1] == f[a]);
        } else {
            lemma_filter_element_of(rest, pred, a);
            let k = choose|k: int| 0 <= k < rest.len() && rest[k] == fr[a];
            assert(u[k] == f[a]);
        }
    }
}

/// Two kept elements of a sequence whose filtered subsequence ascends
/// strictly on the tag field are themselves ordered by tag.
proof fn lemma_filter_orders_pairs(
    u: Seq<(i32, i32)>,
    pred: spec_fn((i32, i32)) -> bool,
    i: int,
    j: int,
)
    requires
        0 <= i < j < u.len(),
        pred(u[i]),
        pred(u[j]),
        forall|a: int, b: int|
            0 <= a < b < u.filter(pred).len() ==> u.filter(pred)[a].1 < u.filter(pred)[b].1,
    ensures
        u[i].1 < u[j].1,
    decreases u.len(),
{
    reveal(Seq::filter);
    let rest = u.drop_last();
    let f = u.filter(pred);
    let fr = rest.filter(pred);
    if j == u.len() - 1 {
        assert(f == fr.push(u.last()));
        rest.lemma_filter_contains(pred, i);
        let a = choose|a: int| 0 <= a < fr.len() && fr[a] == rest[i];
        assert(f[a] == u[i]);
        assert(f[f.len() - 1] == u[j]);
        assert(f[a].1 < f[f.len() - 1].1);
    } else {
        assert(fr.is_prefix_of(f));
        assert forall|a: int, b: int| 0 <= a < b < fr.len() implies fr[a].1 < fr[b].1 by {
            assert(fr[a] == f[a] && fr[b] == f[b]);
        }
        lemma_filter_orders_pairs(rest, pred, i, j);
    }
}

/// Stability: sort a sequence of key/tag pairs by the key alone.  If tags
/// ascend within equal keys in the input — as they do when each tag records
/// its pair's position — then in any sorted, class-preserving
/// rearrangement, pairs with equal keys keep their original relative order:
/// their tags still ascend.
pub proof fn lemma_stability_pairs(s: Seq<(i32, i32)>, t: Seq<(i32, i32)>)
    requires
        forall|i: int, j: int|
            0 <= i < j < s.len() && (#[trigger] s[i]).0 == (#[trigger] s[j]).0 ==> s[i].1 < s[j].1,
        sorted_by(t, le_of::<(i32, i32), KeyOrder>(KeyOrder)),
        classes_preserved(KeyOrder, s, t),
    ensures
        forall|i: int, j: int|
            0 <= i < j < t.len() && (#[trigger] t[i]).0 == (#[trigger] t[j]).0 ==> t[i].1 < t[j].1,
{
    assert forall|i: int, j: int|
        0 <= i < j < t.len() && (#[trigger] t[i]).0 == (#[trigger] t[j]).0 implies t[i].1
        < t[j].1 by {
        let x = t[i];
        let pred = crate::order::class_pred(KeyOrder, x);
        assert(equiv(KeyOrder, t[i], x) && equiv(KeyOrder, t[j], x));
        assert(class_seq(KeyOrder, t, x) == class_seq(KeyOrder, s, x));
        // Kept elements all carry the class's key, so the hypothesis makes
        // their tags ascend in the input.
        assert forall|a: int, b: int|
            0 <= a < b < s.len() && pred(#[trigger] s[a]) && pred(#[trigger] s[b]) implies s[a].1
            < s[b].1 by {
            assert(equiv(KeyOrder, s[a], x) && equiv(KeyOrder, s[b], x));
            assert(s[a].0 == x.0 && s[b].0 == x.0);
        }
        lemma_filter_keeps_ascent(s, pred);
        assert(forall|a: int, b: int|
            0 <= a < b < t.filter(pred).len() ==> t.filter(pred)[a].1 < t.filter(pred)[b].1);
        lemma_filter_orders_pairs(t, pred, i, j);
    }
}

} // verus!
