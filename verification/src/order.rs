//! Comparators and the ordering vocabulary of the sorting engine.
//!
//! A comparator decides, for two elements, whether the first comes strictly
//! before the second.  The engine promises nothing about the final order
//! unless the comparator's induced non-strict relation is a total preorder;
//! the element multiset, however, is preserved for every comparator.

use vstd::prelude::*;
use vstd::relations::{antisymmetric, reflexive, strongly_connected, total_ordering, transitive};

verus! {

/// A strict "comes before" decision procedure over values of `T`.
///
/// The spec relation `lt` is an arbitrary deterministic relation: it need not
/// be irreflexive, asymmetric or transitive.  The engine tolerates any such
/// relation without losing elements; order and stability are only promised
/// when [`valid_cmp`] holds.
pub trait Comparator<T>: Sized {
    /// The strict ordering relation this comparator computes.
    spec fn lt(self, a: T, b: T) -> bool;

    /// Decides whether `a` comes strictly before `b`.
    fn is_less(&self, a: &T, b: &T) -> (r: bool)
        ensures
            r == self.lt(*a, *b),
    ;
}

/// The non-strict relation induced by a comparator: `a` need not come after
/// `b`.  This is the relation the sortedness contracts are phrased over.
pub open spec fn le_of<T, C: Comparator<T>>(c: C) -> spec_fn(T, T) -> bool {
    |a: T, b: T| !c.lt(b, a)
}

/// A comparator is valid when its induced non-strict relation is a total
/// preorder: reflexive, transitive, and any two values are comparable.
/// This is what a caller-supplied comparison must satisfy for the engine to
/// promise a sorted, stable result.
pub open spec fn valid_cmp<T, C: Comparator<T>>(c: C) -> bool {
    &&& reflexive(le_of(c))
    &&& transitive(le_of(c))
    &&& strongly_connected(le_of(c))
}

/// Two values are equivalent under a comparator when neither comes strictly
/// before the other.  Stability speaks about elements that are equivalent.
pub open spec fn equiv<T, C: Comparator<T>>(c: C, a: T, b: T) -> bool {
    !c.lt(a, b) && !c.lt(b, a)
}

/// Membership test for the equivalence class of `x`.
pub open spec fn class_pred<T, C: Comparator<T>>(c: C, x: T) -> spec_fn(T) -> bool {
    |e: T| equiv(c, e, x)
}

/// The subsequence of `s` consisting of the elements equivalent to `x`.
pub open spec fn class_seq<T, C: Comparator<T>>(c: C, s: Seq<T>, x: T) -> Seq<T> {
    s.filter(class_pred(c, x))
}

/// Stability: for every value, the subsequence of elements equivalent to it
/// is the same in `s` and `t`.  Together with sortedness this pins the output
/// of a stable sort completely.
pub open spec fn classes_preserved<T, C: Comparator<T>>(c: C, s: Seq<T>, t: Seq<T>) -> bool {
    forall|x: T|
        #![trigger class_seq(c, s, x)]
        #![trigger class_seq(c, t, x)]
        class_seq(c, t, x) == class_seq(c, s, x)
}

/// Under a valid comparator the strict relation is transitive.
pub proof fn lemma_lt_trans<T, C: Comparator<T>>(c: C, a: T, b: T, x: T)
    requires
        valid_cmp(c),
        c.lt(a, b),
        c.lt(b, x),
    ensures
        c.lt(a, x),
{
    let le = le_of(c);
    if !c.lt(a, x) {
        assert(le(x, a));
        assert(le(b, x) || le(x, b));
        assert(le(b, a));
    }
}

/// Under a valid comparator the strict relation is asymmetric.
pub proof fn lemma_lt_asym<T, C: Comparator<T>>(c: C, a: T, b: T)
    requires
        valid_cmp(c),
        c.lt(a, b),
    ensures
        !c.lt(b, a),
{
    let le = le_of(c);
    assert(le(a, b) || le(b, a));
}

/// A chain of non-strict neighbour comparisons spans: no later element is
/// strictly below an earlier one.
pub proof fn lemma_le_span<T, C: Comparator<T>>(c: C, s: Seq<T>, i: int, j: int)
    requires
        valid_cmp(c),
        forall|m: int| 0 <= m < s.len() - 1 ==> !c.lt(#[trigger] s[m + 1], s[m]),
        0 <= i <= j < s.len(),
    ensures
        le_of(c)(s[i], s[j]),
    decreases j - i,
{
    let le = le_of(c);
    if i == j {
        assert(le(s[i], s[i]));
    } else {
        lemma_le_span(c, s, i, j - 1);
        assert(!c.lt(s[j - 1 + 1], s[j - 1]));
        assert(le(s[j - 1], s[j]));
        assert(le(s[i], s[j]));
    }
}

/// A sequence whose neighbours are pairwise in order is sorted.
pub proof fn lemma_adjacent_sorted<T, C: Comparator<T>>(c: C, s: Seq<T>)
    requires
        valid_cmp(c),
        forall|m: int| 0 <= m < s.len() - 1 ==> !c.lt(#[trigger] s[m + 1], s[m]),
    ensures
        vstd::relations::sorted_by(s, le_of(c)),
{
    let le = le_of(c);
    assert forall|i: int, j: int| 0 <= i < j < s.len() implies #[trigger] le(s[i], s[j]) by {
        lemma_le_span(c, s, i, j);
    }
}

/// A chain of strict neighbour comparisons spans strictly.
pub proof fn lemma_lt_span<T, C: Comparator<T>>(c: C, s: Seq<T>, i: int, j: int)
    requires
        valid_cmp(c),
        forall|m: int| 0 <= m < s.len() - 1 ==> c.lt(#[trigger] s[m + 1], s[m]),
        0 <= i < j < s.len(),
    ensures
        c.lt(s[j], s[i]),
    decreases j - i,
{
    if i + 1 == j {
        assert(c.lt(s[i + 1], s[i]));
    } else {
        lemma_lt_span(c, s, i, j - 1);
        assert(c.lt(s[j - 1 + 1], s[j - 1]));
        lemma_lt_trans(c, s[j], s[j - 1], s[i]);
    }
}

/// The reversal of a strictly descending sequence is sorted.
pub proof fn lemma_desc_reverse_sorted<T, C: Comparator<T>>(c: C, s: Seq<T>)
    requires
        valid_cmp(c),
        forall|m: int| 0 <= m < s.len() - 1 ==> c.lt(#[trigger] s[m + 1], s[m]),
    ensures
        vstd::relations::sorted_by(s.reverse(), le_of(c)),
{
    let le = le_of(c);
    let r = s.reverse();
    assert forall|i: int, j: int| 0 <= i < j < r.len() implies #[trigger] le(r[i], r[j]) by {
        let a = s.len() - 1 - i;
        let b = s.len() - 1 - j;
        lemma_lt_span(c, s, b, a);
        assert(c.lt(s[a], s[b]));
        assert(le(s[a], s[b]) || le(s[b], s[a]));
        assert(r[i] == s[a] && r[j] == s[b]);
    }
}

/// Values that carry a default total order of their own, used by the plain
/// `sort` entry point.
pub trait OrderedValue: Copy + Sized {
    /// The strict natural order on the type.
    spec fn lt_spec(self, other: Self) -> bool;

    /// The natural order is a strict total order.
    proof fn lemma_strict_total()
        ensures
            forall|a: Self| !(#[trigger] a.lt_spec(a)),
            forall|a: Self, b: Self, x: Self|
                #[trigger] a.lt_spec(b) && #[trigger] b.lt_spec(x) ==> a.lt_spec(x),
            forall|a: Self, b: Self| !a.lt_spec(b) && !(#[trigger] b.lt_spec(a)) ==> a == b,
    ;

    /// Decides the natural order.
    fn lt(&self, other: &Self) -> (r: bool)
        ensures
            r == self.lt_spec(*other),
    ;
}

/// A value that carries no data.  A sequence of these is sorted already:
/// all values compare equal, and sorting one is reordering nothing.
#[derive(Clone, Copy, PartialEq, Eq, Debug)]
pub struct Blank;

impl OrderedValue for Blank {
    open spec fn lt_spec(self, other: Self) -> bool {
        false
    }

    proof fn lemma_strict_total() {
    }

    fn lt(&self, other: &Self) -> (r: bool) {
        false
    }
}

/// The comparator that orders values by their own natural order.
pub struct NaturalOrder;

impl<T: OrderedValue> Comparator<T> for NaturalOrder {
    open spec fn lt(self, a: T, b: T) -> bool {
        a.lt_spec(b)
    }

    fn is_less(&self, a: &T, b: &T) -> (r: bool) {
        a.lt(b)
    }
}

/// The natural order of a type is a valid comparator, and moreover a total
/// ordering of the induced non-strict relation (equivalent values are equal).
pub proof fn lemma_natural_order_valid<T: OrderedValue>()
    ensures
        valid_cmp::<T, NaturalOrder>(NaturalOrder),
        total_ordering(le_of::<T, NaturalOrder>(NaturalOrder)),
{
    T::lemma_strict_total();
    let le = le_of::<T, NaturalOrder>(NaturalOrder);
    assert forall|a: T, b: T| #[trigger] le(a, b) && #[trigger] le(b, a) implies a == b by {
        assert(!b.lt_spec(a) && !a.lt_spec(b));
    }
    assert forall|a: T, b: T, x: T| #[trigger] le(a, b) && #[trigger] le(b, x) implies le(a, x) by {
        if x.lt_spec(a) {
            if b.lt_spec(a) {
            } else if x.lt_spec(b) {
            } else {
                assert(b == x);
            }
        }
    }
    assert forall|a: T, b: T| #[trigger] le(a, b) || #[trigger] le(b, a) by {
        if a.lt_spec(b) && b.lt_spec(a) {
            assert(a.lt_spec(a));
        }
    }
}

impl OrderedValue for i32 {
    open spec fn lt_spec(self, other: Self) -> bool {
        self < other
    }

    proof fn lemma_strict_total() {
    }

    fn lt(&self, other: &Self) -> (r: bool) {
        *self < *other
    }
}

impl OrderedValue for u64 {
    open spec fn lt_spec(self, other: Self) -> bool {
        self < other
    }

    proof fn lemma_strict_total() {
    }

    fn lt(&self, other: &Self) -> (r: bool) {
        *self < *other
    }
}

impl OrderedValue for u128 {
    open spec fn lt_spec(self, other: Self) -> bool {
        self < other
    }

    proof fn lemma_strict_total() {
    }

    fn lt(&self, other: &Self) -> (r: bool) {
        *self < *other
    }
}

/// Compares only whether a value lies below a cut: a valid comparator whose
/// key space has two values, so distinct elements can be equivalent.
pub struct CutOrder {
    pub cut: i32,
}

impl Comparator<i32> for CutOrder {
    open spec fn lt(self, a: i32, b: i32) -> bool {
        a < self.cut && b >= self.cut
    }

    fn is_less(&self, a: &i32, b: &i32) -> (r: bool) {
        *a < self.cut && *b >= self.cut
    }
}

/// Comparing against a cut is a valid comparator.
pub proof fn lemma_cut_order_valid(c: CutOrder)
    ensures
        valid_cmp::<i32, CutOrder>(c),
{
}

/// An adversarial comparator that answers "before" for every pair.
pub struct AlwaysLess;

impl Comparator<i32> for AlwaysLess {
    open spec fn lt(self, a: i32, b: i32) -> bool {
        true
    }

    fn is_less(&self, a: &i32, b: &i32) -> (r: bool) {
        true
    }
}

/// An adversarial comparator that answers "not before" for every pair.
pub struct NeverLess;

impl Comparator<i32> for NeverLess {
    open spec fn lt(self, a: i32, b: i32) -> bool {
        false
    }

    fn is_less(&self, a: &i32, b: &i32) -> (r: bool) {
        false
    }
}

/// An adversarial comparator that calls a pair "before" exactly when the
/// two values are equal.
pub struct EqualMeansLess;

impl Comparator<i32> for EqualMeansLess {
    open spec fn lt(self, a: i32, b: i32) -> bool {
        a == b
    }

    fn is_less(&self, a: &i32, b: &i32) -> (r: bool) {
        *a == *b
    }
}

/// An adversarial comparator that orders the values below its threshold
/// backwards, so that the two halves of the domain disagree about the
/// direction of the order.
pub struct FaultyBelow {
    pub threshold: i32,
}

impl Comparator<i32> for FaultyBelow {
    open spec fn lt(self, a: i32, b: i32) -> bool {
        if a < self.threshold || b < self.threshold {
            b < a
        } else {
            a < b
        }
    }

    fn is_less(&self, a: &i32, b: &i32) -> (r: bool) {
        if *a < self.threshold || *b < self.threshold {
            *b < *a
        } else {
            *a < *b
        }
    }
}

/// Orders key/tag pairs by the key alone.  Pairs with equal keys are
/// equivalent but not equal, which makes stability observable.
pub struct KeyOrder;

impl Comparator<(i32, i32)> for KeyOrder {
    open spec fn lt(self, a: (i32, i32), b: (i32, i32)) -> bool {
        a.0 < b.0
    }

    fn is_less(&self, a: &(i32, i32), b: &(i32, i32)) -> (r: bool) {
        a.0 < b.0
    }
}

/// Ordering by key alone is a valid comparator (but not antisymmetric).
pub proof fn lemma_key_order_valid()
    ensures
        valid_cmp::<(i32, i32), KeyOrder>(KeyOrder),
{
}

} // verus!
