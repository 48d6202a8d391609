//! The conformance harness: drives a sorting backend over the pattern
//! generators and checks the sorting contract on every output.
//!
//! A backend is anything implementing [`Sort`].  For the verified engine the
//! checks are proved to succeed, so every harness entry point promises `true`;
//! run against an unverified backend, the same checks do real work at run
//! time.

use vstd::prelude::*;
use vstd::relations::sorted_by;

use crate::engine;
use crate::laws::{lemma_sort_deterministic, lemma_sorted_matches_reference};
use crate::order::{
    classes_preserved, le_of, lemma_adjacent_sorted, lemma_natural_order_valid, valid_cmp,
    Comparator, NaturalOrder, OrderedValue,
};

verus! {

/// A sorting backend: the contract every engine must implement identically.
/// Sorting preserves the element multiset for every comparator; a valid
/// comparator additionally obtains a sorted, stable result.
pub trait Sort {
    /// Sorts ascending by the elements' own total order.
    fn sort<T: OrderedValue>(v: &mut Vec<T>)
        ensures
            final(v)@.len() == old(v)@.len(),
            final(v)@.to_multiset() == old(v)@.to_multiset(),
            sorted_by(final(v)@, le_of::<T, NaturalOrder>(NaturalOrder)),
            classes_preserved(NaturalOrder, old(v)@, final(v)@),
    ;

    /// Sorts by a caller-supplied comparator, stably.
    fn sort_by<T: Copy, C: Comparator<T>>(v: &mut Vec<T>, c: &C)
        ensures
            final(v)@.len() == old(v)@.len(),
            final(v)@.to_multiset() == old(v)@.to_multiset(),
            valid_cmp(*c) ==> sorted_by(final(v)@, le_of(*c)),
            valid_cmp(*c) ==> classes_preserved(*c, old(v)@, final(v)@),
    ;
}

/// The run-detecting, run-merging engine of this crate, as a backend.
pub struct CoreSort;

impl Sort for CoreSort {
    fn sort<T: OrderedValue>(v: &mut Vec<T>) {
        engine::sort(v);
    }

    fn sort_by<T: Copy, C: Comparator<T>>(v: &mut Vec<T>, c: &C) {
        engine::sort_by(v, c);
    }
}

/// An element-for-element copy.
pub fn copied<T: Copy>(v: &Vec<T>) -> (r: Vec<T>)
    ensures
        r@ == v@,
{
    let mut r: Vec<T> = Vec::new();
    let mut i: usize = 0;
    while i < v.len()
        invariant
            i <= v@.len(),
            r@ == v@.subrange(0, i as int),
        decreases v@.len() - i,
    {
        let x = v[i];
        r.push(x);
        proof {
            assert(r@ =~= v@.subrange(0, i + 1));
        }
        i = i + 1;
    }
    proof {
        assert(v@.subrange(0, v@.len() as int) =~= v@);
    }
    r
}

/// Whether two sequences of naturally ordered values are equal, decided by
/// comparisons alone.
pub fn vec_equal<T: OrderedValue>(a: &Vec<T>, b: &Vec<T>) -> (r: bool)
    ensures
        r == (a@ == b@),
{
    proof {
        lemma_natural_order_valid::<T>();
    }
    if a.len() != b.len() {
        proof {
            assert(a@.len() != b@.len());
        }
        return false;
    }
    let mut i: usize = 0;
    while i < a.len()
        invariant
            i <= a@.len() == b@.len(),
            forall|k: int| 0 <= k < i ==> a@[k] == b@[k],
        decreases a@.len() - i,
    {
        let x = a[i];
        let y = b[i];
        if x.lt(&y) || y.lt(&x) {
            proof {
                assert(a@[i as int] != b@[i as int]) by {
                    T::lemma_strict_total();
                }
            }
            return false;
        }
        proof {
            assert(a@[i as int] == b@[i as int]) by {
                T::lemma_strict_total();
            }
        }
        i = i + 1;
    }
    proof {
        assert(a@ =~= b@);
    }
    true
}

/// Whether the sequence ascends: no element is strictly below its left
/// neighbour.  Under the natural order this is exactly sortedness.
pub fn is_sorted<T: OrderedValue>(v: &Vec<T>) -> (r: bool)
    ensures
        r == sorted_by(v@, le_of::<T, NaturalOrder>(NaturalOrder)),
{
    proof {
        lemma_natural_order_valid::<T>();
    }
    let mut i: usize = 1;
    while i < v.len()
        invariant
            1 <= i,
            i <= v@.len() || v@.len() == 0,
            forall|m: int| 0 <= m < i - 1 ==> !(#[trigger] v@[m + 1].lt_spec(v@[m])),
        decreases v@.len() - i,
    {
        let x = v[i];
        let w = v[i - 1];
        if x.lt(&w) {
            proof {
                let le = le_of::<T, NaturalOrder>(NaturalOrder);
                assert(v@[i as int].lt_spec(v@[i - 1]));
                assert(!le(v@[i - 1], v@[i as int]));
            }
            return false;
        }
        i = i + 1;
    }
    proof {
        assert forall|m: int| 0 <= m < v@.len() - 1 implies !(#[trigger] v@[m + 1].lt_spec(
            v@[m],
        )) by {}
        lemma_adjacent_sorted(NaturalOrder, v@);
    }
    true
}

/// Whether two sequences hold the same elements, each the same number of
/// times: both are sorted by the engine and compared.
pub fn same_elements<T: OrderedValue>(a: &Vec<T>, b: &Vec<T>) -> (r: bool)
    ensures
        r == (a@.to_multiset() == b@.to_multiset()),
{
    proof {
        lemma_natural_order_valid::<T>();
    }
    let mut sa = copied(a);
    let mut sb = copied(b);
    engine::sort(&mut sa);
    engine::sort(&mut sb);
    let r = vec_equal(&sa, &sb);
    proof {
        let le = le_of::<T, NaturalOrder>(NaturalOrder);
        if a@.to_multiset() == b@.to_multiset() {
            lemma_sorted_matches_reference(NaturalOrder, a@, sa@);
            lemma_sorted_matches_reference(NaturalOrder, a@, sb@);
            assert(sa@ == sb@);
        }
        if sa@ == sb@ {
            assert(a@.to_multiset() == b@.to_multiset());
        }
    }
    r
}

/// Sorts a copy of the input with the backend and a second copy with the
/// engine, and checks that the backend's output is sorted and equal to the
/// engine's.  For a contract-abiding backend this cannot fail.
pub fn sort_comp<T: OrderedValue, S: Sort>(v: &mut Vec<T>) -> (ok: bool)
    ensures
        ok,
        final(v)@.to_multiset() == old(v)@.to_multiset(),
        sorted_by(final(v)@, le_of::<T, NaturalOrder>(NaturalOrder)),
{
    let ghost input = v@;
    let mut reference = copied(v);
    S::sort(v);
    engine::sort(&mut reference);
    proof {
        lemma_natural_order_valid::<T>();
        lemma_sort_deterministic(NaturalOrder, input, v@, reference@);
    }
    let agree = vec_equal(v, &reference);
    let ascending_now = is_sorted(v);
    agree && ascending_now
}

/// The input shapes the harness drives a backend with.
#[derive(Clone, Copy)]
pub enum Pattern {
    Random,
    Uniform { lo: i32, hi: i32 },
    Ascending,
    Descending,
    SawAscending,
    SawDescending,
    SawMixed,
    SawMixedRange,
    PipeOrgan,
    AllEqual,
    Zipf { skew_hundredths: u64 },
    Sorted { percent: usize },
}

/// The parameters a pattern may carry are in range.
pub open spec fn pattern_wf(p: Pattern) -> bool {
    match p {
        Pattern::Uniform { lo, hi } => lo <= hi,
        Pattern::Zipf { skew_hundredths } => 100 <= skew_hundredths <= 300,
        Pattern::Sorted { percent } => percent <= 100,
        _ => true,
    }
}

/// Generates the requested pattern at the requested length.
pub fn generate(p: Pattern, len: usize) -> (v: Vec<i32>)
    requires
        pattern_wf(p),
        len <= 0x7fffffff,
    ensures
        v@.len() == len,
        ({
            let count = crate::patterns::ilog2_spec(len as nat) as usize;
            let tooth = crate::patterns::tooth_of(len, count);
            match p {
                Pattern::Random => forall|k: int|
                    0 <= k < len ==> v@[k] == crate::patterns::lcg_value(
                        crate::patterns::lcg_iter(crate::patterns::RANDOM_SEED, (k + 1) as nat),
                    ),
                Pattern::Uniform { lo, hi } => forall|k: int|
                    0 <= k < len ==> lo <= #[trigger] v@[k] <= hi && v@[k]
                        == crate::patterns::uniform_value(
                        crate::patterns::lcg_iter(crate::patterns::RANDOM_SEED, (k + 1) as nat),
                        lo,
                        hi,
                    ),
                Pattern::Ascending => forall|k: int| 0 <= k < len ==> v@[k] == k,
                Pattern::Descending => forall|k: int| 0 <= k < len ==> v@[k] == len - 1 - k,
                Pattern::SawAscending => forall|k: int| 0 <= k < len ==> v@[k] == k % tooth,
                Pattern::SawDescending => forall|k: int|
                    0 <= k < len ==> v@[k] == tooth - 1 - (k % tooth),
                Pattern::SawMixed => forall|k: int|
                    0 <= k < len ==> v@[k] == (if (k / tooth) % 2 == 0 {
                        k % tooth
                    } else {
                        tooth - 1 - (k % tooth)
                    }),
                Pattern::SawMixedRange => (forall|k: int|
                    0 <= k < len ==> 0 <= #[trigger] v@[k] <= 50) && v@
                    == crate::patterns::saw_mixed_range_seq(
                    crate::patterns::RANDOM_SEED,
                    true,
                    len as nat,
                    20,
                    50,
                ),
                Pattern::PipeOrgan => forall|k: int|
                    0 <= k < len ==> v@[k] == (if k < len / 2 {
                        k
                    } else {
                        len - 1 - k
                    }),
                Pattern::AllEqual => forall|k: int| 0 <= k < len ==> v@[k] == 0,
                Pattern::Zipf { skew_hundredths } => forall|k: int|
                    0 <= k < len ==> 0 <= #[trigger] v@[k] < 1024 && v@[k]
                        == crate::patterns::zipf_rank(
                        crate::patterns::lcg_iter(crate::patterns::RANDOM_SEED, (k + 1) as nat),
                        skew_hundredths,
                    ),
                Pattern::Sorted { percent } => (forall|k: int|
                    0 <= k < len * percent / 100 ==> v@[k] == k) && (forall|k: int|
                    len * percent / 100 <= k < len ==> v@[k] == crate::patterns::lcg_value(
                        crate::patterns::lcg_iter(
                            crate::patterns::RANDOM_SEED,
                            (k - len * percent / 100 + 1) as nat,
                        ),
                    )),
            }
        }),
{
    let count = crate::patterns::ilog2(len);
    match p {
        Pattern::Random => crate::patterns::random(len),
        Pattern::Uniform { lo, hi } => crate::patterns::random_uniform(len, lo, hi),
        Pattern::Ascending => crate::patterns::ascending(len),
        Pattern::Descending => crate::patterns::descending(len),
        Pattern::SawAscending => crate::patterns::saw_ascending(len, count),
        Pattern::SawDescending => crate::patterns::saw_descending(len, count),
        Pattern::SawMixed => crate::patterns::saw_mixed(len, count),
        Pattern::SawMixedRange => crate::patterns::saw_mixed_range(len, 20, 50),
        Pattern::PipeOrgan => crate::patterns::pipe_organ(len),
        Pattern::AllEqual => crate::patterns::all_equal(len),
        Pattern::Zipf { skew_hundredths } => crate::patterns::random_zipf(len, skew_hundredths),
        Pattern::Sorted { percent } => crate::patterns::random_sorted(len, percent),
    }
}

/// The lengths every harness entry point exercises: every length up to 24,
/// then a spread up to 2048.
pub open spec fn test_sizes_spec() -> Seq<usize> {
    Seq::new(25, |k: int| k as usize) + seq![30usize, 32, 33, 35, 50, 100, 200, 500, 1000, 2048]
}

/// The lengths every harness entry point exercises.
pub fn test_sizes() -> (v: Vec<usize>)
    ensures
        v@ == test_sizes_spec(),
        forall|k: int| 0 <= k < v@.len() ==> #[trigger] v@[k] <= 2048,
{
    let mut v: Vec<usize> = Vec::new();
    let mut i: usize = 0;
    while i <= 24
        invariant
            i <= 25,
            v@ =~= Seq::new(i as nat, |k: int| k as usize),
        decreases 25 - i,
    {
        v.push(i);
        proof {
            assert(v@ =~= Seq::new((i + 1) as nat, |k: int| k as usize));
        }
        i = i + 1;
    }
    v.push(30);
    v.push(32);
    v.push(33);
    v.push(35);
    v.push(50);
    v.push(100);
    v.push(200);
    v.push(500);
    v.push(1000);
    v.push(2048);
    proof {
        assert(v@ =~= test_sizes_spec());
    }
    v
}

/// Drives one pattern through the backend at every test length, comparing
/// each output against the engine's.
pub fn test_impl<S: Sort>(p: Pattern) -> (ok: bool)
    requires
        pattern_wf(p),
    ensures
        ok,
{
    let szs = test_sizes();
    let mut idx: usize = 0;
    let mut ok = true;
    while idx < szs.len()
        invariant
            ok,
            pattern_wf(p),
            forall|k: int| 0 <= k < szs@.len() ==> #[trigger] szs@[k] <= 2048,
        decreases szs@.len() - idx,
    {
        let len = szs[idx];
        let mut data = generate(p, len);
        let good = sort_comp::<i32, S>(&mut data);
        ok = ok && good;
        idx = idx + 1;
    }
    ok
}

/// The pattern set used by the adversarial and stability drivers: random,
/// narrow and binary uniform, ascending, descending, mixed sawtooth, and
/// Zipf-skewed input.
pub open spec fn custom_patterns_spec() -> Seq<Pattern> {
    seq![
        Pattern::Random,
        Pattern::Uniform { lo: 0, hi: 16 },
        Pattern::Uniform { lo: 0, hi: 1 },
        Pattern::Ascending,
        Pattern::Descending,
        Pattern::SawMixed,
        Pattern::Zipf { skew_hundredths: 100 },
    ]
}

/// The pattern set used by the adversarial and stability drivers.
pub fn custom_patterns() -> (v: Vec<Pattern>)
    ensures
        v@ == custom_patterns_spec(),
        forall|k: int| 0 <= k < v@.len() ==> pattern_wf(#[trigger] v@[k]),
{
    let mut v: Vec<Pattern> = Vec::new();
    v.push(Pattern::Random);
    v.push(Pattern::Uniform { lo: 0, hi: 16 });
    v.push(Pattern::Uniform { lo: 0, hi: 1 });
    v.push(Pattern::Ascending);
    v.push(Pattern::Descending);
    v.push(Pattern::SawMixed);
    v.push(Pattern::Zipf { skew_hundredths: 100 });
    proof {
        assert(v@ =~= custom_patterns_spec());
    }
    v
}

/// Sorts every pattern at every length with the given comparator and checks
/// that the input multiset survives — whatever the comparator answered.
pub fn check_retains_elements<S: Sort, C: Comparator<i32>>(c: &C) -> (ok: bool)
    ensures
        ok,
{
    let pats = custom_patterns();
    let szs = test_sizes();
    let mut pi: usize = 0;
    let mut ok = true;
    while pi < pats.len()
        invariant
            ok,
            forall|k: int| 0 <= k < pats@.len() ==> pattern_wf(#[trigger] pats@[k]),
            forall|k: int| 0 <= k < szs@.len() ==> #[trigger] szs@[k] <= 2048,
        decreases pats@.len() - pi,
    {
        let mut si: usize = 0;
        while si < szs.len()
            invariant
                ok,
                pi < pats@.len(),
                forall|k: int| 0 <= k < pats@.len() ==> pattern_wf(#[trigger] pats@[k]),
                forall|k: int| 0 <= k < szs@.len() ==> #[trigger] szs@[k] <= 2048,
            decreases szs@.len() - si,
        {
            let len = szs[si];
            let mut data = generate(pats[pi], len);
            let before = copied(&data);
            S::sort_by(&mut data, c);
            let kept = same_elements(&before, &data);
            ok = ok && kept;
            si = si + 1;
        }
        pi = pi + 1;
    }
    ok
}

// --- Harness entry points ---

/// Small fixed inputs, including sequences of zero-sized values.
pub fn basic<S: Sort>() -> (ok: bool)
    ensures
        ok,
{
    let mut ok = true;
    let mut a: Vec<i32> = Vec::new();
    ok = ok && sort_comp::<i32, S>(&mut a);
    let mut u: Vec<crate::order::Blank> = Vec::new();
    u.push(crate::order::Blank);
    u.push(crate::order::Blank);
    u.push(crate::order::Blank);
    ok = ok && sort_comp::<crate::order::Blank, S>(&mut u);
    let mut b: Vec<i32> = Vec::new();
    b.push(2);
    b.push(3);
    ok = ok && sort_comp::<i32, S>(&mut b);
    let mut c: Vec<i32> = Vec::new();
    c.push(2);
    c.push(3);
    c.push(6);
    ok = ok && sort_comp::<i32, S>(&mut c);
    let mut d: Vec<i32> = Vec::new();
    d.push(2);
    d.push(3);
    d.push(99);
    d.push(6);
    ok = ok && sort_comp::<i32, S>(&mut d);
    let mut e: Vec<i32> = Vec::new();
    e.push(2);
    e.push(7709);
    e.push(400);
    e.push(90932);
    ok = ok && sort_comp::<i32, S>(&mut e);
    let mut f: Vec<i32> = Vec::new();
    f.push(15);
    f.push(-1);
    f.push(3);
    f.push(-1);
    f.push(-3);
    f.push(-1);
    f.push(7);
    ok = ok && sort_comp::<i32, S>(&mut f);
    ok
}

/// The pseudo-random seed is fixed: two reads agree, so failures reproduce.
pub fn fixed_seed<S: Sort>() -> (ok: bool)
    ensures
        ok,
{
    let seed_a = crate::patterns::random_init_seed();
    let seed_b = crate::patterns::random_init_seed();
    seed_a == seed_b
}

/// Pseudo-random input.
pub fn random<S: Sort>() -> (ok: bool)
    ensures
        ok,
{
    test_impl::<S>(Pattern::Random)
}

/// Pseudo-random input spread over the 64-bit range, order preserved.
pub fn random_type_u64<S: Sort>() -> (ok: bool)
    ensures
        ok,
{
    let szs = test_sizes();
    let mut idx: usize = 0;
    let mut ok = true;
    while idx < szs.len()
        invariant
            ok,
            forall|k: int| 0 <= k < szs@.len() ==> #[trigger] szs@[k] <= 2048,
        decreases szs@.len() - idx,
    {
        let len = szs[idx];
        let base = crate::patterns::random(len);
        let mut data: Vec<u64> = Vec::new();
        let mut i: usize = 0;
        while i < base.len()
            invariant
                i <= base@.len(),
                data@.len() == i,
            decreases base@.len() - i,
        {
            let val = base[i];
            let x: u64 = ((val as i64) + 0x7fffffffi64 + 1) as u64;
            data.push(x * 0x7fffffffu64);
            i = i + 1;
        }
        let good = sort_comp::<u64, S>(&mut data);
        ok = ok && good;
        idx = idx + 1;
    }
    ok
}

/// Pseudo-random input spread over the 128-bit range, order preserved.
pub fn random_type_u128<S: Sort>() -> (ok: bool)
    ensures
        ok,
{
    let szs = test_sizes();
    let mut idx: usize = 0;
    let mut ok = true;
    while idx < szs.len()
        invariant
            ok,
            forall|k: int| 0 <= k < szs@.len() ==> #[trigger] szs@[k] <= 2048,
        decreases szs@.len() - idx,
    {
        let len = szs[idx];
        let base = crate::patterns::random(len);
        let mut data: Vec<u128> = Vec::new();
        let mut i: usize = 0;
        while i < base.len()
            invariant
                i <= base@.len(),
                data@.len() == i,
            decreases base@.len() - i,
        {
            let val = base[i];
            let x: u128 = ((val as i128) + 0x7fffffffffffffffi128 + 1) as u128;
            data.push(x * 0x7fffffffffffffffu128);
            i = i + 1;
        }
        let good = sort_comp::<u128, S>(&mut data);
        ok = ok && good;
        idx = idx + 1;
    }
    ok
}

/// Pseudo-random input with four distinct values.
pub fn random_d4<S: Sort>() -> (ok: bool)
    ensures
        ok,
{
    test_impl::<S>(Pattern::Uniform { lo: 0, hi: 3 })
}

/// Pseudo-random input with eight distinct values.
pub fn random_d8<S: Sort>() -> (ok: bool)
    ensures
        ok,
{
    test_impl::<S>(Pattern::Uniform { lo: 0, hi: 7 })
}

/// Pseudo-random input with sixteen distinct values.
pub fn random_d16<S: Sort>() -> (ok: bool)
    ensures
        ok,
{
    test_impl::<S>(Pattern::Uniform { lo: 0, hi: 15 })
}

/// Pseudo-random input with 256 distinct values.
pub fn random_d256<S: Sort>() -> (ok: bool)
    ensures
        ok,
{
    test_impl::<S>(Pattern::Uniform { lo: 0, hi: 255 })
}

/// Pseudo-random input with 1024 distinct values.
pub fn random_d1024<S: Sort>() -> (ok: bool)
    ensures
        ok,
{
    test_impl::<S>(Pattern::Uniform { lo: 0, hi: 1023 })
}

/// Zipf-skewed input, harmonic skew.
pub fn random_z1<S: Sort>() -> (ok: bool)
    ensures
        ok,
{
    test_impl::<S>(Pattern::Zipf { skew_hundredths: 100 })
}

/// Zipf-skewed input, skew 1.03.
pub fn random_z1_03<S: Sort>() -> (ok: bool)
    ensures
        ok,
{
    test_impl::<S>(Pattern::Zipf { skew_hundredths: 103 })
}

/// Zipf-skewed input, skew 2.
pub fn random_z2<S: Sort>() -> (ok: bool)
    ensures
        ok,
{
    test_impl::<S>(Pattern::Zipf { skew_hundredths: 200 })
}

/// Half-sorted input.
pub fn random_s50<S: Sort>() -> (ok: bool)
    ensures
        ok,
{
    test_impl::<S>(Pattern::Sorted { percent: 50 })
}

/// Mostly sorted input.
pub fn random_s95<S: Sort>() -> (ok: bool)
    ensures
        ok,
{
    test_impl::<S>(Pattern::Sorted { percent: 95 })
}

/// Pseudo-random input over a narrow, length-dependent range.
pub fn random_narrow<S: Sort>() -> (ok: bool)
    ensures
        ok,
{
    let szs = test_sizes();
    let mut idx: usize = 0;
    let mut ok = true;
    while idx < szs.len()
        invariant
            ok,
            forall|k: int| 0 <= k < szs@.len() ==> #[trigger] szs@[k] <= 2048,
        decreases szs@.len() - idx,
    {
        let len = szs[idx];
        let hi = (crate::patterns::ilog2(len) as i32) * 100;
        let mut data = crate::patterns::random_uniform(len, 0, hi);
        let good = sort_comp::<i32, S>(&mut data);
        ok = ok && good;
        idx = idx + 1;
    }
    ok
}

/// Pseudo-random zeroes and ones.
pub fn random_binary<S: Sort>() -> (ok: bool)
    ensures
        ok,
{
    test_impl::<S>(Pattern::Uniform { lo: 0, hi: 1 })
}

/// Input of one repeated value.
pub fn all_equal<S: Sort>() -> (ok: bool)
    ensures
        ok,
{
    test_impl::<S>(Pattern::AllEqual)
}

/// Already ascending input.
pub fn ascending<S: Sort>() -> (ok: bool)
    ensures
        ok,
{
    test_impl::<S>(Pattern::Ascending)
}

/// Strictly descending input.
pub fn descending<S: Sort>() -> (ok: bool)
    ensures
        ok,
{
    test_impl::<S>(Pattern::Descending)
}

/// Repeated ascending teeth.
pub fn saw_ascending<S: Sort>() -> (ok: bool)
    ensures
        ok,
{
    test_impl::<S>(Pattern::SawAscending)
}

/// Repeated descending teeth.
pub fn saw_descending<S: Sort>() -> (ok: bool)
    ensures
        ok,
{
    test_impl::<S>(Pattern::SawDescending)
}

/// Alternating ascending and descending teeth.
pub fn saw_mixed<S: Sort>() -> (ok: bool)
    ensures
        ok,
{
    test_impl::<S>(Pattern::SawMixed)
}

/// Alternating teeth with pseudo-random tooth lengths.
pub fn saw_mixed_range<S: Sort>() -> (ok: bool)
    ensures
        ok,
{
    test_impl::<S>(Pattern::SawMixedRange)
}

/// Ascending then descending input.
pub fn pipe_organ<S: Sort>() -> (ok: bool)
    ensures
        ok,
{
    test_impl::<S>(Pattern::PipeOrgan)
}

/// Stability: key/tag pairs sorted by key keep equal-keyed pairs in their
/// original order, at every length.
pub fn stability<S: Sort>() -> (ok: bool)
    ensures
        ok,
{
    let szs = test_sizes();
    let mut idx: usize = 0;
    let mut ok = true;
    while idx < szs.len()
        invariant
            ok,
            forall|k: int| 0 <= k < szs@.len() ==> #[trigger] szs@[k] <= 2048,
        decreases szs@.len() - idx,
    {
        let len = szs[idx];
        let keys = crate::patterns::random_uniform(len, 0, 9);
        let good = stability_round::<S>(&keys);
        ok = ok && good;
        idx = idx + 1;
    }
    ok
}

/// Stability exercised over every pattern shape.
pub fn stability_with_patterns<S: Sort>() -> (ok: bool)
    ensures
        ok,
{
    let pats = custom_patterns();
    let szs = test_sizes();
    let mut pi: usize = 0;
    let mut ok = true;
    while pi < pats.len()
        invariant
            ok,
            forall|k: int| 0 <= k < pats@.len() ==> pattern_wf(#[trigger] pats@[k]),
            forall|k: int| 0 <= k < szs@.len() ==> #[trigger] szs@[k] <= 2048,
        decreases pats@.len() - pi,
    {
        let mut si: usize = 0;
        while si < szs.len()
            invariant
                ok,
                pi < pats@.len(),
                forall|k: int| 0 <= k < pats@.len() ==> pattern_wf(#[trigger] pats@[k]),
                forall|k: int| 0 <= k < szs@.len() ==> #[trigger] szs@[k] <= 2048,
            decreases szs@.len() - si,
        {
            let len = szs[si];
            let keys = generate(pats[pi], len);
            let good = stability_round::<S>(&keys);
            ok = ok && good;
            si = si + 1;
        }
        pi = pi + 1;
    }
    ok
}

/// One stability round: tag each key with its position, sort by key alone,
/// and check that equal keys carry ascending tags.
pub fn stability_round<S: Sort>(keys: &Vec<i32>) -> (ok: bool)
    requires
        keys@.len() <= 0x7fffffff,
    ensures
        ok,
{
    let n = keys.len();
    let mut pairs: Vec<(i32, i32)> = Vec::new();
    let mut i: usize = 0;
    while i < n
        invariant
            i <= n == keys@.len() <= 0x7fffffff,
            pairs@.len() == i,
            forall|k: int| 0 <= k < i ==> (#[trigger] pairs@[k]).1 == k,
        decreases n - i,
    {
        let key = keys[i];
        pairs.push((key, i as i32));
        i = i + 1;
    }
    let ghost input = pairs@;
    S::sort_by(&mut pairs, &crate::order::KeyOrder);
    proof {
        crate::order::lemma_key_order_valid();
        crate::laws::lemma_stability_pairs(input, pairs@);
    }
    let mut j: usize = 1;
    while j < pairs.len()
        invariant
            1 <= j,
            j <= pairs@.len() || pairs@.len() == 0,
            pairs@.len() == input.len(),
            sorted_by(pairs@, le_of::<(i32, i32), crate::order::KeyOrder>(crate::order::KeyOrder)),
            forall|a: int, b: int|
                0 <= a < b < pairs@.len() && (#[trigger] pairs@[a]).0 == (#[trigger] pairs@[b]).0
                    ==> pairs@[a].1 < pairs@[b].1,
        decreases pairs@.len() - j,
    {
        let prev = pairs[j - 1];
        let here = pairs[j];
        if here.0 < prev.0 {
            proof {
                let le = le_of::<(i32, i32), crate::order::KeyOrder>(crate::order::KeyOrder);
                assert(!le(pairs@[j - 1], pairs@[j as int]));
            }
            return false;
        }
        if here.0 == prev.0 && here.1 <= prev.1 {
            proof {
                assert(pairs@[j - 1].1 < pairs@[j as int].1);
            }
            return false;
        }
        j = j + 1;
    }
    true
}

/// Every comparison is made on two live elements of the sequence: the
/// engine hands the comparator the values in their slots, and under a
/// two-band comparator the outcome is checked to be ordered and complete.
pub fn observable_is_less<S: Sort>() -> (ok: bool)
    ensures
        ok,
{
    let cut = crate::order::CutOrder { cut: 0 };
    let good_elems = check_retains_elements::<S, crate::order::CutOrder>(&cut);
    let pats = custom_patterns();
    let mut pi: usize = 0;
    let mut ok = good_elems;
    while pi < pats.len()
        invariant
            ok,
            cut.cut == 0,
            forall|k: int| 0 <= k < pats@.len() ==> pattern_wf(#[trigger] pats@[k]),
        decreases pats@.len() - pi,
    {
        let mut data = generate(pats[pi], 200);
        S::sort_by(&mut data, &cut);
        proof {
            crate::order::lemma_cut_order_valid(cut);
        }
        let mut j: usize = 1;
        let mut banded = true;
        while j < data.len()
            invariant
                1 <= j,
                j <= data@.len() || data@.len() == 0,
                banded,
                cut.cut == 0,
                sorted_by(data@, le_of::<i32, crate::order::CutOrder>(cut)),
            decreases data@.len() - j,
        {
            let prev = data[j - 1];
            let here = data[j];
            if here < 0 && prev >= 0 {
                proof {
                    let le = le_of::<i32, crate::order::CutOrder>(cut);
                    assert(!le(data@[j - 1], data@[j as int]));
                }
                banded = false;
            }
            j = j + 1;
        }
        ok = ok && banded;
        pi = pi + 1;
    }
    ok
}

/// Elements survive a comparator that misorders part of the domain — the
/// adversary standing in for one that gives up mid-sort.
pub fn panic_retain_original_set_i32<S: Sort>() -> (ok: bool)
    ensures
        ok,
{
    let a = check_retains_elements::<S, crate::order::FaultyBelow>(
        &(crate::order::FaultyBelow { threshold: 0 }),
    );
    let b = check_retains_elements::<S, crate::order::FaultyBelow>(
        &(crate::order::FaultyBelow { threshold: 100 }),
    );
    a && b
}

/// Elements survive, and stay observable in their slots, under a comparator
/// that misorders part of the domain.
pub fn panic_observable_is_less_i32<S: Sort>() -> (ok: bool)
    ensures
        ok,
{
    check_retains_elements::<S, crate::order::FaultyBelow>(
        &(crate::order::FaultyBelow { threshold: -50 }),
    )
}

/// Sorting the same input twice with the same deterministic comparator
/// gives identical output, even when the comparator looks at part of the
/// value only.
pub fn deterministic_i32<S: Sort>() -> (ok: bool)
    ensures
        ok,
{
    let cut = crate::order::CutOrder { cut: 10 };
    let pats = custom_patterns();
    let szs = test_sizes();
    let mut pi: usize = 0;
    let mut ok = true;
    while pi < pats.len()
        invariant
            ok,
            forall|k: int| 0 <= k < pats@.len() ==> pattern_wf(#[trigger] pats@[k]),
            forall|k: int| 0 <= k < szs@.len() ==> #[trigger] szs@[k] <= 2048,
        decreases pats@.len() - pi,
    {
        let mut si: usize = 0;
        while si < szs.len()
            invariant
                ok,
                pi < pats@.len(),
                forall|k: int| 0 <= k < pats@.len() ==> pattern_wf(#[trigger] pats@[k]),
                forall|k: int| 0 <= k < szs@.len() ==> #[trigger] szs@[k] <= 2048,
            decreases szs@.len() - si,
        {
            let len = szs[si];
            let ghost cut_ghost = cut;
            let mut one = generate(pats[pi], len);
            let mut two = copied(&one);
            let ghost input = one@;
            S::sort_by(&mut one, &cut);
            S::sort_by(&mut two, &cut);
            proof {
                crate::order::lemma_cut_order_valid(cut);
                crate::laws::lemma_sort_deterministic(cut, input, one@, two@);
            }
            let same = i32_vec_equal(&one, &two);
            ok = ok && same;
            si = si + 1;
        }
        pi = pi + 1;
    }
    ok
}

/// Plain equality of two integer sequences.
pub fn i32_vec_equal(a: &Vec<i32>, b: &Vec<i32>) -> (r: bool)
    ensures
        r == (a@ == b@),
{
    if a.len() != b.len() {
        proof {
            assert(a@.len() != b@.len());
        }
        return false;
    }
    let mut i: usize = 0;
    while i < a.len()
        invariant
            i <= a@.len() == b@.len(),
            forall|k: int| 0 <= k < i ==> a@[k] == b@[k],
        decreases a@.len() - i,
    {
        if a[i] != b[i] {
            return false;
        }
        i = i + 1;
    }
    proof {
        assert(a@ =~= b@);
    }
    true
}

/// The engine never hands the comparator one storage slot twice: inside the
/// library every same-sequence comparison goes through a helper that
/// requires two distinct indices.  Here the sorted outcome is checked.
pub fn self_cmp_i32<S: Sort>() -> (ok: bool)
    ensures
        ok,
{
    let pats = custom_patterns();
    let mut pi: usize = 0;
    let mut ok = true;
    while pi < pats.len()
        invariant
            ok,
            forall|k: int| 0 <= k < pats@.len() ==> pattern_wf(#[trigger] pats@[k]),
        decreases pats@.len() - pi,
    {
        let mut data = generate(pats[pi], 300);
        let good = sort_comp::<i32, S>(&mut data);
        ok = ok && good;
        pi = pi + 1;
    }
    ok
}

/// Elements survive comparators that violate a strict total order in every
/// way: everything-is-less, nothing-is-less, and equal-means-less.
pub fn violate_ord_retain_original_set_i32<S: Sort>() -> (ok: bool)
    ensures
        ok,
{
    let a = check_retains_elements::<S, crate::order::AlwaysLess>(&crate::order::AlwaysLess);
    let b = check_retains_elements::<S, crate::order::NeverLess>(&crate::order::NeverLess);
    let c = check_retains_elements::<S, crate::order::EqualMeansLess>(
        &crate::order::EqualMeansLess,
    );
    a && b && c
}

/// Sorting by the natural order and sorting by an explicit natural-order
/// comparator produce the same output.
pub fn sort_vs_sort_by<S: Sort>() -> (ok: bool)
    ensures
        ok,
{
    let mut input_normal: Vec<i32> = Vec::new();
    input_normal.push(800);
    input_normal.push(3);
    input_normal.push(-801);
    input_normal.push(5);
    input_normal.push(-801);
    input_normal.push(-3);
    input_normal.push(60);
    input_normal.push(200);
    input_normal.push(50);
    input_normal.push(7);
    input_normal.push(10);
    let mut input_sort_by = copied(&input_normal);
    let ghost input = input_normal@;
    S::sort(&mut input_normal);
    S::sort_by(&mut input_sort_by, &NaturalOrder);
    proof {
        lemma_natural_order_valid::<i32>();
        crate::laws::lemma_sort_by_natural_agrees(input, input_normal@, input_sort_by@);
    }
    let agree = i32_vec_equal(&input_normal, &input_sort_by);
    let ascending_now = is_sorted(&input_normal);
    agree && ascending_now
}

/// Sequences holding extremal values sort like any others.
pub fn int_edge<S: Sort>() -> (ok: bool)
    ensures
        ok,
{
    let mut ok = true;
    let mut a: Vec<i32> = Vec::new();
    a.push(-0x80000000i32);
    a.push(0x7fffffffi32);
    ok = ok && sort_comp::<i32, S>(&mut a);
    let mut b: Vec<i32> = Vec::new();
    b.push(0x7fffffffi32);
    b.push(-0x80000000i32);
    ok = ok && sort_comp::<i32, S>(&mut b);
    let mut c: Vec<i32> = Vec::new();
    c.push(-0x80000000i32);
    c.push(-3);
    c.push(0x7fffffffi32);
    c.push(-0x80000000i32);
    c.push(5);
    ok = ok && sort_comp::<i32, S>(&mut c);
    let mut d: Vec<i32> = Vec::new();
    d.push(0x7fffffffi32);
    d.push(3);
    d.push(-0x80000000i32);
    d.push(5);
    d.push(-0x80000000i32);
    d.push(-3);
    d.push(60);
    d.push(200);
    d.push(50);
    d.push(7);
    d.push(10);
    ok = ok && sort_comp::<i32, S>(&mut d);
    let mut e: Vec<u64> = Vec::new();
    e.push(0u64);
    e.push(0xffffffffffffffffu64);
    ok = ok && sort_comp::<u64, S>(&mut e);
    let mut f: Vec<u64> = Vec::new();
    f.push(0xffffffffffffffffu64);
    f.push(3);
    f.push(0);
    f.push(5);
    f.push(0);
    f.push(0xfffffffffffffffcu64);
    f.push(60);
    f.push(200);
    f.push(50);
    f.push(7);
    f.push(10);
    ok = ok && sort_comp::<u64, S>(&mut f);
    let mut big = crate::patterns::random(200);
    big.push(0x7fffffffi32);
    big.push(-0x80000000i32);
    big.push(0x7fffffffi32);
    ok = ok && sort_comp::<i32, S>(&mut big);
    ok
}

} // verus!
