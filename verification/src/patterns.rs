//! Pattern generators: pure functions from a requested length to a test
//! sequence of that length.
//!
//! Deterministic shapes (ascending, descending, sawtooth, pipe organ) are
//! pinned down exactly by their contracts.  The pseudo-random shapes are
//! driven by a linear congruential generator from a fixed seed, so every
//! generator is a pure function of its arguments: the generated sequence is
//! stated exactly in terms of the generator's iterates.

use vstd::prelude::*;
use vstd::arithmetic::mul::lemma_mul_upper_bound;

verus! {

/// The fixed seed every pseudo-random pattern starts from.
pub const RANDOM_SEED: u64 = 0x9e3779b97f4a7c15;

/// One step of the linear congruential generator.
pub open spec fn lcg_next(s: u64) -> u64 {
    ((s * 6364136223846793005 + 1442695040888963407) % 0x10000000000000000) as u64
}

/// The generator's state after `k` steps from `s`.
pub open spec fn lcg_iter(s: u64, k: nat) -> u64
    decreases k,
{
    if k == 0 {
        s
    } else {
        lcg_next(lcg_iter(s, (k - 1) as nat))
    }
}

/// A generator state folded down to a word-sized test value.
pub open spec fn lcg_value(s: u64) -> i32 {
    ((((s >> 33) as u32) as i32) - 0x40000000) as i32
}

/// Advances a generator state by one step.
pub fn lcg_step(s: u64) -> (r: u64)
    ensures
        r == lcg_next(s),
{
    let wide: u128 = (s as u128) * 6364136223846793005u128 + 1442695040888963407u128;
    proof {
        lemma_mul_upper_bound(s as int, 0xffffffffffffffffu64 as int, 6364136223846793005int, 6364136223846793005int);
    }
    (wide % 0x10000000000000000u128) as u64
}

/// Derives the test value from a generator state.
pub fn lcg_fold(s: u64) -> (r: i32)
    ensures
        r == lcg_value(s),
{
    proof {
        assert(s >> 33 < 0x80000000u64) by (bit_vector);
    }
    ((s >> 33) as u32 as i32) - 0x40000000
}

/// The floor of the base-two logarithm, and zero for zero.
pub open spec fn ilog2_spec(n: nat) -> nat
    decreases n,
{
    if n <= 1 {
        0
    } else {
        1 + ilog2_spec(n / 2)
    }
}

/// Anything below a power of two has its logarithm below the exponent.
pub proof fn lemma_ilog2_below(n: nat, b: nat)
    requires
        1 <= b,
        n < vstd::arithmetic::power2::pow2(b),
    ensures
        ilog2_spec(n) < b,
    decreases n,
{
    if n > 1 {
        vstd::arithmetic::power2::lemma2_to64();
        vstd::arithmetic::power2::lemma_pow2_unfold(b);
        assert(b >= 2);
        assert(n / 2 < vstd::arithmetic::power2::pow2((b - 1) as nat));
        lemma_ilog2_below(n / 2, (b - 1) as nat);
    }
}

/// Computes the floor of the base-two logarithm.
pub fn ilog2(n: usize) -> (r: usize)
    ensures
        r == ilog2_spec(n as nat),
        r <= 64,
{
    proof {
        vstd::arithmetic::power2::lemma2_to64();
        vstd::arithmetic::power2::lemma2_to64_rest();
        lemma_ilog2_below(n as nat, 64);
    }
    let mut r: usize = 0;
    let mut x = n;
    while x > 1
        invariant
            ilog2_spec(n as nat) == r + ilog2_spec(x as nat),
            ilog2_spec(n as nat) < 64,
        decreases x,
    {
        x = x / 2;
        r = r + 1;
    }
    r
}

/// A pseudo-random sequence: the values are the folded iterates of the
/// generator, starting from the fixed seed.
pub fn random(len: usize) -> (v: Vec<i32>)
    ensures
        v@.len() == len,
        forall|k: int| 0 <= k < len ==> v@[k] == lcg_value(lcg_iter(RANDOM_SEED, (k + 1) as nat)),
{
    let mut v: Vec<i32> = Vec::new();
    let mut state = RANDOM_SEED;
    let mut i: usize = 0;
    while i < len
        invariant
            i <= len,
            v@.len() == i,
            state == lcg_iter(RANDOM_SEED, i as nat),
            forall|k: int|
                0 <= k < i ==> v@[k] == lcg_value(lcg_iter(RANDOM_SEED, (k + 1) as nat)),
        decreases len - i,
    {
        state = lcg_step(state);
        v.push(lcg_fold(state));
        i = i + 1;
    }
    v
}

/// The fixed seed the pseudo-random patterns use; always the same value, so
/// failures reproduce.
pub fn random_init_seed() -> (r: u64)
    ensures
        r == RANDOM_SEED,
{
    RANDOM_SEED
}

/// A pseudo-random value folded into the inclusive range `[lo, hi]`.
pub open spec fn uniform_value(s: u64, lo: i32, hi: i32) -> i32
    recommends
        lo <= hi,
{
    (lo as int + (s as int % (hi as int - lo as int + 1))) as i32
}

/// A pseudo-random sequence of values drawn from `[lo, hi]`.
pub fn random_uniform(len: usize, lo: i32, hi: i32) -> (v: Vec<i32>)
    requires
        lo <= hi,
    ensures
        v@.len() == len,
        forall|k: int| 0 <= k < len ==> lo <= #[trigger] v@[k] <= hi,
        forall|k: int|
            0 <= k < len ==> v@[k] == uniform_value(lcg_iter(RANDOM_SEED, (k + 1) as nat), lo, hi),
{
    let mut v: Vec<i32> = Vec::new();
    let mut state = RANDOM_SEED;
    let span: u64 = ((hi as i64) - (lo as i64) + 1) as u64;
    let mut i: usize = 0;
    while i < len
        invariant
            i <= len,
            lo <= hi,
            span == hi as int - lo as int + 1,
            v@.len() == i,
            state == lcg_iter(RANDOM_SEED, i as nat),
            forall|k: int| 0 <= k < i ==> lo <= #[trigger] v@[k] <= hi,
            forall|k: int|
                0 <= k < i ==> v@[k] == uniform_value(
                    lcg_iter(RANDOM_SEED, (k + 1) as nat),
                    lo,
                    hi,
                ),
        decreases len - i,
    {
        state = lcg_step(state);
        let offset = state % span;
        let val = ((lo as i64) + (offset as i64)) as i32;
        v.push(val);
        i = i + 1;
    }
    v
}

/// The all-equal sequence.
pub fn all_equal(len: usize) -> (v: Vec<i32>)
    ensures
        v@.len() == len,
        forall|k: int| 0 <= k < len ==> v@[k] == 0,
{
    let mut v: Vec<i32> = Vec::new();
    let mut i: usize = 0;
    while i < len
        invariant
            i <= len,
            v@.len() == i,
            forall|k: int| 0 <= k < i ==> v@[k] == 0,
        decreases len - i,
    {
        v.push(0);
        i = i + 1;
    }
    v
}

/// The strictly ascending sequence `0, 1, 2, …`.
pub fn ascending(len: usize) -> (v: Vec<i32>)
    requires
        len <= 0x7fffffff,
    ensures
        v@.len() == len,
        forall|k: int| 0 <= k < len ==> v@[k] == k,
{
    let mut v: Vec<i32> = Vec::new();
    let mut i: usize = 0;
    while i < len
        invariant
            i <= len <= 0x7fffffff,
            v@.len() == i,
            forall|k: int| 0 <= k < i ==> v@[k] == k,
        decreases len - i,
    {
        v.push(i as i32);
        i = i + 1;
    }
    v
}

/// The strictly descending sequence `len − 1, …, 1, 0`.
pub fn descending(len: usize) -> (v: Vec<i32>)
    requires
        len <= 0x7fffffff,
    ensures
        v@.len() == len,
        forall|k: int| 0 <= k < len ==> v@[k] == len - 1 - k,
{
    let mut v: Vec<i32> = Vec::new();
    let mut i: usize = 0;
    while i < len
        invariant
            i <= len <= 0x7fffffff,
            v@.len() == i,
            forall|k: int| 0 <= k < i ==> v@[k] == len - 1 - k,
        decreases len - i,
    {
        v.push((len - 1 - i) as i32);
        i = i + 1;
    }
    v
}

/// The tooth length used by the sawtooth patterns: the requested length
/// split into the requested number of teeth, and at least one.
pub open spec fn tooth_of(len: usize, saw_count: usize) -> int {
    let teeth = if saw_count == 0 {
        1
    } else {
        saw_count as int
    };
    let tooth = len as int / teeth;
    if tooth < 1 {
        1
    } else {
        tooth
    }
}

/// Computes the tooth length.
fn tooth_len(len: usize, saw_count: usize) -> (t: usize)
    ensures
        t == tooth_of(len, saw_count),
        1 <= t,
{
    let teeth = if saw_count == 0 {
        1
    } else {
        saw_count
    };
    let tooth = len / teeth;
    if tooth < 1 {
        1
    } else {
        tooth
    }
}

/// Repeated ascending teeth: `0, 1, …, t−1, 0, 1, …`.
pub fn saw_ascending(len: usize, saw_count: usize) -> (v: Vec<i32>)
    requires
        len <= 0x7fffffff,
    ensures
        v@.len() == len,
        forall|k: int| 0 <= k < len ==> v@[k] == k % tooth_of(len, saw_count),
{
    let tooth = tooth_len(len, saw_count);
    let mut v: Vec<i32> = Vec::new();
    let mut i: usize = 0;
    while i < len
        invariant
            i <= len <= 0x7fffffff,
            v@.len() == i,
            1 <= tooth == tooth_of(len, saw_count),
            forall|k: int| 0 <= k < i ==> v@[k] == k % tooth as int,
        decreases len - i,
    {
        v.push((i % tooth) as i32);
        i = i + 1;
    }
    v
}

/// Repeated descending teeth: `t−1, …, 1, 0, t−1, …`.
pub fn saw_descending(len: usize, saw_count: usize) -> (v: Vec<i32>)
    requires
        len <= 0x7fffffff,
    ensures
        v@.len() == len,
        forall|k: int|
            0 <= k < len ==> v@[k] == tooth_of(len, saw_count) - 1 - (k % tooth_of(len, saw_count)),
{
    let tooth = tooth_len(len, saw_count);
    let mut v: Vec<i32> = Vec::new();
    let mut i: usize = 0;
    while i < len
        invariant
            i <= len <= 0x7fffffff,
            v@.len() == i,
            1 <= tooth == tooth_of(len, saw_count),
            forall|k: int| 0 <= k < i ==> v@[k] == tooth as int - 1 - (k % tooth as int),
        decreases len - i,
    {
        v.push((tooth - 1 - (i % tooth)) as i32);
        i = i + 1;
    }
    v
}

/// Alternating ascending and descending teeth.
pub fn saw_mixed(len: usize, saw_count: usize) -> (v: Vec<i32>)
    requires
        len <= 0x7fffffff,
    ensures
        v@.len() == len,
        forall|k: int|
            0 <= k < len ==> v@[k] == {
                let t = tooth_of(len, saw_count);
                if (k / t) % 2 == 0 {
                    k % t
                } else {
                    t - 1 - (k % t)
                }
            },
{
    let tooth = tooth_len(len, saw_count);
    let mut v: Vec<i32> = Vec::new();
    let mut i: usize = 0;
    while i < len
        invariant
            i <= len <= 0x7fffffff,
            v@.len() == i,
            1 <= tooth == tooth_of(len, saw_count),
            forall|k: int|
                0 <= k < i ==> v@[k] == (if (k / tooth as int) % 2 == 0 {
                    k % tooth as int
                } else {
                    tooth as int - 1 - (k % tooth as int)
                }),
        decreases len - i,
    {
        let phase = (i / tooth) % 2;
        let val = if phase == 0 {
            (i % tooth) as i32
        } else {
            (tooth - 1 - (i % tooth)) as i32
        };
        v.push(val);
        i = i + 1;
    }
    v
}

/// The length of the next tooth: drawn from the generator state, within
/// `[lo, hi]`.
pub open spec fn tooth_draw(state: u64, lo: usize, hi: usize) -> int
    recommends
        lo <= hi,
{
    lo + state as int % (hi as int - lo as int + 1)
}

/// One tooth, cut off after `t` elements: ascending `0, 1, …` or
/// descending from `tooth − 1`.
pub open spec fn tooth_seq(ascend: bool, tooth: int, t: nat) -> Seq<i32> {
    Seq::new(
        t,
        |j: int|
            (if ascend {
                j
            } else {
                tooth - 1 - j
            }) as i32,
    )
}

/// The mixed-range sawtooth: teeth of pseudo-random lengths, alternately
/// ascending and descending, until `remaining` elements are produced.
pub open spec fn saw_mixed_range_seq(
    state: u64,
    ascend: bool,
    remaining: nat,
    lo: usize,
    hi: usize,
) -> Seq<i32>
    decreases remaining,
{
    if remaining == 0 {
        Seq::empty()
    } else {
        let st = lcg_next(state);
        let tooth = tooth_draw(st, lo, hi);
        let t = if 1 <= tooth && tooth <= remaining {
            tooth as nat
        } else {
            remaining
        };
        tooth_seq(ascend, tooth, t) + saw_mixed_range_seq(
            st,
            !ascend,
            (remaining - t) as nat,
            lo,
            hi,
        )
    }
}

/// Alternating teeth whose lengths are drawn pseudo-randomly from
/// `[lo, hi]`: exactly the mixed-range sawtooth of the fixed seed.
pub fn saw_mixed_range(len: usize, lo: usize, hi: usize) -> (v: Vec<i32>)
    requires
        1 <= lo <= hi <= 0x7fffffff,
        len <= 0x7fffffff,
    ensures
        v@.len() == len,
        forall|k: int| 0 <= k < len ==> 0 <= #[trigger] v@[k] <= hi,
        v@ == saw_mixed_range_seq(RANDOM_SEED, true, len as nat, lo, hi),
{
    let mut v: Vec<i32> = Vec::new();
    let mut state = RANDOM_SEED;
    let span: u64 = ((hi - lo) as u64) + 1;
    let mut ascending_tooth = true;
    while v.len() < len
        invariant
            v@.len() <= len,
            1 <= lo <= hi <= 0x7fffffff,
            span == hi as int - lo as int + 1,
            forall|k: int| 0 <= k < v@.len() ==> 0 <= #[trigger] v@[k] <= hi,
            saw_mixed_range_seq(RANDOM_SEED, true, len as nat, lo, hi) == v@
                + saw_mixed_range_seq(
                state,
                ascending_tooth,
                (len - v@.len()) as nat,
                lo,
                hi,
            ),
        decreases len - v@.len(),
    {
        let ghost rem = (len - v@.len()) as nat;
        let ghost v_outer = v@;
        let ghost asc = ascending_tooth;
        let ghost st_pre = state;
        state = lcg_step(state);
        let tooth = lo + ((state % span) as usize);
        proof {
            assert(tooth == tooth_draw(state, lo, hi));
        }
        let ghost t_spec: nat = if 1 <= tooth as int && tooth as int <= rem {
            tooth as nat
        } else {
            rem
        };
        let len_before = v.len();
        let mut j: usize = 0;
        while j < tooth && v.len() < len
            invariant
                len_before < len,
                v@.len() == len_before + j,
                v@.len() <= len,
                j <= tooth <= hi <= 0x7fffffff,
                1 <= lo <= hi,
                v@.subrange(0, len_before as int) == v_outer,
                v_outer.len() == len_before,
                ascending_tooth == asc,
                v@.subrange(len_before as int, v@.len() as int) =~= tooth_seq(
                    asc,
                    tooth as int,
                    (v@.len() - len_before) as nat,
                ),
                forall|k: int| 0 <= k < v@.len() ==> 0 <= #[trigger] v@[k] <= hi,
            decreases len - v@.len() + (tooth - j),
        {
            let val = if ascending_tooth {
                j as i32
            } else {
                (tooth - 1 - j) as i32
            };
            let ghost v_pre = v@;
            v.push(val);
            proof {
                assert(v@.subrange(0, len_before as int) =~= v_outer);
                let cnt = (v@.len() - len_before) as nat;
                assert(v@.subrange(len_before as int, v@.len() as int) =~= tooth_seq(
                    asc,
                    tooth as int,
                    cnt,
                )) by {
                    assert forall|p: int| 0 <= p < cnt implies v@.subrange(
                        len_before as int,
                        v@.len() as int,
                    )[p] == tooth_seq(asc, tooth as int, cnt)[p] by {
                        if p < j {
                            assert(v@[len_before + p] == v_pre[len_before + p]);
                            assert(v_pre.subrange(len_before as int, v_pre.len() as int)[p]
                                == tooth_seq(asc, tooth as int, j as nat)[p]);
                        } else {
                            assert(v@[len_before + p] == val);
                        }
                    }
                }
            }
            j = j + 1;
        }
        proof {
            // The inner loop cut the tooth exactly where the model does.
            assert(v@.len() - len_before == t_spec);
            assert(v@ =~= v_outer + tooth_seq(asc, tooth as int, t_spec));
            assert(saw_mixed_range_seq(st_pre, asc, rem, lo, hi) == tooth_seq(
                asc,
                tooth as int,
                t_spec,
            ) + saw_mixed_range_seq(state, !asc, (rem - t_spec) as nat, lo, hi)) by {
                assert(rem > 0);
                assert(state == lcg_next(st_pre));
                assert(tooth == tooth_draw(state, lo, hi));
            }
            assert((v_outer + (tooth_seq(asc, tooth as int, t_spec) + saw_mixed_range_seq(
                state,
                !asc,
                (rem - t_spec) as nat,
                lo,
                hi,
            ))) =~= (v@ + saw_mixed_range_seq(state, !asc, (rem - t_spec) as nat, lo, hi)));
        }
        ascending_tooth = !ascending_tooth;
    }
    proof {
        assert(saw_mixed_range_seq(RANDOM_SEED, true, len as nat, lo, hi) =~= v@);
    }
    v
}

/// Ascending then descending: `0, 1, …, h−1, h−1, …, 1, 0`.
pub fn pipe_organ(len: usize) -> (v: Vec<i32>)
    requires
        len <= 0x7fffffff,
    ensures
        v@.len() == len,
        forall|k: int|
            0 <= k < len ==> v@[k] == (if k < len / 2 {
                k
            } else {
                len - 1 - k
            }),
{
    let half = len / 2;
    let mut v: Vec<i32> = Vec::new();
    let mut i: usize = 0;
    while i < len
        invariant
            i <= len <= 0x7fffffff,
            half == len / 2,
            v@.len() == i,
            forall|k: int|
                0 <= k < i ==> v@[k] == (if k < len / 2 {
                    k
                } else {
                    len - 1 - k
                }),
        decreases len - i,
    {
        let val = if i < half {
            i as i32
        } else {
            (len - 1 - i) as i32
        };
        v.push(val);
        i = i + 1;
    }
    v
}

/// A mostly sorted sequence: the first `percent` hundredths of it ascend,
/// the rest holds the folded iterates of the generator.
pub fn random_sorted(len: usize, percent: usize) -> (v: Vec<i32>)
    requires
        len <= 0x7fffffff,
        percent <= 100,
    ensures
        v@.len() == len,
        forall|k: int| 0 <= k < len * percent / 100 ==> v@[k] == k,
        forall|k: int|
            len * percent / 100 <= k < len ==> v@[k] == lcg_value(
                lcg_iter(RANDOM_SEED, (k - len * percent / 100 + 1) as nat),
            ),
{
    proof {
        lemma_mul_upper_bound(len as int, 0x7fffffffint, percent as int, 100int);
        assert(len * percent / 100 <= len) by (nonlinear_arith)
            requires
                percent <= 100,
        ;
    }
    let sorted_len = ((len as u64 * percent as u64) / 100) as usize;
    let mut v: Vec<i32> = Vec::new();
    let mut i: usize = 0;
    while i < sorted_len
        invariant
            i <= sorted_len <= len <= 0x7fffffff,
            sorted_len == len * percent / 100,
            v@.len() == i,
            forall|k: int| 0 <= k < i ==> v@[k] == k,
        decreases sorted_len - i,
    {
        v.push(i as i32);
        i = i + 1;
    }
    let mut state = RANDOM_SEED;
    while i < len
        invariant
            sorted_len <= i <= len,
            v@.len() == i,
            sorted_len == len * percent / 100,
            state == lcg_iter(RANDOM_SEED, (i - sorted_len) as nat),
            forall|k: int| 0 <= k < sorted_len ==> v@[k] == k,
            forall|k: int|
                sorted_len <= k < i ==> v@[k] == lcg_value(
                    lcg_iter(RANDOM_SEED, (k - sorted_len + 1) as nat),
                ),
        decreases len - i,
    {
        state = lcg_step(state);
        v.push(lcg_fold(state));
        i = i + 1;
    }
    v
}

/// The power a draw is raised to for the Zipf skew, capped so the
/// computation stays within bounds: `u^whole`, saturated at `2^96`.
pub open spec fn zipf_pow(u: nat, whole: nat) -> nat
    decreases whole,
{
    if whole == 0 {
        1
    } else {
        let p = zipf_pow(u, (whole - 1) as nat) * u;
        if p > 0x1000000000000000000000000 {
            0x1000000000000000000000000
        } else {
            p
        }
    }
}

/// The rank one generator state folds to under the Zipf skew: a uniform
/// draw in `[1, 2^30]` is raised to the skew — the whole part by the capped
/// power, the fractional part as a power of two read off the draw's bit
/// length — and the rank is an inverse of that power, folded into
/// `[0, 1024)`.
pub open spec fn zipf_rank(state: u64, skew_hundredths: u64) -> i32 {
    let u = (state >> 34) as nat + 1;
    let whole = (skew_hundredths / 100) as nat;
    let frac = (skew_hundredths % 100) as int;
    let p = zipf_pow(u, whole);
    let bits = ilog2_spec(u);
    let extra = (frac * bits) / 100;
    let p2 = p * vstd::arithmetic::power2::pow2(extra as nat);
    let denom: int = if p2 == 0 {
        1
    } else {
        p2 as int
    };
    (((0x1000000000000000000000000000000int / denom) % 1024) as i32)
}

/// A Zipf-like skewed sequence: small ranks occur far more often than large
/// ones.  The skew is given in hundredths (100 is the harmonic case); each
/// element is exactly the rank its generator state folds to.
pub fn random_zipf(len: usize, skew_hundredths: u64) -> (v: Vec<i32>)
    requires
        100 <= skew_hundredths <= 300,
    ensures
        v@.len() == len,
        forall|k: int| 0 <= k < len ==> 0 <= #[trigger] v@[k] < 1024,
        forall|k: int|
            0 <= k < len ==> v@[k] == zipf_rank(
                lcg_iter(RANDOM_SEED, (k + 1) as nat),
                skew_hundredths,
            ),
{
    let mut v: Vec<i32> = Vec::new();
    let mut state = RANDOM_SEED;
    let whole = skew_hundredths / 100;
    let frac = skew_hundredths % 100;
    let mut i: usize = 0;
    while i < len
        invariant
            i <= len,
            whole == skew_hundredths / 100 <= 3,
            frac == skew_hundredths % 100 < 100,
            v@.len() == i,
            state == lcg_iter(RANDOM_SEED, i as nat),
            forall|k: int| 0 <= k < i ==> 0 <= #[trigger] v@[k] < 1024,
            forall|k: int|
                0 <= k < i ==> v@[k] == zipf_rank(
                    lcg_iter(RANDOM_SEED, (k + 1) as nat),
                    skew_hundredths,
                ),
        decreases len - i,
    {
        state = lcg_step(state);
        // A uniform draw in [1, 2^30].
        proof {
            assert(state >> 34 < 0x40000000u64) by (bit_vector);
        }
        let u: u64 = (state >> 34) + 1;
        // The whole part of the skew: the capped power of the draw.
        let mut p: u128 = 1;
        let mut w: u64 = 0;
        while w < whole
            invariant
                w <= whole,
                1 <= u <= 0x40000000,
                p == zipf_pow(u as nat, w as nat),
                p <= 0x1000000000000000000000000u128,
            decreases whole - w,
        {
            proof {
                lemma_mul_upper_bound(
                    p as int,
                    0x1000000000000000000000000u128 as int,
                    u as int,
                    0x40000000int,
                );
            }
            p = p * (u as u128);
            if p > 0x1000000000000000000000000u128 {
                p = 0x1000000000000000000000000u128;
            }
            w = w + 1;
        }
        // The fractional part becomes a power of two read off the draw's
        // bit length.
        let bits = ilog2(u as usize) as u64;
        proof {
            vstd::arithmetic::power2::lemma2_to64();
            lemma_ilog2_below(u as nat, 31);
            assert(frac * bits <= 99 * 30) by (nonlinear_arith)
                requires
                    frac < 100,
                    bits <= 30,
            ;
        }
        let extra = (frac * bits) / 100;
        let mut factor: u128 = 1;
        let mut e: u64 = 0;
        while e < extra
            invariant
                e <= extra <= 29,
                factor == vstd::arithmetic::power2::pow2(e as nat),
                factor <= 0x20000000u128,
            decreases extra - e,
        {
            proof {
                vstd::arithmetic::power2::lemma_pow2_unfold((e + 1) as nat);
                vstd::arithmetic::power2::lemma2_to64();
                if e + 1 <= 29 {
                    vstd::arithmetic::power2::lemma_pow2_strictly_increases(
                        (e + 1) as nat,
                        30,
                    );
                }
            }
            factor = factor * 2;
            e = e + 1;
        }
        proof {
            lemma_mul_upper_bound(
                p as int,
                0x1000000000000000000000000u128 as int,
                factor as int,
                0x20000000int,
            );
        }
        let p2: u128 = p * factor;
        let denom = if p2 == 0 {
            1u128
        } else {
            p2
        };
        let rank = ((0x1000000000000000000000000000000u128 / denom) % 1024) as u64;
        v.push(rank as i32);
        proof {
            assert(rank as i32 == zipf_rank(state, skew_hundredths));
        }
        i = i + 1;
    }
    v
}

} // verus!
