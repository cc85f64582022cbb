//! Risk statistics over samples of binary64 bit patterns.
//!
//! The sample — usually the terminal prices of a simulation — is held as
//! binary64 bit patterns.  Ordering, sorting, minimum, maximum and the
//! nearest-rank percentiles are decided here exactly as binary64
//! comparison and arithmetic decide them, and are verified; the mean and
//! the standard deviation need transcendental-free but rounding-laden
//! float arithmetic the crate does not perform, so `calculate_summary_stats`
//! takes them as arguments and pins everything else down.
//!
//! Every statistic fails explicitly on an empty sample.
use vstd::prelude::*;

use vstd::arithmetic::div_mod::*;
use vstd::arithmetic::mul::*;
use vstd::arithmetic::power2::*;

use crate::fbits;
use crate::path;
use crate::round;

verus! {

/// Why a statistic could not be computed.
#[derive(Clone, Copy, Debug, PartialEq, Eq, Structural)]
pub enum StatsError {
    EmptySample,
}

/// The bit pattern of the probability 0.05.
pub const P05_BITS: u64 = 0x3FA9_9999_9999_999A;

/// The bit pattern of the probability 0.25.
pub const P25_BITS: u64 = 0x3FD0_0000_0000_0000;

/// The bit pattern of the probability 0.5.
pub const HALF_BITS: u64 = 0x3FE0_0000_0000_0000;

/// The bit pattern of the probability 0.75.
pub const P75_BITS: u64 = 0x3FE8_0000_0000_0000;

/// The bit pattern of the probability 0.95.
pub const P95_BITS: u64 = 0x3FEE_6666_6666_6666;

/// The bit pattern of the probability 1.0.
pub const ONE_BITS: u64 = 0x3FF0_0000_0000_0000;

/// The largest sample a percentile rank is computed over: with more than
/// 2^53 elements the rank would leave the integer-exact binary64 range
/// (and the sample could not be held in memory).
pub const MAX_SAMPLE: u64 = 0x20_0000_0000_0000;

/// No element of the sample encodes a NaN.
pub open spec fn no_nans(s: Seq<u64>) -> bool {
    forall|i: int| 0 <= i < s.len() ==> !fbits::is_nan(#[trigger] s[i])
}

/// The sample is sorted ascending in the binary64 order.
pub open spec fn sorted_by_value(s: Seq<u64>) -> bool {
    forall|i: int, j: int| 0 <= i < j < s.len() ==> fbits::rank(s[i]) <= fbits::rank(s[j])
}

/// `p` encodes a probability: a value between 0.0 and 1.0 inclusive.
pub open spec fn unit_range(p: u64) -> bool {
    0 <= fbits::rank(p) <= fbits::rank(ONE_BITS)
}

/// The nearest-rank index a probability selects in a sorted sample of
/// `n` elements: `p * (n - 1)` evaluated in binary64 and truncated.
pub open spec fn spec_percentile_index(p: u64, n: nat) -> int {
    if n <= 1 {
        0
    } else {
        round::floor_after_round(fbits::significand(p) * (n - 1), fbits::scale(p))
    }
}

/// Swapping two positions of a sequence leaves its multiset unchanged.
proof fn lemma_swap_preserves_multiset(s: Seq<u64>, i: int, j: int)
    requires
        0 <= i < j < s.len(),
    ensures
        s.update(i, s[j]).update(j, s[i]).to_multiset() == s.to_multiset(),
{
    broadcast use vstd::seq_lib::group_to_multiset_ensures;

    let s1 = s.update(i, s[j]);
    let s2 = s1.update(j, s[i]);
    vstd::seq_lib::to_multiset_update(s, i, s[j]);
    vstd::seq_lib::to_multiset_update(s1, j, s[i]);
    assert(s1[j] == s[j]);
    assert(s.contains(s[i]));
    assert(s.to_multiset().count(s[i]) > 0);
    assert(s2.to_multiset() =~= s.to_multiset());
}

/// The two neighbours at `j - 1` and `j` are out of order.
fn out_of_order(v: &Vec<u64>, j: usize) -> (r: bool)
    requires
        1 <= j < v@.len(),
        no_nans(v@),
    ensures
        r == (fbits::rank(v@[j - 1]) > fbits::rank(v@[j as int])),
{
    !fbits::f64_bits_le(v[j - 1], v[j])
}

/// Sorts the sample ascending in the binary64 order, keeping exactly the
/// same elements.
pub fn sort_floats(v: &mut Vec<u64>)
    requires
        no_nans(old(v)@),
    ensures
        sorted_by_value(final(v)@),
        final(v)@.to_multiset() == old(v)@.to_multiset(),
        final(v)@.len() == old(v)@.len(),
        no_nans(final(v)@),
{
    let n = v.len();
    if n <= 1 {
        return ;
    }
    let mut i: usize = 1;
    while i < n
        invariant
            1 <= i <= n,
            n == v@.len(),
            v@.to_multiset() == old(v)@.to_multiset(),
            no_nans(v@),
            forall|a: int, b: int| 0 <= a < b < i ==> fbits::rank(v@[a]) <= fbits::rank(v@[b]),
        decreases n - i,
    {
        let mut j: usize = i;
        while j > 0 && out_of_order(v, j)
            invariant
                0 <= j <= i < n,
                n == v@.len(),
                v@.to_multiset() == old(v)@.to_multiset(),
                no_nans(v@),
                forall|a: int, b: int|
                    0 <= a < b <= i && b != j ==> fbits::rank(v@[a]) <= fbits::rank(v@[b]),
            decreases j,
        {
            let ghost s0 = v@;
            let x = v[j - 1];
            let y = v[j];
            v.set(j - 1, y);
            v.set(j, x);
            proof {
                lemma_swap_preserves_multiset(s0, j - 1, j as int);
                assert(v@ == s0.update(j - 1, s0[j as int]).update(j as int, s0[j - 1]));
                assert forall|a: int, b: int|
                    0 <= a < b <= i && b != j - 1 implies fbits::rank(v@[a]) <= fbits::rank(
                    v@[b],
                ) by {
                    if b == j {
                        if a < j - 1 {
                            assert(s0[a] == v@[a]);
                        }
                    }
                }
            }
            j = j - 1;
        }
        proof {
            assert forall|a: int, b: int| 0 <= a < b <= i implies fbits::rank(v@[a])
                <= fbits::rank(v@[b]) by {
                if b == j && j > 0 && a < j - 1 {
                    assert(fbits::rank(v@[a]) <= fbits::rank(v@[j - 1]));
                }
            }
        }
        i = i + 1;
    }
}

/// The smallest element of the sample, in the binary64 order; fails on
/// an empty sample.  Ties keep the earliest element, as a strict
/// running-minimum scan does.
pub fn find_min(values: &Vec<u64>) -> (r: Result<u64, StatsError>)
    requires
        no_nans(values@),
    ensures
        r is Ok <==> values@.len() >= 1,
        values@.len() == 0 ==> r == Err::<u64, StatsError>(StatsError::EmptySample),
        r is Ok ==> values@.contains(r->Ok_0),
        r is Ok ==> forall|k: int|
            0 <= k < values@.len() ==> fbits::rank(r->Ok_0) <= fbits::rank(#[trigger] values@[k]),
{
    if values.len() == 0 {
        return Err(StatsError::EmptySample);
    }
    let mut best: u64 = values[0];
    let mut idx: usize = 1;
    while idx < values.len()
        invariant
            no_nans(values@),
            1 <= idx <= values@.len(),
            values@.contains(best),
            !fbits::is_nan(best),
            forall|k: int| 0 <= k < idx ==> fbits::rank(best) <= fbits::rank(#[trigger] values@[k]),
        decreases values@.len() - idx,
    {
        if fbits::f64_bits_lt(values[idx], best) {
            best = values[idx];
        }
        idx = idx + 1;
    }
    Ok(best)
}

/// The largest element of the sample, in the binary64 order; fails on an
/// empty sample.  Ties keep the earliest element, as a strict
/// running-maximum scan does.
pub fn find_max(values: &Vec<u64>) -> (r: Result<u64, StatsError>)
    requires
        no_nans(values@),
    ensures
        r is Ok <==> values@.len() >= 1,
        values@.len() == 0 ==> r == Err::<u64, StatsError>(StatsError::EmptySample),
        r is Ok ==> values@.contains(r->Ok_0),
        r is Ok ==> forall|k: int|
            0 <= k < values@.len() ==> fbits::rank(#[trigger] values@[k]) <= fbits::rank(r->Ok_0),
{
    if values.len() == 0 {
        return Err(StatsError::EmptySample);
    }
    let mut best: u64 = values[0];
    let mut idx: usize = 1;
    while idx < values.len()
        invariant
            no_nans(values@),
            1 <= idx <= values@.len(),
            values@.contains(best),
            !fbits::is_nan(best),
            forall|k: int| 0 <= k < idx ==> fbits::rank(#[trigger] values@[k]) <= fbits::rank(best),
        decreases values@.len() - idx,
    {
        if fbits::f64_bits_lt(best, values[idx]) {
            best = values[idx];
        }
        idx = idx + 1;
    }
    Ok(best)
}

/// A probability's significand never exceeds its scale's power of two,
/// and its exponent field stays in the unit range.
proof fn lemma_unit_significand(p: u64)
    requires
        unit_range(p),
    ensures
        fbits::significand(p) <= pow2(fbits::scale(p)),
        fbits::significand(p) == pow2(fbits::scale(p)) <==> p == ONE_BITS,
        fbits::exp_field(p) <= 1023,
        fbits::scale(p) >= 52,
{
    round::lemma_pow2_concrete();
    lemma2_to64();
    lemma2_to64_rest();
    if p >= fbits::SIGN_LIMIT {
        // Only the negative zero reaches here: its rank must be zero.
        assert(p == fbits::SIGN_LIMIT);
        assert(fbits::exp_field(fbits::SIGN_LIMIT) == 0);
        assert(fbits::frac_field(fbits::SIGN_LIMIT) == 0);
        lemma_pow2_pos(1074);
    } else {
        assert(p <= ONE_BITS);
        lemma_div_is_ordered(p as int, ONE_BITS as int, fbits::FRAC_LIMIT as int);
        assert(ONE_BITS / fbits::FRAC_LIMIT == 0x3ff);
        lemma_small_mod((p / fbits::FRAC_LIMIT) as nat, 0x800);
        let ef = fbits::exp_field(p);
        let fr = fbits::frac_field(p);
        lemma_fundamental_div_mod(p as int, fbits::FRAC_LIMIT as int);
        if ef == 0 {
            lemma_pow2_strictly_increases(52, 1074);
        } else if ef < 1023 {
            lemma_pow2_strictly_increases(52, (1075 - ef) as nat);
            round::lemma_pow2_increases(53, (1075 - ef) as nat);
            if fbits::significand(p) == pow2(fbits::scale(p)) {
                assert(fr + fbits::FRAC_LIMIT >= pow2(53));
                assert(false);
            }
        } else {
            assert(p / fbits::FRAC_LIMIT == 0x3ff);
            assert(fr == 0);
        }
    }
}

/// Ordering two probabilities by their patterns orders their exact
/// values, compared by cross-multiplication of significands and scales.
proof fn lemma_rank_orders_values(p1: u64, p2: u64)
    requires
        unit_range(p1),
        unit_range(p2),
        fbits::rank(p1) <= fbits::rank(p2),
    ensures
        fbits::significand(p1) * pow2(fbits::scale(p2)) <= fbits::significand(p2) * pow2(
            fbits::scale(p1),
        ),
{
    lemma_unit_significand(p1);
    lemma_unit_significand(p2);
    round::lemma_pow2_concrete();
    let sig1 = fbits::significand(p1);
    let sig2 = fbits::significand(p2);
    let s1 = fbits::scale(p1);
    let s2 = fbits::scale(p2);
    lemma_pow2_pos(s1);
    lemma_pow2_pos(s2);
    if p1 >= fbits::SIGN_LIMIT || p1 == 0 {
        // p1 encodes a zero: its significand is zero.
        assert(sig1 == 0);
        lemma_mul_nonnegative(sig2, pow2(s1) as int);
        assert(sig1 * pow2(s2) == 0) by (nonlinear_arith)
            requires
                sig1 == 0,
        ;
    } else if p2 >= fbits::SIGN_LIMIT {
        // p2 is the negative zero, so rank(p1) == 0 with p1 positive:
        // impossible, since a non-zero pattern below the sign bit has
        // positive rank.
        assert(p2 == fbits::SIGN_LIMIT);
        assert(fbits::rank(p1) == p1);
        assert(false);
    } else {
        assert(p1 <= p2);
        let e1 = fbits::exp_field(p1);
        let e2 = fbits::exp_field(p2);
        lemma_div_is_ordered(p1 as int, p2 as int, fbits::FRAC_LIMIT as int);
        lemma_small_mod((p1 / fbits::FRAC_LIMIT) as nat, 0x800);
        lemma_small_mod((p2 / fbits::FRAC_LIMIT) as nat, 0x800);
        assert(e1 <= e2);
        if e1 == e2 {
            assert(s1 == s2);
            lemma_fundamental_div_mod(p1 as int, fbits::FRAC_LIMIT as int);
            lemma_fundamental_div_mod(p2 as int, fbits::FRAC_LIMIT as int);
            assert(fbits::frac_field(p1) <= fbits::frac_field(p2));
            lemma_mul_inequality(sig1, sig2, pow2(s1) as int);
        } else {
            // e1 < e2, so p2 is normal and at least one binade above p1.
            let lo: nat = if e1 == 0 {
                52nat
            } else {
                53nat
            };
            assert(sig1 < pow2(lo));
            assert(sig2 >= pow2(52));
            assert(lo + s2 <= 52 + s1) by {
                assert(e2 >= e1 + 1);
            }
            lemma_pow2_adds(lo, s2);
            lemma_pow2_adds(52, s1);
            round::lemma_pow2_increases(lo + s2, 52 + s1);
            assert(sig1 * pow2(s2) < pow2(lo) * pow2(s2)) by (nonlinear_arith)
                requires
                    sig1 < pow2(lo),
                    pow2(s2) > 0,
            ;
            assert(pow2(52) * pow2(s1) <= sig2 * pow2(s1)) by (nonlinear_arith)
                requires
                    sig2 >= pow2(52),
                    pow2(s1) > 0,
            ;
        }
    }
}

/// The nearest-rank index stays within the sample.
pub proof fn lemma_percentile_index_in_range(p: u64, n: nat)
    requires
        unit_range(p),
        1 <= n <= MAX_SAMPLE,
    ensures
        0 <= spec_percentile_index(p, n) < n,
{
    if n > 1 {
        lemma_unit_significand(p);
        round::lemma_pow2_concrete();
        let sig = fbits::significand(p);
        let sc = fbits::scale(p);
        let q = (n - 1) as int;
        let num = sig * q;
        let d = pow2(sc) as int;
        lemma_pow2_pos(sc);
        lemma_mul_nonnegative(sig, q);
        round::lemma_far_range(num, sc);
        if sig == pow2(sc) {
            lemma_div_multiples_vanish(q, d);
            lemma_mod_multiples_basic(q, d);
            lemma_mul_is_commutative(sig, q);
        } else {
            assert(num < d * q) by (nonlinear_arith)
                requires
                    sig < d,
                    q >= 1,
                    num == sig * q,
            ;
            lemma_multiply_divide_lt(num, d, q);
        }
    }
}

/// The nearest-rank index is monotone in the probability.
pub proof fn lemma_percentile_index_monotonic(p1: u64, p2: u64, n: nat)
    requires
        unit_range(p1),
        unit_range(p2),
        fbits::rank(p1) <= fbits::rank(p2),
        1 <= n <= MAX_SAMPLE,
    ensures
        spec_percentile_index(p1, n) <= spec_percentile_index(p2, n),
{
    if n > 1 {
        lemma_unit_significand(p1);
        lemma_unit_significand(p2);
        lemma_rank_orders_values(p1, p2);
        round::lemma_pow2_concrete();
        let sig1 = fbits::significand(p1);
        let sig2 = fbits::significand(p2);
        let s1 = fbits::scale(p1);
        let s2 = fbits::scale(p2);
        let q = (n - 1) as int;
        lemma_pow2_pos(s1);
        lemma_pow2_pos(s2);
        lemma_mul_nonnegative(sig1, q);
        lemma_mul_nonnegative(sig2, q);
        lemma_pow2_adds(s1, 53);
        lemma_pow2_adds(s2, 53);
        assert(sig1 * q < pow2(s1) * pow2(53)) by (nonlinear_arith)
            requires
                0 <= sig1 <= pow2(s1),
                0 < pow2(s1),
                0 <= q < 0x20_0000_0000_0000,
                pow2(53) == 0x20_0000_0000_0000u64,
        ;
        assert(sig2 * q < pow2(s2) * pow2(53)) by (nonlinear_arith)
            requires
                0 <= sig2 <= pow2(s2),
                0 < pow2(s2),
                0 <= q < 0x20_0000_0000_0000,
                pow2(53) == 0x20_0000_0000_0000u64,
        ;
        assert((sig1 * q) * pow2(s2) <= (sig2 * q) * pow2(s1)) by (nonlinear_arith)
            requires
                sig1 * pow2(s2) <= sig2 * pow2(s1),
                q >= 0,
        ;
        round::lemma_far_monotonic(sig1 * q, s1, sig2 * q, s2);
    }
}

/// Two ascending arrangements of the same multiset carry equal values,
/// position by position, in the binary64 order.
pub proof fn lemma_sorted_ranks_agree(s1: Seq<u64>, s2: Seq<u64>)
    requires
        sorted_by_value(s1),
        sorted_by_value(s2),
        s1.to_multiset() == s2.to_multiset(),
    ensures
        s1.len() == s2.len(),
        forall|k: int| 0 <= k < s1.len() ==> fbits::rank(s1[k]) == fbits::rank(s2[k]),
    decreases s1.len(),
{
    broadcast use vstd::seq_lib::group_to_multiset_ensures;

    assert(s1.len() == s1.to_multiset().len());
    assert(s2.len() == s2.to_multiset().len());
    if s1.len() > 0 {
        let x = s1[0];
        assert(s1.contains(x));
        assert(s2.to_multiset().count(x) > 0);
        assert(s2.contains(x));
        let j = choose|j: int| 0 <= j < s2.len() && s2[j] == x;
        let y = s2[0];
        assert(s2.contains(y));
        assert(s1.to_multiset().count(y) > 0);
        assert(s1.contains(y));
        let m = choose|m: int| 0 <= m < s1.len() && s1[m] == y;
        // Both heads hold the minimum: their ranks agree, and everything
        // in s2 up to position j shares that rank.
        assert(fbits::rank(s2[0]) <= fbits::rank(s2[j]) && fbits::rank(s1[0]) <= fbits::rank(
            s1[m],
        ));
        assert(fbits::rank(s1[0]) == fbits::rank(s2[0]));
        assert forall|i: int| 0 <= i <= j implies fbits::rank(#[trigger] s2[i]) == fbits::rank(
            x,
        ) by {
            assert(fbits::rank(s2[0]) <= fbits::rank(s2[i]));
            if i < j {
                assert(fbits::rank(s2[i]) <= fbits::rank(s2[j]));
            }
        }
        let t1 = s1.remove(0);
        let t2 = s2.remove(j);
        s1.remove_ensures(0);
        s2.remove_ensures(j);
        assert(t1.to_multiset() == t2.to_multiset()) by {
            assert(t1.to_multiset() =~= s1.to_multiset().remove(x));
            assert(t2.to_multiset() =~= s2.to_multiset().remove(x));
        }
        assert(sorted_by_value(t1));
        assert(sorted_by_value(t2)) by {
            assert forall|a: int, b: int| 0 <= a < b < t2.len() implies fbits::rank(t2[a])
                <= fbits::rank(t2[b]) by {
                if a < j && j <= b {
                    assert(t2[a] == s2[a] && t2[b] == s2[b + 1]);
                }
            }
        }
        lemma_sorted_ranks_agree(t1, t2);
        assert forall|k: int| 0 <= k < s1.len() implies fbits::rank(s1[k]) == fbits::rank(
            s2[k],
        ) by {
            if k > 0 {
                assert(s1[k] == t1[k - 1]);
                assert(fbits::rank(t1[k - 1]) == fbits::rank(t2[k - 1]));
                if k - 1 < j {
                    assert(t2[k - 1] == s2[k - 1]);
                    assert(fbits::rank(s2[k - 1]) == fbits::rank(x));
                    assert(fbits::rank(s2[k]) == fbits::rank(x));
                } else {
                    assert(t2[k - 1] == s2[k]);
                }
            }
        }
    }
}

/// Over an already sorted sample, the engine's percentile carries
/// exactly the value at the selected nearest-rank index.
pub proof fn lemma_percentile_of_sorted(sample: Seq<u64>, p: u64, v: u64)
    requires
        is_percentile_of(v, sample, p),
        sorted_by_value(sample),
        unit_range(p),
        1 <= sample.len() <= MAX_SAMPLE,
    ensures
        fbits::rank(v) == fbits::rank(sample[spec_percentile_index(p, sample.len())]),
{
    let s = choose|s: Seq<u64>|
        #![auto]
        sorted_by_value(s) && s.to_multiset() == sample.to_multiset() && s.len() == sample.len()
            && v == s[spec_percentile_index(p, sample.len())];
    lemma_sorted_ranks_agree(s, sample);
    lemma_percentile_index_in_range(p, sample.len());
}

/// Percentile monotonicity over the engine's own results: whatever
/// sorted copies two calls worked from, the element selected for a lower
/// probability never exceeds, in the binary64 order, the one selected
/// for a higher probability from the same sample.
pub proof fn lemma_percentile_results_monotonic(sample: Seq<u64>, p1: u64, p2: u64, v1: u64, v2: u64)
    requires
        is_percentile_of(v1, sample, p1),
        is_percentile_of(v2, sample, p2),
        unit_range(p1),
        unit_range(p2),
        fbits::rank(p1) <= fbits::rank(p2),
        1 <= sample.len() <= MAX_SAMPLE,
    ensures
        fbits::rank(v1) <= fbits::rank(v2),
{
    let s1 = choose|s: Seq<u64>|
        #![auto]
        sorted_by_value(s) && s.to_multiset() == sample.to_multiset() && s.len() == sample.len()
            && v1 == s[spec_percentile_index(p1, sample.len())];
    let s2 = choose|s: Seq<u64>|
        #![auto]
        sorted_by_value(s) && s.to_multiset() == sample.to_multiset() && s.len() == sample.len()
            && v2 == s[spec_percentile_index(p2, sample.len())];
    lemma_sorted_ranks_agree(s1, s2);
    lemma_percentile_index_in_range(p1, sample.len());
    lemma_percentile_index_in_range(p2, sample.len());
    lemma_percentile_index_monotonic(p1, p2, sample.len());
    let i1 = spec_percentile_index(p1, sample.len());
    let i2 = spec_percentile_index(p2, sample.len());
    assert(fbits::rank(s1[i1]) == fbits::rank(s2[i1]));
    if i1 < i2 {
        assert(fbits::rank(s2[i1]) <= fbits::rank(s2[i2]));
    }
}

/// Percentile monotonicity: in a sorted sample, the element selected by
/// a lower probability never exceeds, in the binary64 order, the element
/// selected by a higher one.
pub proof fn lemma_percentile_monotonic(s: Seq<u64>, p1: u64, p2: u64)
    requires
        sorted_by_value(s),
        1 <= s.len() <= MAX_SAMPLE,
        unit_range(p1),
        unit_range(p2),
        fbits::rank(p1) <= fbits::rank(p2),
    ensures
        fbits::rank(s[spec_percentile_index(p1, s.len())]) <= fbits::rank(
            s[spec_percentile_index(p2, s.len())],
        ),
{
    lemma_percentile_index_in_range(p1, s.len());
    lemma_percentile_index_in_range(p2, s.len());
    lemma_percentile_index_monotonic(p1, p2, s.len());
}

/// The edge probabilities select the edges of the sorted sample: 0.0 the
/// minimum, 1.0 the maximum.
pub proof fn lemma_percentile_extremes(n: nat)
    requires
        1 <= n <= MAX_SAMPLE,
    ensures
        spec_percentile_index(0, n) == 0,
        spec_percentile_index(ONE_BITS, n) == n - 1,
{
    if n > 1 {
        round::lemma_pow2_concrete();
        let q = (n - 1) as int;
        assert(fbits::significand(0u64) == 0);
        assert(fbits::significand(ONE_BITS) == fbits::FRAC_LIMIT);
        assert(fbits::scale(ONE_BITS) == 52);
        let d = pow2(52) as int;
        lemma_pow2_pos(52);
        let num = fbits::FRAC_LIMIT * q;
        lemma_div_multiples_vanish(q, d);
        lemma_mod_multiples_basic(q, d);
        lemma_mul_is_commutative(fbits::FRAC_LIMIT as int, q);
        assert(num / d == q && num % d == 0);
        round::lemma_log2floor_below_53(q);
        let e = round::log2floor(q);
        if e >= 52 {
        } else if 52 + e >= 53 {
            assert(pow2(((52 + e) - 53) as nat) < pow2(52)) by {
                lemma_pow2_strictly_increases(((52 + e) - 53) as nat, 52);
            }
        }
    }
}

/// Computes the nearest-rank index `p` selects in a sorted sample of `n`
/// elements, exactly as binary64 multiplication and truncation select
/// it; always strictly below `n`.
pub fn percentile_index(p: u64, n: usize) -> (r: usize)
    requires
        unit_range(p),
        1 <= n <= MAX_SAMPLE,
    ensures
        r == spec_percentile_index(p, n as nat),
        r < n,
{
    if n == 1 {
        return 0;
    }
    let exp_f: u64 = (p / fbits::FRAC_LIMIT) % 0x800;
    let frac: u64 = p % fbits::FRAC_LIMIT;
    proof {
        lemma_unit_significand(p);
    }
    let sig: u64;
    let sc: u64;
    if exp_f == 0 {
        sig = frac;
        sc = 1074;
    } else {
        sig = frac + fbits::FRAC_LIMIT;
        sc = 1075 - exp_f;
    }
    let q: u64 = (n - 1) as u64;
    proof {
        round::lemma_pow2_concrete();
        assert(sig == fbits::significand(p) && sc == fbits::scale(p));
        assert((sig as int) * (q as int) < pow2(106)) by (nonlinear_arith)
            requires
                sig < 0x20_0000_0000_0000,
                q < 0x20_0000_0000_0000,
                pow2(106) == 0x400_0000_0000_0000_0000_0000_0000u128,
        ;
        lemma_pow2_adds(sc as nat, 53);
        lemma_pow2_pos(sc as nat);
        assert((sig as int) * (q as int) < pow2(sc as nat) * pow2(53)) by (nonlinear_arith)
            requires
                sig <= pow2(sc as nat),
                0 < pow2(sc as nat),
                q < 0x20_0000_0000_0000,
                pow2(53) == 0x20_0000_0000_0000u64,
        ;
    }
    let num: u128 = (sig as u128) * (q as u128);
    let far: u128 = round::floor_after_round_exec(num, sc);
    proof {
        let d = pow2(sc as nat) as int;
        round::lemma_far_range(num as int, sc as nat);
        if sig as int == pow2(sc as nat) {
            lemma_div_multiples_vanish(q as int, d);
            lemma_mod_multiples_basic(q as int, d);
            assert(num as int == (q as int) * d) by (nonlinear_arith)
                requires
                    num as int == (sig as int) * (q as int),
                    sig as int == d,
            ;
        } else {
            assert((num as int) < d * (q as int)) by (nonlinear_arith)
                requires
                    (sig as int) < d,
                    q >= 1,
                    num as int == (sig as int) * (q as int),
            ;
            lemma_multiply_divide_lt(num as int, d, q as int);
        }
        assert(far <= q);
    }
    far as usize
}

/// `v` is what the nearest-rank percentile `p` selects in `sample`: the
/// element a sorted copy of the sample holds at the rank's index.
pub open spec fn is_percentile_of(v: u64, sample: Seq<u64>, p: u64) -> bool {
    exists|s: Seq<u64>|
        #![auto]
        sorted_by_value(s) && s.to_multiset() == sample.to_multiset() && s.len() == sample.len()
            && v == s[spec_percentile_index(p, sample.len())]
}

/// The nearest-rank percentile of the sample: sorts a copy ascending and
/// returns the element at the index `p` selects.  Fails exactly on an
/// empty sample.
pub fn calculate_percentile(values: &Vec<u64>, p: u64) -> (r: Result<u64, StatsError>)
    requires
        no_nans(values@),
        unit_range(p),
        values@.len() <= MAX_SAMPLE,
    ensures
        r is Ok <==> values@.len() >= 1,
        values@.len() == 0 ==> r == Err::<u64, StatsError>(StatsError::EmptySample),
        r is Ok ==> is_percentile_of(r->Ok_0, values@, p),
{
    if values.len() == 0 {
        return Err(StatsError::EmptySample);
    }
    let mut sorted = path::copy_bits(values);
    sort_floats(&mut sorted);
    let idx = percentile_index(p, sorted.len());
    let out = sorted[idx];
    proof {
        broadcast use vstd::seq_lib::group_to_multiset_ensures;

        assert(sorted@.len() == values@.len());
    }
    Ok(out)
}

/// The summary bundle over one sample.  All fields are binary64 bit
/// patterns; `mean` and `std_dev` are carried through from the caller's
/// arithmetic, the rest are order statistics of the sample.
pub struct SummaryStats {
    pub mean: u64,
    pub std_dev: u64,
    pub median: u64,
    pub p5: u64,
    pub p25: u64,
    pub p75: u64,
    pub p95: u64,
    pub min: u64,
    pub max: u64,
}

/// `st` summarizes `sample`: its order statistics are the ones a sorted
/// copy of the sample yields, and it carries `mean` and `std_dev` through.
pub open spec fn is_summary_of(st: SummaryStats, sample: Seq<u64>, mean: u64, std_dev: u64) -> bool {
    exists|s: Seq<u64>|
        #![auto]
        sorted_by_value(s) && s.to_multiset() == sample.to_multiset() && s.len() == sample.len()
            && st.mean == mean && st.std_dev == std_dev && st.median == s[spec_percentile_index(
            HALF_BITS,
            sample.len(),
        )] && st.p5 == s[spec_percentile_index(P05_BITS, sample.len())] && st.p25
            == s[spec_percentile_index(P25_BITS, sample.len())] && st.p75 == s[spec_percentile_index(
            P75_BITS,
            sample.len(),
        )] && st.p95 == s[spec_percentile_index(P95_BITS, sample.len())] && st.min == s[0]
            && st.max == s[sample.len() - 1]
}

/// Bundles the order statistics of the sample — median, 5th, 25th, 75th
/// and 95th percentiles, minimum and maximum — around the caller-supplied
/// mean and sample standard deviation.  Fails exactly on an empty sample.
pub fn calculate_summary_stats(values: &Vec<u64>, mean: u64, std_dev: u64) -> (r: Result<
    SummaryStats,
    StatsError,
>)
    requires
        no_nans(values@),
        values@.len() <= MAX_SAMPLE,
    ensures
        r is Ok <==> values@.len() >= 1,
        values@.len() == 0 ==> r == Err::<SummaryStats, StatsError>(StatsError::EmptySample),
        r is Ok ==> is_summary_of(r->Ok_0, values@, mean, std_dev),
{
    if values.len() == 0 {
        return Err(StatsError::EmptySample);
    }
    let mut sorted = path::copy_bits(values);
    sort_floats(&mut sorted);
    let n = sorted.len();
    let st = SummaryStats {
        mean,
        std_dev,
        median: sorted[percentile_index(HALF_BITS, n)],
        p5: sorted[percentile_index(P05_BITS, n)],
        p25: sorted[percentile_index(P25_BITS, n)],
        p75: sorted[percentile_index(P75_BITS, n)],
        p95: sorted[percentile_index(P95_BITS, n)],
        min: sorted[0],
        max: sorted[n - 1],
    };
    proof {
        broadcast use vstd::seq_lib::group_to_multiset_ensures;

        assert(sorted@.len() == values@.len());
    }
    Ok(st)
}

} // verus!

