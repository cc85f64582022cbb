//! Integer replication of binary64 rounding for the percentile rank.
//!
//! The nearest-rank percentile multiplies a probability `p` by the sample
//! bound `n - 1` in binary64 and truncates the product to an index.  With
//! `p` carried as `significand / 2^scale`, the exact product is an
//! integer `num` scaled by `2^-s`, and the binary64 product is that value
//! rounded to at most 53 significant bits, to nearest with ties to even.
//! `floor_after_round` states the truncated integer part of that rounded
//! value, for non-negative products below `2^53` (so the rounding step is
//! never coarser than a unit); `floor_after_round_exec` computes it.
use vstd::prelude::*;

use vstd::arithmetic::div_mod::*;
use vstd::arithmetic::mul::*;
use vstd::arithmetic::power2::*;

verus! {

/// floor(log2 x) for x >= 1.
pub open spec fn log2floor(x: int) -> nat
    recommends
        x >= 1,
    decreases x,
{
    if x < 2 {
        0
    } else {
        1 + log2floor(x / 2)
    }
}

/// The concrete powers of two these proofs turn on.
pub proof fn lemma_pow2_concrete()
    ensures
        pow2(1) == 2,
        pow2(52) == 0x10_0000_0000_0000,
        pow2(53) == 0x20_0000_0000_0000,
        pow2(54) == 0x40_0000_0000_0000,
        pow2(106) == 0x400_0000_0000_0000_0000_0000_0000,
        pow2(127) == 0x8000_0000_0000_0000_0000_0000_0000_0000,
        pow2(128) == 0x1_0000_0000_0000_0000_0000_0000_0000_0000,
{
    lemma2_to64();
    lemma2_to64_rest();
    lemma_pow2_adds(53, 53);
    lemma_pow2_adds(63, 64);
    lemma_pow2_adds(64, 64);
}

/// `log2floor` brackets its argument between consecutive powers of two.
pub proof fn lemma_log2floor_bounds(x: int)
    requires
        x >= 1,
    ensures
        pow2(log2floor(x)) <= x < pow2(log2floor(x) + 1),
    decreases x,
{
    if x < 2 {
        lemma2_to64();
    } else {
        lemma_log2floor_bounds(x / 2);
        let e = log2floor(x / 2);
        lemma_pow2_adds(e, 1);
        lemma_pow2_adds(e + 1, 1);
        lemma2_to64();
        lemma_fundamental_div_mod(x, 2);
        assert(log2floor(x) == 1 + e);
        assert(pow2(e + 1) == pow2(e) * 2);
        assert(pow2(e + 2) == pow2(e + 1) * 2);
        assert(2 * (x / 2) <= x <= 2 * (x / 2) + 1);
        assert(pow2(e + 1) <= x);
        assert(x < pow2(e + 2));
    }
}

/// Below `2^53`, `log2floor` stays below 53.
pub proof fn lemma_log2floor_below_53(x: int)
    requires
        1 <= x < pow2(53),
    ensures
        log2floor(x) <= 52,
{
    lemma_log2floor_bounds(x);
    if log2floor(x) >= 53 {
        lemma_pow2_increases(53, log2floor(x));
        assert(false);
    }
}

/// Monotonicity of `pow2` in non-strict form.
pub proof fn lemma_pow2_increases(e1: nat, e2: nat)
    requires
        e1 <= e2,
    ensures
        pow2(e1) <= pow2(e2),
{
    if e1 < e2 {
        lemma_pow2_strictly_increases(e1, e2);
    }
}

/// The integer part of the binary64 value nearest to `num / 2^s`, ties
/// to even: what `(x * y) as usize` yields in binary64 when the exact
/// product of `x` and `y` is `num / 2^s`.  Meaningful for
/// `0 <= num < 2^(s + 53)`, where the product stays below `2^53` and the
/// rounding unit is at most 1.
pub open spec fn floor_after_round(num: int, s: nat) -> int {
    let d = pow2(s) as int;
    let k0 = num / d;
    let rem = num % d;
    if num <= 0 {
        0
    } else if k0 == 0 {
        // The product lies in (0, 1): it rounds up to 1.0 exactly when it
        // reaches the midpoint below 1.0 (the tie falls to 1.0, whose
        // significand is even).
        if s >= 54 && d - rem <= pow2((s - 54) as nat) {
            1
        } else {
            0
        }
    } else {
        let e = log2floor(k0);
        if e >= 52 {
            // Unit spacing: round to the nearest integer, ties to even.
            if 2 * rem > d || (2 * rem == d && k0 % 2 == 1) {
                k0 + 1
            } else {
                k0
            }
        } else {
            // Spacing 2^(e - 52) < 1: the value crosses up to the integer
            // k0 + 1 exactly when it reaches the midpoint below it (that
            // tie also falls to the even side, k0 + 1).
            if s + e >= 53 && d - rem <= pow2(((s + e) - 53) as nat) {
                k0 + 1
            } else {
                k0
            }
        }
    }
}

/// The rounded-then-truncated value moves past `num / 2^s` by at most one.
pub proof fn lemma_far_range(num: int, s: nat)
    requires
        num >= 0,
    ensures
        num / (pow2(s) as int) <= floor_after_round(num, s) <= num / (pow2(s) as int) + 1,
        num % (pow2(s) as int) == 0 ==> floor_after_round(num, s) == num / (pow2(s) as int),
{
    let d = pow2(s) as int;
    lemma_pow2_pos(s);
    lemma_div_pos_is_pos(num, d);
    if num > 0 && num % d == 0 {
        lemma_fundamental_div_mod(num, d);
        if num / d == 0 {
            if s >= 54 {
                lemma_pow2_strictly_increases((s - 54) as nat, s);
            }
        } else {
            let e = log2floor(num / d);
            if e < 52 && s + e >= 53 {
                lemma_pow2_strictly_increases(((s + e) - 53) as nat, s);
            }
        }
    }
}

/// 2^k in a u128, for exponents that fit one.
pub fn pow2_u128(k: u64) -> (r: u128)
    requires
        k <= 126,
    ensures
        r == pow2(k as nat),
{
    let mut i: u64 = 0;
    let mut r: u128 = 1;
    proof {
        lemma2_to64();
    }
    while i < k
        invariant
            i <= k <= 126,
            r == pow2(i as nat),
        decreases k - i,
    {
        proof {
            lemma_pow2_adds(i as nat, 1);
            lemma_pow2_concrete();
            lemma_pow2_strictly_increases((i + 1) as nat, 127);
        }
        r = r * 2;
        i = i + 1;
    }
    r
}

/// floor(log2 x), computed by repeated halving.
pub fn log2floor_u128(x: u128) -> (r: u64)
    requires
        x >= 1,
    ensures
        r == log2floor(x as int),
{
    let mut v: u128 = x;
    let mut e: u64 = 0;
    proof {
        lemma2_to64();
    }
    while v >= 2
        invariant
            1 <= v,
            log2floor(x as int) == e + log2floor(v as int),
            e <= 127,
            pow2(e as nat) * v <= x,
        decreases v,
    {
        proof {
            lemma_pow2_adds(e as nat, 1);
            lemma2_to64();
            lemma_fundamental_div_mod(v as int, 2);
            assert(pow2((e + 1) as nat) * (v as int / 2) <= pow2(e as nat) * v) by (nonlinear_arith)
                requires
                    pow2((e + 1) as nat) == pow2(e as nat) * 2,
                    v >= 2,
            ;
            if e >= 127 {
                lemma_pow2_concrete();
                assert(pow2(127) * v >= pow2(127) * 2) by (nonlinear_arith)
                    requires
                        v >= 2,
                ;
                assert(false);
            }
        }
        v = v / 2;
        e = e + 1;
    }
    e
}

/// Computes `floor_after_round` on machine integers.
pub fn floor_after_round_exec(num: u128, s: u64) -> (r: u128)
    requires
        s >= 52,
        (num as int) < pow2(106),
        (num as int) < pow2((s as nat) + 53),
    ensures
        r == floor_after_round(num as int, s as nat),
{
    if num == 0 {
        return 0;
    }
    if s > 106 {
        proof {
            lemma_big_scale_rounds_to_zero(num as int, s as nat);
        }
        return 0;
    }
    let d: u128 = pow2_u128(s);
    proof {
        lemma_pow2_pos(s as nat);
        lemma_pow2_adds(s as nat, 53);
        lemma_multiply_divide_lt(num as int, d as int, pow2(53) as int);
        lemma_pow2_increases(s as nat, 106);
        lemma_pow2_concrete();
    }
    let k0: u128 = num / d;
    let rem: u128 = num % d;
    proof {
        lemma_fundamental_div_mod(num as int, d as int);
        lemma_mod_bound(num as int, d as int);
        assert(k0 < pow2(53));
        assert(d <= pow2(106));
    }
    if k0 == 0 {
        if s >= 54 {
            let t: u128 = pow2_u128(s - 54);
            if d - rem <= t {
                1
            } else {
                0
            }
        } else {
            0
        }
    } else {
        let e: u64 = log2floor_u128(k0);
        proof {
            lemma_log2floor_below_53(k0 as int);
        }
        if e >= 52 {
            if 2 * rem > d || (2 * rem == d && k0 % 2 == 1) {
                k0 + 1
            } else {
                k0
            }
        } else {
            if s + e >= 53 {
                let t: u128 = pow2_u128(s + e - 53);
                if d - rem <= t {
                    k0 + 1
                } else {
                    k0
                }
            } else {
                k0
            }
        }
    }
}

/// Division is monotone across different denominators, compared by
/// cross-multiplication.
pub proof fn lemma_cross_div(a: int, da: int, b: int, db: int)
    requires
        0 <= a,
        0 <= b,
        0 < da,
        0 < db,
        a * db <= b * da,
    ensures
        a / da <= b / db,
{
    let ka = a / da;
    let kb = b / db;
    lemma_fundamental_div_mod(a, da);
    lemma_fundamental_div_mod(b, db);
    lemma_mod_bound(a, da);
    lemma_mod_bound(b, db);
    lemma_div_pos_is_pos(a, da);
    lemma_div_pos_is_pos(b, db);
    if ka > kb {
        assert(a >= (kb + 1) * da) by (nonlinear_arith)
            requires
                a == ka * da + a % da,
                a % da >= 0,
                ka >= kb + 1,
                da > 0,
        ;
        assert(b < (kb + 1) * db) by (nonlinear_arith)
            requires
                b == kb * db + b % db,
                b % db < db,
                db > 0,
        ;
        assert(a * db >= ((kb + 1) * da) * db) by (nonlinear_arith)
            requires
                a >= (kb + 1) * da,
                db > 0,
        ;
        assert(b * da < ((kb + 1) * db) * da) by (nonlinear_arith)
            requires
                b < (kb + 1) * db,
                da > 0,
        ;
        assert(((kb + 1) * da) * db == ((kb + 1) * db) * da) by (nonlinear_arith);
        assert(false);
    }
}

/// The rounded-then-truncated value is monotone in the represented
/// quantity, across different scales: if `num1 / 2^s1 <= num2 / 2^s2`
/// as exact rationals, the binary64 roundings truncate in the same
/// order.
pub proof fn lemma_far_monotonic(num1: int, s1: nat, num2: int, s2: nat)
    requires
        0 <= num1,
        0 <= num2,
        num1 < pow2(s1 + 53),
        num2 < pow2(s2 + 53),
        s1 >= 52,
        s2 >= 52,
        num1 * pow2(s2) <= num2 * pow2(s1),
    ensures
        floor_after_round(num1, s1) <= floor_after_round(num2, s2),
{
    let d1 = pow2(s1) as int;
    let d2 = pow2(s2) as int;
    lemma_pow2_pos(s1);
    lemma_pow2_pos(s2);
    let k1 = num1 / d1;
    let k2 = num2 / d2;
    let r1 = num1 % d1;
    let r2 = num2 % d2;
    lemma_fundamental_div_mod(num1, d1);
    lemma_fundamental_div_mod(num2, d2);
    lemma_mul_is_commutative(d1, k1);
    lemma_mul_is_commutative(d2, k2);
    lemma_mod_bound(num1, d1);
    lemma_mod_bound(num2, d2);
    lemma_div_pos_is_pos(num1, d1);
    lemma_div_pos_is_pos(num2, d2);
    lemma_far_range(num1, s1);
    lemma_far_range(num2, s2);
    lemma_cross_div(num1, d1, num2, d2);
    if num1 <= 0 {
        // floor_after_round(num1, s1) == 0 <= floor_after_round(num2, s2)
    } else if k1 < k2 {
        // far1 <= k1 + 1 <= k2 <= far2
    } else {
        // k1 == k2; only a round-up on the left needs matching.
        let k = k1;
        if floor_after_round(num1, s1) == k + 1 {
            if k >= 1 {
                assert(num2 > 0) by (nonlinear_arith)
                    requires
                        num2 == k * d2 + r2,
                        k >= 1,
                        d2 > 0,
                        r2 >= 0,
                ;
            }
            if k == 0 {
                // cond1: s1 >= 54 and d1 - r1 <= pow2(s1 - 54); here r1 == num1.
                assert(num1 == r1) by (nonlinear_arith)
                    requires
                        num1 == k * d1 + r1,
                        k == 0,
                ;
                assert(num2 == r2) by (nonlinear_arith)
                    requires
                        num2 == k * d2 + r2,
                        k == 0,
                ;
                assert(s1 >= 54 && d1 - r1 <= pow2((s1 - 54) as nat));
                if s2 < 54 {
                    // The right value would then sit too close below 1
                    // for its coarse scale: impossible.
                    lemma_pow2_adds((s1 - 54) as nat, s2);
                    lemma_pow2_increases((s1 + s2 - 54) as nat, (s1 - 1) as nat);
                    lemma_pow2_strictly_increases((s1 - 1) as nat, s1);
                    assert(num1 * d2 >= (d1 - pow2((s1 - 54) as nat)) * d2) by (nonlinear_arith)
                        requires
                            num1 >= d1 - pow2((s1 - 54) as nat),
                            d2 > 0,
                    ;
                    assert((d1 - pow2((s1 - 54) as nat)) * d2 == d1 * d2 - pow2((s1 - 54) as nat)
                        * d2) by (nonlinear_arith);
                    assert(num2 * d1 <= (d2 - 1) * d1) by (nonlinear_arith)
                        requires
                            num2 <= d2 - 1,
                            d1 > 0,
                    ;
                    assert((d2 - 1) * d1 == d1 * d2 - d1) by (nonlinear_arith);
                    assert(false);
                } else {
                    lemma_pow2_strictly_increases((s2 - 54) as nat, s2);
                    lemma_pow2_adds((s1 - 54) as nat, s2);
                    lemma_pow2_adds((s2 - 54) as nat, s1);
                    assert(((s1 - 54) as nat) + s2 == ((s2 - 54) as nat) + s1);
                    assert(pow2((s1 - 54) as nat) * d2 == d1 * pow2((s2 - 54) as nat)) by (
                    nonlinear_arith)
                        requires
                            pow2(((s1 - 54) as nat) + s2) == pow2((s1 - 54) as nat) * pow2(s2),
                            pow2(((s2 - 54) as nat) + s1) == pow2((s2 - 54) as nat) * pow2(s1),
                            pow2(((s1 - 54) as nat) + s2) == pow2(((s2 - 54) as nat) + s1),
                            d1 == pow2(s1),
                            d2 == pow2(s2),
                    ;
                    assert(num1 * d2 >= (d1 - pow2((s1 - 54) as nat)) * d2) by (nonlinear_arith)
                        requires
                            num1 >= d1 - pow2((s1 - 54) as nat),
                            d2 > 0,
                    ;
                    assert((d1 - pow2((s1 - 54) as nat)) * d2 == d1 * d2 - pow2((s1 - 54) as nat)
                        * d2) by (nonlinear_arith);
                    assert(d1 * d2 - d1 * pow2((s2 - 54) as nat) == d1 * (d2 - pow2(
                        (s2 - 54) as nat,
                    ))) by (nonlinear_arith);
                    assert(num2 * d1 >= d1 * (d2 - pow2((s2 - 54) as nat)));
                    assert(num2 >= d2 - pow2((s2 - 54) as nat)) by (nonlinear_arith)
                        requires
                            num2 * d1 >= d1 * (d2 - pow2((s2 - 54) as nat)),
                            d1 > 0,
                    ;
                }
            } else {
                let e = log2floor(k);
                if e >= 52 {
                    // cond1: 2 num1 beyond (or at, with k odd) the midpoint.
                    if 2 * r1 > d1 {
                        assert(2 * num1 > (2 * k + 1) * d1) by (nonlinear_arith)
                            requires
                                num1 == k * d1 + r1,
                                2 * r1 > d1,
                        ;
                        assert(2 * num2 * d1 >= 2 * num1 * d2) by (nonlinear_arith)
                            requires
                                num1 * d2 <= num2 * d1,
                        ;
                        assert(2 * num1 * d2 > ((2 * k + 1) * d1) * d2) by (nonlinear_arith)
                            requires
                                2 * num1 > (2 * k + 1) * d1,
                                d2 > 0,
                        ;
                        assert(2 * num2 > (2 * k + 1) * d2) by (nonlinear_arith)
                            requires
                                2 * num2 * d1 > ((2 * k + 1) * d1) * d2,
                                d1 > 0,
                                d2 > 0,
                        ;
                        assert(2 * r2 > d2) by (nonlinear_arith)
                            requires
                                num2 == k * d2 + r2,
                                2 * num2 > (2 * k + 1) * d2,
                        ;
                    } else {
                        // the tie, with k odd
                        assert(2 * r1 == d1 && k % 2 == 1);
                        assert(2 * num1 == (2 * k + 1) * d1) by (nonlinear_arith)
                            requires
                                num1 == k * d1 + r1,
                                2 * r1 == d1,
                        ;
                        assert(2 * num2 * d1 >= ((2 * k + 1) * d1) * d2) by (nonlinear_arith)
                            requires
                                num1 * d2 <= num2 * d1,
                                2 * num1 == (2 * k + 1) * d1,
                        ;
                        assert(2 * num2 >= (2 * k + 1) * d2) by (nonlinear_arith)
                            requires
                                2 * num2 * d1 >= ((2 * k + 1) * d1) * d2,
                                d1 > 0,
                                d2 > 0,
                        ;
                        assert(2 * r2 >= d2) by (nonlinear_arith)
                            requires
                                num2 == k * d2 + r2,
                                2 * num2 >= (2 * k + 1) * d2,
                        ;
                    }
                } else {
                    // cond1: within the midpoint gap below k + 1.
                    assert(s1 + e >= 53 && d1 - r1 <= pow2(((s1 + e) - 53) as nat));
                    assert(num1 >= (k + 1) * d1 - pow2(((s1 + e) - 53) as nat)) by (
                    nonlinear_arith)
                        requires
                            num1 == k * d1 + r1,
                            d1 - r1 <= pow2(((s1 + e) - 53) as nat),
                    ;
                    if s2 + e < 53 {
                        // e == 0, s2 == 52, k == 1: the right value cannot
                        // reach the gap below 2 at that scale.
                        assert(e == 0 && s2 == 52);
                        assert(k < 2) by {
                            lemma_log2floor_bounds(k);
                            lemma2_to64();
                        }
                        lemma_pow2_adds(((s1 + e) - 53) as nat, s2);
                        lemma_pow2_increases(((s1 + e) + s2 - 53) as nat, (s1
                            - 1) as nat);
                        lemma_pow2_strictly_increases((s1 - 1) as nat, s1);
                        assert(num2 <= 2 * d2 - 1) by (nonlinear_arith)
                            requires
                                num2 == k * d2 + r2,
                                k == 1,
                                r2 <= d2 - 1,
                        ;
                        assert(num1 * d2 >= ((k + 1) * d1 - pow2(((s1 + e) - 53) as nat)) * d2) by (
                        nonlinear_arith)
                            requires
                                num1 >= (k + 1) * d1 - pow2(((s1 + e) - 53) as nat),
                                d2 > 0,
                        ;
                        assert(((k + 1) * d1 - pow2(((s1 + e) - 53) as nat)) * d2 == (k + 1) * (d1
                            * d2) - pow2(((s1 + e) - 53) as nat) * d2) by (nonlinear_arith);
                        assert(num2 * d1 <= (2 * d2 - 1) * d1) by (nonlinear_arith)
                            requires
                                num2 <= 2 * d2 - 1,
                                d1 > 0,
                        ;
                        assert((2 * d2 - 1) * d1 == 2 * (d1 * d2) - d1) by (nonlinear_arith);
                        assert(false);
                    } else {
                        lemma_pow2_adds(((s1 + e) - 53) as nat, s2);
                        lemma_pow2_adds(((s2 + e) - 53) as nat, s1);
                        assert((((s1 + e) - 53) as nat) + s2 == (((s2 + e) - 53) as nat) + s1);
                        assert(pow2(((s1 + e) - 53) as nat) * d2 == d1 * pow2(
                            ((s2 + e) - 53) as nat,
                        )) by (nonlinear_arith)
                            requires
                                pow2((((s1 + e) - 53) as nat) + s2) == pow2(((s1 + e) - 53) as nat)
                                    * pow2(s2),
                                pow2((((s2 + e) - 53) as nat) + s1) == pow2(((s2 + e) - 53) as nat)
                                    * pow2(s1),
                                pow2((((s1 + e) - 53) as nat) + s2) == pow2(
                                    (((s2 + e) - 53) as nat) + s1,
                                ),
                                d1 == pow2(s1),
                                d2 == pow2(s2),
                        ;
                        assert(num1 * d2 >= ((k + 1) * d1 - pow2(((s1 + e) - 53) as nat)) * d2) by (
                        nonlinear_arith)
                            requires
                                num1 >= (k + 1) * d1 - pow2(((s1 + e) - 53) as nat),
                                d2 > 0,
                        ;
                        assert(((k + 1) * d1 - pow2(((s1 + e) - 53) as nat)) * d2 == d1 * ((k + 1)
                            * d2 - pow2(((s2 + e) - 53) as nat))) by (nonlinear_arith)
                            requires
                                pow2(((s1 + e) - 53) as nat) * d2 == d1 * pow2(
                                    ((s2 + e) - 53) as nat,
                                ),
                        ;
                        assert(num2 >= (k + 1) * d2 - pow2(((s2 + e) - 53) as nat)) by (
                        nonlinear_arith)
                            requires
                                num2 * d1 >= d1 * ((k + 1) * d2 - pow2(((s2 + e) - 53) as nat)),
                                d1 > 0,
                        ;
                        assert(d2 - r2 <= pow2(((s2 + e) - 53) as nat)) by (nonlinear_arith)
                            requires
                                num2 == k * d2 + r2,
                                num2 >= (k + 1) * d2 - pow2(((s2 + e) - 53) as nat),
                        ;
                    }
                }
            }
        }
    }
}

/// With a scale beyond the product's width, the value is far below the
/// midpoint under 1.0 and truncates to zero.
proof fn lemma_big_scale_rounds_to_zero(num: int, s: nat)
    requires
        0 < num < pow2(106),
        s > 106,
    ensures
        floor_after_round(num, s) == 0,
{
    let d = pow2(s) as int;
    lemma_pow2_pos(s);
    lemma_pow2_strictly_increases(106, s);
    lemma_basic_div(num, d);
    lemma_small_mod(num as nat, d as nat);
    // d - num > pow2(s - 54): num < pow2(s - 1) <= d - pow2(s - 54)
    lemma_pow2_adds((s - 54) as nat, 53);
    lemma_pow2_adds((s - 54) as nat, 54);
    lemma_pow2_increases(106, (s - 1) as nat);
    assert(pow2((s - 54) as nat) * pow2(53) == pow2((s - 1) as nat));
    assert(pow2((s - 54) as nat) * pow2(54) == pow2(s));
    assert(pow2(54) == 2 * pow2(53)) by {
        lemma_pow2_adds(53, 1);
        lemma2_to64();
    }
    assert(pow2((s - 54) as nat) * (2 * pow2(53)) == 2 * (pow2((s - 54) as nat) * pow2(53)))
        by (nonlinear_arith);
    assert(d - pow2((s - 54) as nat) >= pow2((s - 1) as nat)) by {
        lemma_pow2_pos((s - 54) as nat);
        assert(pow2((s - 54) as nat) * 1 <= pow2((s - 54) as nat) * pow2(53)) by {
            lemma_pow2_pos(53);
            lemma_mul_left_inequality(pow2((s - 54) as nat) as int, 1, pow2(53) as int);
        }
    }
}

} // verus!
