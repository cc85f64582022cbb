//! A model of IEEE-754 binary64 values through their raw bit patterns.
//!
//! Prices, rates and probabilities travel through this crate as the `u64`
//! bit patterns of binary64 numbers.  Everything the engine decides about
//! such a value — sign tests, ordering, negation — is exact integer logic
//! on the pattern, stated and proved here.  The bit layout is the binary64
//! one: 1 sign bit, 11 exponent bits, 52 fraction bits.
use vstd::prelude::*;

verus! {

/// 2^52: the weight of the lowest exponent bit.
pub const FRAC_LIMIT: u64 = 0x0010_0000_0000_0000;

/// 2^63: the weight of the sign bit.
pub const SIGN_LIMIT: u64 = 0x8000_0000_0000_0000;

/// The fraction field: the low 52 bits.
pub open spec fn frac_field(b: u64) -> u64 {
    b % FRAC_LIMIT
}

/// The biased exponent field: the 11 bits above the fraction.
pub open spec fn exp_field(b: u64) -> u64 {
    (b / FRAC_LIMIT) % 0x800
}

/// The pattern encodes a NaN: exponent all ones, fraction non-zero.
pub open spec fn is_nan(b: u64) -> bool {
    exp_field(b) == 0x7ff && frac_field(b) != 0
}

/// A signed key that orders bit patterns exactly as binary64 comparison
/// orders the non-NaN values they encode: non-negative patterns keep their
/// integer value, negative ones count downward from zero.  Both zeros map
/// to 0, so patterns of equal rank encode equal values.
pub open spec fn rank(b: u64) -> int {
    if b < SIGN_LIMIT {
        b as int
    } else {
        SIGN_LIMIT - b
    }
}

/// The value encoded by `b` is strictly greater than zero.  False for
/// every NaN, as binary64 comparison is.
pub open spec fn is_gt_zero(b: u64) -> bool {
    !is_nan(b) && rank(b) > 0
}

/// The integer significand of a non-negative pattern: the fraction plus
/// the hidden bit when the number is normal.
pub open spec fn significand(b: u64) -> int {
    if exp_field(b) == 0 {
        frac_field(b) as int
    } else {
        frac_field(b) + FRAC_LIMIT
    }
}

/// The power-of-two scale of a non-negative finite pattern: its value is
/// `significand(b) / pow2(scale(b))`.
pub open spec fn scale(b: u64) -> nat {
    if exp_field(b) == 0 {
        1074nat
    } else {
        (1075 - exp_field(b)) as nat
    }
}

/// Tests whether `b` encodes a NaN.
pub fn f64_bits_is_nan(b: u64) -> (r: bool)
    ensures
        r == is_nan(b),
{
    (b / FRAC_LIMIT) % 0x800 == 0x7ff && b % FRAC_LIMIT != 0
}

/// Tests whether the value encoded by `b` is strictly greater than zero,
/// as `>` on binary64 values decides it (false on NaN).
pub fn f64_bits_gt_zero(b: u64) -> (r: bool)
    ensures
        r == is_gt_zero(b),
{
    b >= 1 && b < SIGN_LIMIT && !f64_bits_is_nan(b)
}

/// Compares two non-NaN patterns as binary64 `<=` compares their values.
pub fn f64_bits_le(a: u64, b: u64) -> (r: bool)
    requires
        !is_nan(a),
        !is_nan(b),
    ensures
        r == (rank(a) <= rank(b)),
{
    if a < SIGN_LIMIT && b < SIGN_LIMIT {
        a <= b
    } else if a >= SIGN_LIMIT && b >= SIGN_LIMIT {
        b <= a
    } else if a >= SIGN_LIMIT {
        true
    } else {
        a == 0 && b == SIGN_LIMIT
    }
}

/// Compares two non-NaN patterns as binary64 `<` compares their values.
pub fn f64_bits_lt(a: u64, b: u64) -> (r: bool)
    requires
        !is_nan(a),
        !is_nan(b),
    ensures
        r == (rank(a) < rank(b)),
{
    !f64_bits_le(b, a)
}

/// Negates the encoded value: the sign bit is flipped and nothing else,
/// exactly as binary64 negation acts on the pattern.
pub fn negate_bits(b: u64) -> (r: u64)
    ensures
        r == (if b < SIGN_LIMIT {
            b + SIGN_LIMIT
        } else {
            b - SIGN_LIMIT
        }),
        rank(r) == -rank(b),
        exp_field(r) == exp_field(b),
        frac_field(r) == frac_field(b),
        is_nan(r) == is_nan(b),
{
    proof {
        lemma_flip_sign_fields(b);
    }
    if b < SIGN_LIMIT {
        b + SIGN_LIMIT
    } else {
        b - SIGN_LIMIT
    }
}

/// Moving a pattern across the sign boundary leaves the exponent and
/// fraction fields unchanged.
proof fn lemma_flip_sign_fields(b: u64)
    ensures
        b < SIGN_LIMIT ==> exp_field((b + SIGN_LIMIT) as u64) == exp_field(b) && frac_field(
            (b + SIGN_LIMIT) as u64,
        ) == frac_field(b),
        b >= SIGN_LIMIT ==> exp_field((b - SIGN_LIMIT) as u64) == exp_field(b) && frac_field(
            (b - SIGN_LIMIT) as u64,
        ) == frac_field(b),
{
    if b < SIGN_LIMIT {
        let c = (b + SIGN_LIMIT) as u64;
        assert(c == b + 0x800 * FRAC_LIMIT);
        assert(c / FRAC_LIMIT == b / FRAC_LIMIT + 0x800) by (nonlinear_arith)
            requires
                c == b + 0x800 * FRAC_LIMIT,
        ;
        assert(c % FRAC_LIMIT == b % FRAC_LIMIT) by (nonlinear_arith)
            requires
                c == b + 0x800 * FRAC_LIMIT,
        ;
    } else {
        let c = (b - SIGN_LIMIT) as u64;
        assert(b == c + 0x800 * FRAC_LIMIT);
        assert(b / FRAC_LIMIT == c / FRAC_LIMIT + 0x800) by (nonlinear_arith)
            requires
                b == c + 0x800 * FRAC_LIMIT,
        ;
        assert(b % FRAC_LIMIT == c % FRAC_LIMIT) by (nonlinear_arith)
            requires
                b == c + 0x800 * FRAC_LIMIT,
        ;
    }
}

} // verus!
