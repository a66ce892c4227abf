//! Sign manipulation, classification predicates and quantum inspection:
//! the operations that read or edit an encoded value without arithmetic.

use crate::codec::{decode, decode_spec, encode, field_sign};
use crate::common::{BID128, DecClass, DecimalValue, FB_INVALID};
use crate::rounding::infinity;
use crate::tens::{lemma_ndigits_bound, lemma_ndigits_le, lemma_pow10_values, ndigits,
    ndigits_u128};
use vstd::prelude::*;

verus! {

/// The value with its sign reversed; NaNs carry no sign and are unchanged.
pub open spec fn negv(v: DecimalValue) -> DecimalValue {
    match v.class {
        DecClass::QuietNan => v,
        DecClass::SignalingNan => v,
        _ => DecimalValue { sign: !v.sign, ..v },
    }
}

/// The value with a positive sign; NaNs carry no sign and are unchanged.
pub open spec fn absv(v: DecimalValue) -> DecimalValue {
    match v.class {
        DecClass::QuietNan => v,
        DecClass::SignalingNan => v,
        _ => DecimalValue { sign: false, ..v },
    }
}

/// Returns x with infinite value.
pub fn bid128_inf() -> (r: BID128)
    ensures
        decode_spec(r) == infinity(false),
{
    encode(
        DecimalValue { sign: false, class: DecClass::Infinite, exponent: 0, coefficient: 0 },
    )
}

/// Copies a decimal floating-point operand x to a destination in the same
/// format, with no change.
pub fn bid128_copy(x: BID128) -> (r: BID128)
    ensures
        r.w[0] == x.w[0],
        r.w[1] == x.w[1],
        decode_spec(r) == decode_spec(x),
{
    proof {
        assert(BID128 { w: [x.w[0], x.w[1]] }.w =~= x.w);
    }
    BID128 { w: [x.w[0], x.w[1]] }
}

/// Copies a 128-bit decimal floating-point operand x to a destination in the
/// same format, changing the sign to positive.
pub fn bid128_abs(x: BID128) -> (r: BID128)
    ensures
        r.w[0] == x.w[0],
        r.w[1] == x.w[1] & 0x7FFFFFFFFFFFFFFF,
        decode_spec(r) == absv(decode_spec(x)),
{
    let hi = x.w[1];
    let h2 = hi & 0x7FFFFFFFFFFFFFFF;
    proof {
        assert(((h2 >> 58) & 0x1F == (hi >> 58) & 0x1F) && ((h2 >> 57) & 1 == (hi >> 57) & 1) && ((
        h2 >> 61) & 3 == (hi >> 61) & 3) && ((h2 >> 47) & 0x3FFF == (hi >> 47) & 0x3FFF) && ((h2
            >> 49) & 0x3FFF == (hi >> 49) & 0x3FFF) && (h2 & 0x1FFFFFFFFFFFF == hi
            & 0x1FFFFFFFFFFFF) && ((h2 >> 63) & 1 == 0)) by (bit_vector)
            requires
                h2 == hi & 0x7FFFFFFFFFFFFFFF,
        ;
    }
    BID128 { w: [x.w[0], h2] }
}

/// Returns the same value as `x` but with reversed sign.
pub fn bid128_negate(x: BID128) -> (r: BID128)
    ensures
        r.w[0] == x.w[0],
        r.w[1] == x.w[1] ^ 0x8000000000000000,
        decode_spec(r) == negv(decode_spec(x)),
{
    let hi = x.w[1];
    let h2 = hi ^ 0x8000000000000000;
    proof {
        assert(((h2 >> 58) & 0x1F == (hi >> 58) & 0x1F) && ((h2 >> 57) & 1 == (hi >> 57) & 1) && ((
        h2 >> 61) & 3 == (hi >> 61) & 3) && ((h2 >> 47) & 0x3FFF == (hi >> 47) & 0x3FFF) && ((h2
            >> 49) & 0x3FFF == (hi >> 49) & 0x3FFF) && (h2 & 0x1FFFFFFFFFFFF == hi
            & 0x1FFFFFFFFFFFF) && ((h2 >> 63) & 1 == 1 - ((hi >> 63) & 1))) by (bit_vector)
            requires
                h2 == hi ^ 0x8000000000000000,
        ;
    }
    BID128 { w: [x.w[0], h2] }
}

/// Returns `true` if and only if x is zero, subnormal or normal (not
/// infinite or NaN).
pub fn bid128_is_finite(x: BID128) -> (r: bool)
    ensures
        r == (decode_spec(x).class == DecClass::Finite),
{
    let v = decode(x);
    match v.class {
        DecClass::Finite => true,
        _ => false,
    }
}

/// Returns `true` if x is infinite.
pub fn bid128_is_infinite(x: BID128) -> (r: bool)
    ensures
        r == (decode_spec(x).class == DecClass::Infinite),
{
    let v = decode(x);
    match v.class {
        DecClass::Infinite => true,
        _ => false,
    }
}

/// Returns `true` if and only if x has negative sign (by its sign bit, NaNs
/// included).
pub fn bid128_is_signed(x: BID128) -> (r: bool)
    ensures
        r == field_sign(x.w[1]),
{
    (x.w[1] >> 63) & 1 == 1
}

/// Returns `true` if and only if `x` is `+0` or `-0`.
pub fn bid128_is_zero(x: BID128) -> (r: bool)
    ensures
        r == (decode_spec(x).class == DecClass::Finite && decode_spec(x).coefficient == 0),
{
    let v = decode(x);
    match v.class {
        DecClass::Finite => v.coefficient == 0,
        _ => false,
    }
}

/// Returns the quantum of a finite argument as a signed integer value, the
/// value's own exponent. For an infinity or NaN the result is `i32::MIN`.
pub fn bid128_quantexp(x: BID128) -> (r: i32)
    ensures
        decode_spec(x).class == DecClass::Finite ==> r == decode_spec(x).exponent,
        decode_spec(x).class != DecClass::Finite ==> r == i32::MIN,
{
    let v = decode(x);
    match v.class {
        DecClass::Finite => v.exponent,
        _ => i32::MIN,
    }
}

/// Returns the quantum of a finite argument: one unit in the place of its
/// exponent. If x is infinite, the result is +Inf. If x is NaN, the result
/// is NaN.
pub fn bid128_quantum(x: BID128) -> (r: BID128)
    ensures
        decode_spec(r) == match decode_spec(x).class {
            DecClass::Finite => DecimalValue {
                sign: false,
                class: DecClass::Finite,
                exponent: decode_spec(x).exponent,
                coefficient: 1,
            },
            DecClass::Infinite => infinity(false),
            _ => crate::common::quiet_nan(),
        },
{
    proof {
        lemma_pow10_values();
    }
    let v = decode(x);
    match v.class {
        DecClass::Finite => encode(
            DecimalValue { sign: false, class: DecClass::Finite, exponent: v.exponent, coefficient: 1 },
        ),
        DecClass::Infinite => encode(
            DecimalValue { sign: false, class: DecClass::Infinite, exponent: 0, coefficient: 0 },
        ),
        _ => encode(
            DecimalValue { sign: false, class: DecClass::QuietNan, exponent: 0, coefficient: 0 },
        ),
    }
}

/// The exponent of `x` as though it were represented with one digit before
/// the decimal point: `exponent + digits - 1` for a finite nonzero value.
pub open spec fn ilogb_spec(v: DecimalValue) -> int {
    v.exponent + ndigits(v.coefficient as nat) - 1
}

/// Returns the exponent e of x, a signed integral value, determined as
/// though x were represented with infinite range. Zero and NaN give
/// `i32::MIN`, an infinity `i32::MAX`; all three set `Invalid`.
pub fn bid128_ilogb(x: BID128, flags: &mut u32) -> (r: i32)
    ensures
        ({
            let v = decode_spec(x);
            match v.class {
                DecClass::Finite => if v.coefficient == 0 {
                    r == i32::MIN && *final(flags) == *old(flags) | FB_INVALID
                } else {
                    r == ilogb_spec(v) && *final(flags) == *old(flags)
                },
                DecClass::Infinite => r == i32::MAX && *final(flags) == *old(flags) | FB_INVALID,
                _ => r == i32::MIN && *final(flags) == *old(flags) | FB_INVALID,
            }
        }),
{
    let v = decode(x);
    match v.class {
        DecClass::Finite => {
            if v.coefficient == 0 {
                *flags = *flags | FB_INVALID;
                i32::MIN
            } else {
                let n = ndigits_u128(v.coefficient);
                proof {
                    lemma_pow10_values();
                    lemma_ndigits_le(v.coefficient as nat, 34);
                }
                v.exponent + n as i32 - 1
            }
        },
        DecClass::Infinite => {
            *flags = *flags | FB_INVALID;
            i32::MAX
        },
        _ => {
            *flags = *flags | FB_INVALID;
            i32::MIN
        },
    }
}

/// Breaks a finite nonzero `x` into a mantissa with one digit before the
/// decimal point and a power-of-ten exponent stored through `exp`:
/// numerically `x == mantissa * 10^exp`, with the coefficient kept as it is.
/// Zeros, infinities and NaNs are returned unchanged with `exp` zero.
pub fn bid128_frexp(x: BID128, exp: &mut i32) -> (r: BID128)
    ensures
        ({
            let v = decode_spec(x);
            if v.class == DecClass::Finite && v.coefficient != 0 {
                *final(exp) == ilogb_spec(v) && decode_spec(r) == DecimalValue {
                    exponent: (1 - ndigits(v.coefficient as nat)) as i32,
                    ..v
                }
            } else {
                *final(exp) == 0 && decode_spec(r) == decode_spec(x)
            }
        }),
{
    let v = decode(x);
    match v.class {
        DecClass::Finite => {
            if v.coefficient == 0 {
                *exp = 0;
                encode(v)
            } else {
                let n = ndigits_u128(v.coefficient);
                proof {
                    lemma_pow10_values();
                    lemma_ndigits_le(v.coefficient as nat, 34);
                    lemma_ndigits_bound(v.coefficient as nat);
                }
                *exp = v.exponent + n as i32 - 1;
                encode(
                    DecimalValue {
                        sign: v.sign,
                        class: DecClass::Finite,
                        exponent: 1 - n as i32,
                        coefficient: v.coefficient,
                    },
                )
            }
        },
        _ => {
            *exp = 0;
            encode(v)
        },
    }
}

} // verus!
