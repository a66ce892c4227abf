//! Conversions between decimal values and machine integers. Conversions to
//! integers truncate toward zero; on overflow (or a NaN or infinite operand)
//! the signed targets give their minimum value and the unsigned targets the
//! sign-bit-only pattern, with `Invalid` raised.

use crate::codec::{decode, decode_spec, encode};
use crate::common::{BID128, DecClass, DecimalValue, FB_INVALID, dv_wf};
use crate::tens::{
    lemma_ndigits_bound, lemma_ndigits_mul_pow10, lemma_pow10_adds, lemma_pow10_increases,
    lemma_pow10_pos, lemma_pow10_strictly_increases, lemma_pow10_values, ndigits, ndigits_u128,
    pow10, pow10_u128,
};
use vstd::arithmetic::div_mod::lemma_multiply_divide_lt;
use vstd::prelude::*;

verus! {

/// Converts 32-bit signed integer to 128-bit decimal floating-point number.
pub fn bid128_from_int32(x: i32) -> (r: BID128)
    ensures
        decode_spec(r) == (DecimalValue {
            sign: x < 0,
            class: DecClass::Finite,
            exponent: 0,
            coefficient: (if x < 0 {
                -(x as int)
            } else {
                x as int
            }) as u128,
        }),
{
    proof {
        lemma_pow10_values();
    }
    let mag: u128 = if x < 0 {
        (-(x as i64)) as u128
    } else {
        x as u128
    };
    encode(DecimalValue { sign: x < 0, class: DecClass::Finite, exponent: 0, coefficient: mag })
}

/// Converts 64-bit signed integer to 128-bit decimal floating-point number.
pub fn bid128_from_int64(x: i64) -> (r: BID128)
    ensures
        decode_spec(r) == (DecimalValue {
            sign: x < 0,
            class: DecClass::Finite,
            exponent: 0,
            coefficient: (if x < 0 {
                -(x as int)
            } else {
                x as int
            }) as u128,
        }),
{
    proof {
        lemma_pow10_values();
    }
    let mag: u128 = if x < 0 {
        (-(x as i128)) as u128
    } else {
        x as u128
    };
    encode(DecimalValue { sign: x < 0, class: DecClass::Finite, exponent: 0, coefficient: mag })
}

/// Converts 32-bit unsigned integer to 128-bit decimal floating-point number.
pub fn bid128_from_uint32(x: u32) -> (r: BID128)
    ensures
        decode_spec(r) == (DecimalValue {
            sign: false,
            class: DecClass::Finite,
            exponent: 0,
            coefficient: x as u128,
        }),
{
    proof {
        lemma_pow10_values();
    }
    encode(
        DecimalValue { sign: false, class: DecClass::Finite, exponent: 0, coefficient: x as u128 },
    )
}

/// Converts 64-bit unsigned integer to 128-bit decimal floating-point number.
pub fn bid128_from_uint64(x: u64) -> (r: BID128)
    ensures
        decode_spec(r) == (DecimalValue {
            sign: false,
            class: DecClass::Finite,
            exponent: 0,
            coefficient: x as u128,
        }),
{
    proof {
        lemma_pow10_values();
    }
    encode(
        DecimalValue { sign: false, class: DecClass::Finite, exponent: 0, coefficient: x as u128 },
    )
}

/// The magnitude of a finite value truncated toward zero to an integer.
pub open spec fn trunc_mag(v: DecimalValue) -> nat {
    if v.exponent >= 0 {
        (v.coefficient as nat) * pow10(v.exponent as nat)
    } else {
        (v.coefficient as nat) / pow10((-v.exponent) as nat)
    }
}

/// The signed integer value of a finite operand truncated toward zero.
pub open spec fn trunc_val(v: DecimalValue) -> int {
    if v.sign {
        -(trunc_mag(v) as int)
    } else {
        trunc_mag(v) as int
    }
}

/// The truncated magnitude of a finite operand, saturated at `10^38`: the
/// boolean says whether the true magnitude reaches that bound (and so lies
/// outside every machine-integer range).
fn trunc_exec(v: DecimalValue) -> (out: (u128, bool))
    requires
        dv_wf(v),
        v.class == DecClass::Finite,
    ensures
        !out.1 ==> out.0 == trunc_mag(v),
        out.1 ==> trunc_mag(v) >= pow10(38),
{
    proof {
        lemma_pow10_values();
    }
    if v.coefficient == 0 {
        proof {
            if v.exponent >= 0 {
                assert((v.coefficient as nat) * pow10(v.exponent as nat) == 0) by (nonlinear_arith)
                    requires
                        v.coefficient == 0,
                ;
            } else {
                lemma_pow10_pos((-v.exponent) as nat);
            }
        }
        return (0, false);
    }
    if v.exponent >= 0 {
        let n = ndigits_u128(v.coefficient);
        proof {
            lemma_ndigits_mul_pow10(v.coefficient as nat, v.exponent as nat);
            lemma_ndigits_bound(trunc_mag(v));
            lemma_ndigits_bound(v.coefficient as nat);
        }
        if n + v.exponent as u32 > 38 {
            proof {
                lemma_pow10_increases(38, (ndigits(trunc_mag(v)) - 1) as nat);
            }
            (0, true)
        } else {
            proof {
                lemma_pow10_increases(ndigits(trunc_mag(v)), 38);
            }
            (v.coefficient * pow10_u128(v.exponent as u32), false)
        }
    } else {
        let f: i64 = -(v.exponent as i64);
        if f > 34 {
            proof {
                lemma_pow10_strictly_increases(34, f as nat);
                crate::rounding::lemma_div_of_smaller(v.coefficient as nat, f as nat);
            }
            (0, false)
        } else {
            proof {
                lemma_pow10_pos(f as nat);
                lemma_pow10_adds(f as nat, 38);
                lemma_pow10_increases(34, (f + 38) as nat);
                vstd::arithmetic::mul::lemma_mul_is_commutative(
                    pow10(f as nat) as int,
                    pow10(38) as int,
                );
                lemma_multiply_divide_lt(
                    v.coefficient as int,
                    pow10(f as nat) as int,
                    pow10(38) as int,
                );
            }
            (v.coefficient / pow10_u128(f as u32), false)
        }
    }
}

/// Convert to 32-bit signed integer with rounding-to-zero mode; inexact
/// exceptions are not signaled. Out of range, infinite and NaN operands give
/// `i32::MIN` and raise `Invalid`.
pub fn bid128_to_int32_int(x: BID128, flags: &mut u32) -> (r: i32)
    ensures
        ({
            let v = decode_spec(x);
            if v.class == DecClass::Finite && i32::MIN <= trunc_val(v) <= i32::MAX {
                r == trunc_val(v) && *final(flags) == *old(flags)
            } else {
                r == i32::MIN && *final(flags) == *old(flags) | FB_INVALID
            }
        }),
{
    let v = decode(x);
    match v.class {
        DecClass::Finite => {
            let (mag, big) = trunc_exec(v);
            proof {
                lemma_pow10_values();
            }
            if big || (v.sign && mag > 0x80000000) || (!v.sign && mag > 0x7FFFFFFF) {
                *flags = *flags | FB_INVALID;
                i32::MIN
            } else {
                if v.sign {
                    (-(mag as i64)) as i32
                } else {
                    mag as i32
                }
            }
        },
        _ => {
            *flags = *flags | FB_INVALID;
            i32::MIN
        },
    }
}

/// Convert to 32-bit unsigned integer with rounding-to-zero mode; inexact
/// exceptions are not signaled. Out of range, negative, infinite and NaN
/// operands give the sign-bit-only pattern `2^31` and raise `Invalid`.
pub fn bid128_to_uint32_int(x: BID128, flags: &mut u32) -> (r: u32)
    ensures
        ({
            let v = decode_spec(x);
            if v.class == DecClass::Finite && 0 <= trunc_val(v) <= u32::MAX {
                r == trunc_val(v) && *final(flags) == *old(flags)
            } else {
                r == 0x80000000u32 && *final(flags) == *old(flags) | FB_INVALID
            }
        }),
{
    let v = decode(x);
    match v.class {
        DecClass::Finite => {
            let (mag, big) = trunc_exec(v);
            proof {
                lemma_pow10_values();
            }
            if big || (v.sign && mag > 0) || mag > 0xFFFFFFFF {
                *flags = *flags | FB_INVALID;
                0x80000000
            } else {
                mag as u32
            }
        },
        _ => {
            *flags = *flags | FB_INVALID;
            0x80000000
        },
    }
}

/// Convert to 64-bit signed integer with rounding-to-zero mode; inexact
/// exceptions are not signaled. Out of range, infinite and NaN operands give
/// `i64::MIN` and raise `Invalid`.
pub fn bid128_to_int64_int(x: BID128, flags: &mut u32) -> (r: i64)
    ensures
        ({
            let v = decode_spec(x);
            if v.class == DecClass::Finite && i64::MIN <= trunc_val(v) <= i64::MAX {
                r == trunc_val(v) && *final(flags) == *old(flags)
            } else {
                r == i64::MIN && *final(flags) == *old(flags) | FB_INVALID
            }
        }),
{
    let v = decode(x);
    match v.class {
        DecClass::Finite => {
            let (mag, big) = trunc_exec(v);
            proof {
                lemma_pow10_values();
            }
            if big || (v.sign && mag > 0x8000000000000000) || (!v.sign && mag
                > 0x7FFFFFFFFFFFFFFF) {
                *flags = *flags | FB_INVALID;
                i64::MIN
            } else {
                if v.sign {
                    (-(mag as i128)) as i64
                } else {
                    mag as i64
                }
            }
        },
        _ => {
            *flags = *flags | FB_INVALID;
            i64::MIN
        },
    }
}

/// Convert to 64-bit unsigned integer with rounding-to-zero mode; inexact
/// exceptions are not signaled. Out of range, negative, infinite and NaN
/// operands give the sign-bit-only pattern `2^63` and raise `Invalid`.
pub fn bid128_to_uint64_int(x: BID128, flags: &mut u32) -> (r: u64)
    ensures
        ({
            let v = decode_spec(x);
            if v.class == DecClass::Finite && 0 <= trunc_val(v) <= u64::MAX {
                r == trunc_val(v) && *final(flags) == *old(flags)
            } else {
                r == 0x8000000000000000u64 && *final(flags) == *old(flags) | FB_INVALID
            }
        }),
{
    let v = decode(x);
    match v.class {
        DecClass::Finite => {
            let (mag, big) = trunc_exec(v);
            proof {
                lemma_pow10_values();
            }
            if big || (v.sign && mag > 0) || mag > 0xFFFFFFFFFFFFFFFF {
                *flags = *flags | FB_INVALID;
                0x8000000000000000
            } else {
                mag as u64
            }
        },
        _ => {
            *flags = *flags | FB_INVALID;
            0x8000000000000000
        },
    }
}

} // verus!
