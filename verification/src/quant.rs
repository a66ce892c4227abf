//! Quantization and scaling: re-expression of a value at a target exponent,
//! scaling by a power of ten, and rounding to an integral value.

use crate::bignum::big_from_u128;
use crate::codec::{decode, decode_spec, encode};
use crate::common::{
    BID128, DecClass, DecimalValue, FB_INEXACT, FB_INVALID, RM_DOWNWARD, RM_NEAREST_AWAY,
    RM_NEAREST_EVEN, RM_TOWARD_ZERO, RM_UPWARD, dv_wf, quiet_nan,
};
use crate::rounding::{deliver, deliver_spec, round_digits, rounded};
use crate::tens::{
    lemma_ndigits_bound, lemma_ndigits_le, lemma_ndigits_mul_pow10, lemma_pow10_adds,
    lemma_pow10_increases, lemma_pow10_pos, lemma_pow10_strictly_increases, lemma_pow10_values,
    ndigits, ndigits_u128, pow10, pow10_u128,
};
use vstd::arithmetic::div_mod::lemma_multiply_divide_lt;
use vstd::prelude::*;

verus! {

/// Quantization: the result has the value of `x` (up to rounding) and the
/// exponent of `y`. Raising the exponent rounds digits away and can set
/// `Inexact`; lowering it pads with zeros, and a coefficient that would need
/// more than 34 digits yields NaN and `Invalid`.
pub open spec fn quantize_spec(x: DecimalValue, y: DecimalValue, rm: u32) -> (DecimalValue, u32) {
    if x.class == DecClass::SignalingNan || y.class == DecClass::SignalingNan {
        (quiet_nan(), FB_INVALID)
    } else if x.class == DecClass::QuietNan || y.class == DecClass::QuietNan {
        (quiet_nan(), 0)
    } else if x.class == DecClass::Infinite && y.class == DecClass::Infinite {
        (x, 0)
    } else if x.class == DecClass::Infinite || y.class == DecClass::Infinite {
        (quiet_nan(), FB_INVALID)
    } else if y.exponent >= x.exponent {
        let k = (y.exponent - x.exponent) as nat;
        let q = rounded(x.coefficient as nat, k, rm, x.sign);
        let inx = (x.coefficient as nat) % pow10(k) != 0;
        (
            DecimalValue {
                sign: x.sign,
                class: DecClass::Finite,
                exponent: y.exponent,
                coefficient: q as u128,
            },
            if inx {
                FB_INEXACT
            } else {
                0
            },
        )
    } else {
        let d = (x.exponent - y.exponent) as nat;
        let c2 = (x.coefficient as nat) * pow10(d);
        if c2 >= pow10(34) {
            (quiet_nan(), FB_INVALID)
        } else {
            (
                DecimalValue {
                    sign: x.sign,
                    class: DecClass::Finite,
                    exponent: y.exponent,
                    coefficient: c2 as u128,
                },
                0,
            )
        }
    }
}

/// Rounding away `k` digits of a 34-digit coefficient leaves at most 33
/// digits, for any positive `k`.
proof fn lemma_rounded_small(c: nat, k: nat, rm: u32, sign: bool)
    requires
        c < pow10(34),
        k >= 1,
    ensures
        rounded(c, k, rm, sign) <= pow10(33),
{
    lemma_pow10_pos(k);
    if k <= 34 {
        lemma_pow10_adds(k, (34 - k) as nat);
        vstd::arithmetic::mul::lemma_mul_is_commutative(
            pow10(k) as int,
            pow10((34 - k) as nat) as int,
        );
        lemma_multiply_divide_lt(c as int, pow10(k) as int, pow10((34 - k) as nat) as int);
        lemma_pow10_increases((34 - k) as nat, 33);
    } else {
        lemma_pow10_strictly_increases(34, k);
        crate::rounding::lemma_div_of_smaller(c, k);
        lemma_pow10_pos(33);
    }
}

/// Quantization of two decoded operands.
fn quantize_decoded(x: DecimalValue, y: DecimalValue, rm: u32) -> (out: (DecimalValue, u32))
    requires
        dv_wf(x),
        dv_wf(y),
    ensures
        (out.0, out.1) == quantize_spec(x, y, rm),
        dv_wf(out.0),
{
    let nan = DecimalValue { sign: false, class: DecClass::QuietNan, exponent: 0, coefficient: 0 };
    match (x.class, y.class) {
        (DecClass::SignalingNan, _) => (nan, FB_INVALID),
        (_, DecClass::SignalingNan) => (nan, FB_INVALID),
        (DecClass::QuietNan, _) => (nan, 0),
        (_, DecClass::QuietNan) => (nan, 0),
        (DecClass::Infinite, DecClass::Infinite) => (x, 0),
        (DecClass::Infinite, _) => (nan, FB_INVALID),
        (_, DecClass::Infinite) => (nan, FB_INVALID),
        (DecClass::Finite, DecClass::Finite) => {
            if y.exponent >= x.exponent {
                let k: u64 = (y.exponent as i64 - x.exponent as i64) as u64;
                if k == 0 {
                    proof {
                        lemma_pow10_values();
                        let c = x.coefficient as nat;
                        vstd::arithmetic::div_mod::lemma_fundamental_div_mod_converse_div(
                            c as int,
                            1,
                            c as int,
                            0,
                        );
                        vstd::arithmetic::div_mod::lemma_fundamental_div_mod_converse_mod(
                            c as int,
                            1,
                            c as int,
                            0,
                        );
                        assert(rounded(c, 0, rm, x.sign) == c);
                    }
                    (
                        DecimalValue {
                            sign: x.sign,
                            class: DecClass::Finite,
                            exponent: y.exponent,
                            coefficient: x.coefficient,
                        },
                        0,
                    )
                } else {
                    let digits = big_from_u128(x.coefficient);
                    proof {
                        lemma_pow10_values();
                        lemma_pow10_adds(k as nat, 34);
                        lemma_pow10_pos(k as nat);
                        vstd::arithmetic::mul::lemma_mul_inequality(
                            1,
                            pow10(k as nat) as int,
                            pow10(34) as int,
                        );
                        lemma_rounded_small(x.coefficient as nat, k as nat, rm, x.sign);
                        lemma_pow10_strictly_increases(33, 34);
                    }
                    let (q, inx) = round_digits(&digits, k, rm, x.sign);
                    (
                        DecimalValue {
                            sign: x.sign,
                            class: DecClass::Finite,
                            exponent: y.exponent,
                            coefficient: q,
                        },
                        if inx {
                            FB_INEXACT
                        } else {
                            0
                        },
                    )
                }
            } else {
                let d: u64 = (x.exponent as i64 - y.exponent as i64) as u64;
                if x.coefficient == 0 {
                    proof {
                        assert((x.coefficient as nat) * pow10(d as nat) == 0) by (nonlinear_arith)
                            requires
                                x.coefficient == 0,
                        ;
                        lemma_pow10_pos(34);
                    }
                    (
                        DecimalValue {
                            sign: x.sign,
                            class: DecClass::Finite,
                            exponent: y.exponent,
                            coefficient: 0,
                        },
                        0,
                    )
                } else {
                    let n = ndigits_u128(x.coefficient);
                    proof {
                        lemma_ndigits_mul_pow10(x.coefficient as nat, d as nat);
                        lemma_ndigits_bound((x.coefficient as nat) * pow10(d as nat));
                        lemma_ndigits_bound(x.coefficient as nat);
                    }
                    if n as u64 + d > 34 {
                        proof {
                            let c2 = (x.coefficient as nat) * pow10(d as nat);
                            assert(ndigits(c2) >= 35);
                            lemma_pow10_increases(34, (ndigits(c2) - 1) as nat);
                        }
                        (nan, FB_INVALID)
                    } else {
                        proof {
                            let c2 = (x.coefficient as nat) * pow10(d as nat);
                            assert(ndigits(c2) <= 34);
                            lemma_pow10_increases(ndigits(c2), 34);
                            lemma_pow10_values();
                        }
                        let c2 = x.coefficient * pow10_u128(d as u32);
                        (
                            DecimalValue {
                                sign: x.sign,
                                class: DecClass::Finite,
                                exponent: y.exponent,
                                coefficient: c2,
                            },
                            0,
                        )
                    }
                }
            }
        },
    }
}

/// Returns the number which is equal in value (except for any rounding) and
/// sign to the first (left-hand) operand and which has an exponent set to be
/// equal to the exponent of the second (right-hand) operand.
pub fn bid128_quantize(x: BID128, y: BID128, round: u32, flags: &mut u32) -> (r: BID128)
    ensures
        decode_spec(r) == quantize_spec(decode_spec(x), decode_spec(y), round).0,
        *final(flags) == *old(flags) | quantize_spec(decode_spec(x), decode_spec(y), round).1,
{
    let vx = decode(x);
    let vy = decode(y);
    let (v, fl) = quantize_decoded(vx, vy, round);
    *flags = *flags | fl;
    encode(v)
}

/// Scaling by a power of ten: the exponent moves by `n` while the
/// coefficient is kept, a pure reinterpretation with no flags. Only when the
/// moved exponent leaves the representable range does the result pad, round
/// (to nearest, ties to even), overflow to infinity or underflow to zero.
pub open spec fn scalbn_spec(x: DecimalValue, n: int) -> DecimalValue {
    match x.class {
        DecClass::Finite => deliver_spec(
            x.sign,
            x.coefficient as nat,
            x.exponent + n,
            RM_NEAREST_EVEN,
        ).0,
        DecClass::Infinite => x,
        _ => quiet_nan(),
    }
}

/// Returns `x * 10^n`.
pub fn bid128_scalbn(x: BID128, n: i32) -> (r: BID128)
    ensures
        decode_spec(r) == scalbn_spec(decode_spec(x), n as int),
{
    let v = decode(x);
    match v.class {
        DecClass::Finite => {
            let digits = big_from_u128(v.coefficient);
            proof {
                lemma_ndigits_le(v.coefficient as nat, 34);
                lemma_pow10_values();
            }
            let e: i64 = v.exponent as i64 + n as i64;
            let (rv, _fl) = deliver(v.sign, digits, e, RM_NEAREST_EVEN);
            encode(rv)
        },
        DecClass::Infinite => encode(v),
        _ => encode(
            DecimalValue { sign: false, class: DecClass::QuietNan, exponent: 0, coefficient: 0 },
        ),
    }
}

/// Rounding to an integral value: a negative exponent is raised to zero by
/// rounding digits away under `rm`; a non-negative exponent is unchanged.
/// `signal` says whether a changed value sets `Inexact`.
pub open spec fn round_int_spec(v: DecimalValue, rm: u32, signal: bool) -> (DecimalValue, u32) {
    match v.class {
        DecClass::SignalingNan => (quiet_nan(), FB_INVALID),
        DecClass::QuietNan => (quiet_nan(), 0),
        DecClass::Infinite => (v, 0),
        DecClass::Finite => {
            if v.exponent >= 0 {
                (v, 0)
            } else {
                let k = (-v.exponent) as nat;
                let q = rounded(v.coefficient as nat, k, rm, v.sign);
                let inx = (v.coefficient as nat) % pow10(k) != 0;
                (
                    DecimalValue {
                        sign: v.sign,
                        class: DecClass::Finite,
                        exponent: 0,
                        coefficient: q as u128,
                    },
                    if signal && inx {
                        FB_INEXACT
                    } else {
                        0
                    },
                )
            }
        },
    }
}

/// Rounding to integral of a decoded operand.
fn round_int_decoded(v: DecimalValue, rm: u32, signal: bool) -> (out: (DecimalValue, u32))
    requires
        dv_wf(v),
    ensures
        (out.0, out.1) == round_int_spec(v, rm, signal),
        dv_wf(out.0),
{
    let nan = DecimalValue { sign: false, class: DecClass::QuietNan, exponent: 0, coefficient: 0 };
    match v.class {
        DecClass::SignalingNan => (nan, FB_INVALID),
        DecClass::QuietNan => (nan, 0),
        DecClass::Infinite => (v, 0),
        DecClass::Finite => {
            if v.exponent >= 0 {
                (v, 0)
            } else {
                let k: u64 = (-(v.exponent as i64)) as u64;
                let digits = big_from_u128(v.coefficient);
                proof {
                    lemma_pow10_values();
                    lemma_pow10_adds(k as nat, 34);
                    lemma_pow10_pos(k as nat);
                    vstd::arithmetic::mul::lemma_mul_inequality(
                        1,
                        pow10(k as nat) as int,
                        pow10(34) as int,
                    );
                    lemma_rounded_small(v.coefficient as nat, k as nat, rm, v.sign);
                    lemma_pow10_strictly_increases(33, 34);
                }
                let (q, inx) = round_digits(&digits, k, rm, v.sign);
                (
                    DecimalValue { sign: v.sign, class: DecClass::Finite, exponent: 0, coefficient: q },
                    if signal && inx {
                        FB_INEXACT
                    } else {
                        0
                    },
                )
            }
        },
    }
}

/// Round to an integral value using the given rounding mode; signal inexact
/// exceptions.
pub fn bid128_round_integral_exact(x: BID128, round: u32, flags: &mut u32) -> (r: BID128)
    ensures
        decode_spec(r) == round_int_spec(decode_spec(x), round, true).0,
        *final(flags) == *old(flags) | round_int_spec(decode_spec(x), round, true).1,
{
    let v = decode(x);
    let (rv, fl) = round_int_decoded(v, round, true);
    *flags = *flags | fl;
    encode(rv)
}

/// Round to an integral value in the rounding-to-nearest-away mode; do not
/// signal inexact exceptions.
pub fn bid128_round_integral_nearest_away(x: BID128, flags: &mut u32) -> (r: BID128)
    ensures
        decode_spec(r) == round_int_spec(decode_spec(x), RM_NEAREST_AWAY, false).0,
        *final(flags) == *old(flags) | round_int_spec(decode_spec(x), RM_NEAREST_AWAY, false).1,
{
    let v = decode(x);
    let (rv, fl) = round_int_decoded(v, RM_NEAREST_AWAY, false);
    *flags = *flags | fl;
    encode(rv)
}

/// Round to an integral value in the rounding-to-nearest-even mode; do not
/// signal inexact exceptions.
pub fn bid128_round_integral_nearest_even(x: BID128, flags: &mut u32) -> (r: BID128)
    ensures
        decode_spec(r) == round_int_spec(decode_spec(x), RM_NEAREST_EVEN, false).0,
        *final(flags) == *old(flags) | round_int_spec(decode_spec(x), RM_NEAREST_EVEN, false).1,
{
    let v = decode(x);
    let (rv, fl) = round_int_decoded(v, RM_NEAREST_EVEN, false);
    *flags = *flags | fl;
    encode(rv)
}

/// Round to an integral value in the rounding-down mode; do not signal
/// inexact exceptions.
pub fn bid128_round_integral_negative(x: BID128, flags: &mut u32) -> (r: BID128)
    ensures
        decode_spec(r) == round_int_spec(decode_spec(x), RM_DOWNWARD, false).0,
        *final(flags) == *old(flags) | round_int_spec(decode_spec(x), RM_DOWNWARD, false).1,
{
    let v = decode(x);
    let (rv, fl) = round_int_decoded(v, RM_DOWNWARD, false);
    *flags = *flags | fl;
    encode(rv)
}

/// Round to an integral value in the rounding-up mode; do not signal inexact
/// exceptions.
pub fn bid128_round_integral_positive(x: BID128, flags: &mut u32) -> (r: BID128)
    ensures
        decode_spec(r) == round_int_spec(decode_spec(x), RM_UPWARD, false).0,
        *final(flags) == *old(flags) | round_int_spec(decode_spec(x), RM_UPWARD, false).1,
{
    let v = decode(x);
    let (rv, fl) = round_int_decoded(v, RM_UPWARD, false);
    *flags = *flags | fl;
    encode(rv)
}

/// Round to an integral value in the rounding-to-zero mode; do not signal
/// inexact exceptions.
pub fn bid128_round_integral_zero(x: BID128, flags: &mut u32) -> (r: BID128)
    ensures
        decode_spec(r) == round_int_spec(decode_spec(x), RM_TOWARD_ZERO, false).0,
        *final(flags) == *old(flags) | round_int_spec(decode_spec(x), RM_TOWARD_ZERO, false).1,
{
    let v = decode(x);
    let (rv, fl) = round_int_decoded(v, RM_TOWARD_ZERO, false);
    *flags = *flags | fl;
    encode(rv)
}

} // verus!
