//! The arithmetic core: addition, subtraction and multiplication. Operands
//! are aligned to a common exponent, combined exactly as big integers, and
//! the result is delivered through the rounding policy.
//!
//! Addition and multiplication are commutative (proved in [`crate::laws`]).
//! They are not associative, and no associativity is claimed: every pairwise
//! result is rounded to 34 digits before the next operation, so grouping a
//! chain of sums or products differently can change the outcome.

use crate::bignum::{
    big_add, big_cmp, big_from_u128, big_mul, big_shl, big_sub, big_val, digits_ok,
};
use crate::codec::{decode, decode_spec, encode};
use crate::common::{
    BID128, DecClass, DecimalValue, E_MAX, E_MIN, FB_INVALID, RM_DOWNWARD, dv_wf, quiet_nan,
};
use crate::rounding::{deliver, deliver_spec, infinity};
use crate::tens::{
    lemma_ndigits_le, lemma_pow10_adds, lemma_pow10_increases, lemma_pow10_pos, lemma_pow10_values,
    pow10,
};
use vstd::arithmetic::mul::{
    lemma_mul_is_commutative, lemma_mul_strict_inequality, lemma_mul_strictly_positive,
};
use vstd::prelude::*;

verus! {

/// The signed integer value of a finite `v`, scaled to the base exponent
/// `m`: `(-1)^sign * coefficient * 10^(exponent - m)`.
pub open spec fn sval(v: DecimalValue, m: int) -> int {
    let mag = (v.coefficient as int) * pow10((v.exponent - m) as nat);
    if v.sign {
        -mag
    } else {
        mag
    }
}

/// The smaller of two exponents.
pub open spec fn min_exp(x: DecimalValue, y: DecimalValue) -> int {
    if x.exponent <= y.exponent {
        x.exponent as int
    } else {
        y.exponent as int
    }
}

/// Decimal addition: special operands are handled as IEEE 754-2008 asks
/// (a signaling NaN or the indeterminate `∞ − ∞` is `Invalid`); finite
/// operands are aligned to the smaller exponent, summed exactly, and the sum
/// is delivered through the rounding policy. A sum that cancels to exact
/// zero is positive under every mode but `Downward`, which yields `-0`.
pub open spec fn add_spec(x: DecimalValue, y: DecimalValue, rm: u32) -> (DecimalValue, u32) {
    if x.class == DecClass::SignalingNan || y.class == DecClass::SignalingNan {
        (quiet_nan(), FB_INVALID)
    } else if x.class == DecClass::QuietNan || y.class == DecClass::QuietNan {
        (quiet_nan(), 0)
    } else if x.class == DecClass::Infinite && y.class == DecClass::Infinite {
        if x.sign == y.sign {
            (infinity(x.sign), 0)
        } else {
            (quiet_nan(), FB_INVALID)
        }
    } else if x.class == DecClass::Infinite {
        (infinity(x.sign), 0)
    } else if y.class == DecClass::Infinite {
        (infinity(y.sign), 0)
    } else {
        let m = min_exp(x, y);
        let s = sval(x, m) + sval(y, m);
        if s == 0 {
            let sign = if x.coefficient == 0 && y.coefficient == 0 && x.sign == y.sign {
                x.sign
            } else {
                rm == RM_DOWNWARD
            };
            (
                DecimalValue { sign, class: DecClass::Finite, exponent: m as i32, coefficient: 0 },
                0,
            )
        } else {
            deliver_spec(s < 0, vstd::math::abs(s) as nat, m, rm)
        }
    }
}

/// Decimal subtraction is addition of the negated second operand.
pub open spec fn sub_spec(x: DecimalValue, y: DecimalValue, rm: u32) -> (DecimalValue, u32) {
    add_spec(x, crate::classify::negv(y), rm)
}

/// Decimal multiplication: `∞ × 0` is `Invalid`; otherwise the coefficients
/// are multiplied exactly, the exponents added, and the product delivered
/// through the rounding policy. The sign is the exclusive-or of the signs.
pub open spec fn mul_spec(x: DecimalValue, y: DecimalValue, rm: u32) -> (DecimalValue, u32) {
    if x.class == DecClass::SignalingNan || y.class == DecClass::SignalingNan {
        (quiet_nan(), FB_INVALID)
    } else if x.class == DecClass::QuietNan || y.class == DecClass::QuietNan {
        (quiet_nan(), 0)
    } else if x.class == DecClass::Infinite || y.class == DecClass::Infinite {
        if (x.class == DecClass::Finite && x.coefficient == 0) || (y.class == DecClass::Finite
            && y.coefficient == 0) {
            (quiet_nan(), FB_INVALID)
        } else {
            (infinity(x.sign != y.sign), 0)
        }
    } else {
        deliver_spec(
            x.sign != y.sign,
            (x.coefficient as nat) * (y.coefficient as nat),
            x.exponent + y.exponent,
            rm,
        )
    }
}

/// An aligned coefficient is the operand's coefficient scaled by the
/// exponent difference; its digit vector and the bound on its digit count.
pub(crate) fn align(v: DecimalValue, m: i64) -> (r: Vec<u8>)
    requires
        dv_wf(v),
        v.class == DecClass::Finite,
        E_MIN <= m <= v.exponent,
    ensures
        digits_ok(r@),
        big_val(r@) == (v.coefficient as nat) * pow10((v.exponent - m) as nat),
        big_val(r@) < pow10((34 + v.exponent - m) as nat),
{
    let d: usize = (v.exponent as i64 - m) as usize;
    let c = big_from_u128(v.coefficient);
    let r = big_shl(c, d);
    proof {
        lemma_mul_is_commutative(pow10(d as nat) as int, v.coefficient as int);
        lemma_pow10_adds(34, d as nat);
        lemma_pow10_pos(d as nat);
        lemma_mul_strict_inequality(
            v.coefficient as int,
            pow10(34) as int,
            pow10(d as nat) as int,
        );
        if v.coefficient == 0 {
            assert((v.coefficient as nat) * pow10(d as nat) == 0) by (nonlinear_arith)
                requires
                    v.coefficient == 0,
            ;
            lemma_pow10_pos((34 + v.exponent - m) as nat);
        }
    }
    r
}

/// Addition of two decoded operands.
#[verifier::rlimit(100)]
fn add_decoded(x: DecimalValue, y: DecimalValue, rm: u32) -> (out: (DecimalValue, u32))
    requires
        dv_wf(x),
        dv_wf(y),
    ensures
        (out.0, out.1) == add_spec(x, y, rm),
        dv_wf(out.0),
{
    let nan = DecimalValue { sign: false, class: DecClass::QuietNan, exponent: 0, coefficient: 0 };
    match (x.class, y.class) {
        (DecClass::SignalingNan, _) => (nan, FB_INVALID),
        (_, DecClass::SignalingNan) => (nan, FB_INVALID),
        (DecClass::QuietNan, _) => (nan, 0),
        (_, DecClass::QuietNan) => (nan, 0),
        (DecClass::Infinite, DecClass::Infinite) => {
            if x.sign == y.sign {
                (
                    DecimalValue { sign: x.sign, class: DecClass::Infinite, exponent: 0, coefficient: 0 },
                    0,
                )
            } else {
                (nan, FB_INVALID)
            }
        },
        (DecClass::Infinite, _) => (
            DecimalValue { sign: x.sign, class: DecClass::Infinite, exponent: 0, coefficient: 0 },
            0,
        ),
        (_, DecClass::Infinite) => (
            DecimalValue { sign: y.sign, class: DecClass::Infinite, exponent: 0, coefficient: 0 },
            0,
        ),
        (DecClass::Finite, DecClass::Finite) => {
            let m: i64 = if x.exponent <= y.exponent {
                x.exponent as i64
            } else {
                y.exponent as i64
            };
            let ghost mm = min_exp(x, y);
            let ax = align(x, m);
            let ay = align(y, m);
            let ghost vx = (x.coefficient as nat) * pow10((x.exponent - mm) as nat);
            let ghost vy = (y.coefficient as nat) * pow10((y.exponent - mm) as nat);
            let ghost s = sval(x, mm) + sval(y, mm);
            proof {
                lemma_pow10_values();
                assert(big_val(ax@) < pow10((34 + 12288) as nat)) by {
                    lemma_pow10_increases((34 + x.exponent - mm) as nat, 12322);
                }
                assert(big_val(ay@) < pow10(12322)) by {
                    lemma_pow10_increases((34 + y.exponent - mm) as nat, 12322);
                }
            }
            if x.sign == y.sign {
                let sum = big_add(&ax, &ay);
                proof {
                    assert(big_val(sum@) < pow10(12323)) by {
                        lemma_pow10_increases(12322, 12323);
                        assert(pow10(12323) == 10 * pow10(12322));
                    }
                    lemma_ndigits_le(big_val(sum@), 12323);
                    assert(s == if x.sign {
                        -((vx + vy) as int)
                    } else {
                        (vx + vy) as int
                    });
                }
                let (v, fl) = deliver(x.sign, sum, m, rm);
                proof {
                    if vx + vy == 0 {
                        assert(x.coefficient == 0 && y.coefficient == 0) by {
                            lemma_pow10_pos((x.exponent - mm) as nat);
                            lemma_pow10_pos((y.exponent - mm) as nat);
                            if x.coefficient > 0 {
                                lemma_mul_strictly_positive(
                                    x.coefficient as int,
                                    pow10((x.exponent - mm) as nat) as int,
                                );
                            }
                            if y.coefficient > 0 {
                                lemma_mul_strictly_positive(
                                    y.coefficient as int,
                                    pow10((y.exponent - mm) as nat) as int,
                                );
                            }
                        }
                        assert(E_MIN <= mm <= E_MAX);
                    }
                }
                (v, fl)
            } else {
                let c = big_cmp(&ax, &ay);
                if c == 0 {
                    let sign = rm == RM_DOWNWARD;
                    proof {
                        assert(s == 0);
                        assert(!(x.coefficient == 0 && y.coefficient == 0 && x.sign == y.sign));
                        assert(E_MIN <= mm <= E_MAX);
                    }
                    (
                        DecimalValue {
                            sign,
                            class: DecClass::Finite,
                            exponent: m as i32,
                            coefficient: 0,
                        },
                        0,
                    )
                } else if c > 0 {
                    let diff = big_sub(&ax, &ay);
                    proof {
                        assert(big_val(diff@) == vx - vy);
                        assert(s == if x.sign {
                            -((vx - vy) as int)
                        } else {
                            (vx - vy) as int
                        });
                        assert(s != 0);
                        assert((s < 0) == x.sign);
                        assert(vstd::math::abs(s) == vx - vy);
                        lemma_ndigits_le(big_val(diff@), 12322);
                    }
                    let (v, fl) = deliver(x.sign, diff, m, rm);
                    (v, fl)
                } else {
                    let diff = big_sub(&ay, &ax);
                    proof {
                        assert(big_val(diff@) == vy - vx);
                        assert(s == if y.sign {
                            -((vy - vx) as int)
                        } else {
                            (vy - vx) as int
                        });
                        assert(s != 0);
                        assert((s < 0) == y.sign);
                        assert(vstd::math::abs(s) == vy - vx);
                        lemma_ndigits_le(big_val(diff@), 12322);
                    }
                    let (v, fl) = deliver(y.sign, diff, m, rm);
                    (v, fl)
                }
            }
        },
    }
}

/// Returns a result of decimal floating-point addition,
/// [Decimal128] + [Decimal128] -> [Decimal128].
pub fn bid128_add(x: BID128, y: BID128, round: u32, flags: &mut u32) -> (r: BID128)
    ensures
        decode_spec(r) == add_spec(decode_spec(x), decode_spec(y), round).0,
        *final(flags) == *old(flags) | add_spec(decode_spec(x), decode_spec(y), round).1,
{
    let vx = decode(x);
    let vy = decode(y);
    let (v, fl) = add_decoded(vx, vy, round);
    *flags = *flags | fl;
    encode(v)
}

/// Returns a result of decimal floating-point subtraction,
/// [Decimal128] - [Decimal128] -> [Decimal128].
pub fn bid128_sub(x: BID128, y: BID128, round: u32, flags: &mut u32) -> (r: BID128)
    ensures
        decode_spec(r) == sub_spec(decode_spec(x), decode_spec(y), round).0,
        *final(flags) == *old(flags) | sub_spec(decode_spec(x), decode_spec(y), round).1,
{
    let vx = decode(x);
    let vy = decode(y);
    let ny = match vy.class {
        DecClass::QuietNan => vy,
        DecClass::SignalingNan => vy,
        _ => DecimalValue { sign: !vy.sign, ..vy },
    };
    proof {
        assert(ny == crate::classify::negv(vy));
    }
    let (v, fl) = add_decoded(vx, ny, round);
    *flags = *flags | fl;
    encode(v)
}

/// Returns a result of decimal floating-point multiplication,
/// [Decimal128] * [Decimal128] -> [Decimal128].
pub fn bid128_mul(x: BID128, y: BID128, round: u32, flags: &mut u32) -> (r: BID128)
    ensures
        decode_spec(r) == mul_spec(decode_spec(x), decode_spec(y), round).0,
        *final(flags) == *old(flags) | mul_spec(decode_spec(x), decode_spec(y), round).1,
{
    let vx = decode(x);
    let vy = decode(y);
    let (v, fl) = mul_decoded(vx, vy, round);
    *flags = *flags | fl;
    encode(v)
}

/// Multiplication of two decoded operands.
fn mul_decoded(x: DecimalValue, y: DecimalValue, rm: u32) -> (out: (DecimalValue, u32))
    requires
        dv_wf(x),
        dv_wf(y),
    ensures
        (out.0, out.1) == mul_spec(x, y, rm),
        dv_wf(out.0),
{
    let nan = DecimalValue { sign: false, class: DecClass::QuietNan, exponent: 0, coefficient: 0 };
    match (x.class, y.class) {
        (DecClass::SignalingNan, _) => (nan, FB_INVALID),
        (_, DecClass::SignalingNan) => (nan, FB_INVALID),
        (DecClass::QuietNan, _) => (nan, 0),
        (_, DecClass::QuietNan) => (nan, 0),
        (DecClass::Infinite, DecClass::Infinite) => (
            DecimalValue {
                sign: x.sign != y.sign,
                class: DecClass::Infinite,
                exponent: 0,
                coefficient: 0,
            },
            0,
        ),
        (DecClass::Infinite, DecClass::Finite) => {
            if y.coefficient == 0 {
                (nan, FB_INVALID)
            } else {
                (
                    DecimalValue {
                        sign: x.sign != y.sign,
                        class: DecClass::Infinite,
                        exponent: 0,
                        coefficient: 0,
                    },
                    0,
                )
            }
        },
        (DecClass::Finite, DecClass::Infinite) => {
            if x.coefficient == 0 {
                (nan, FB_INVALID)
            } else {
                (
                    DecimalValue {
                        sign: x.sign != y.sign,
                        class: DecClass::Infinite,
                        exponent: 0,
                        coefficient: 0,
                    },
                    0,
                )
            }
        },
        (DecClass::Finite, DecClass::Finite) => {
            let bx = big_from_u128(x.coefficient);
            let by = big_from_u128(y.coefficient);
            let prod = big_mul(&bx, &by);
            proof {
                lemma_pow10_values();
                lemma_pow10_adds(34, 34);
                assert((x.coefficient as nat) * (y.coefficient as nat) < pow10(34) * pow10(34))
                    by (nonlinear_arith)
                    requires
                        x.coefficient < pow10(34),
                        y.coefficient < pow10(34),
                        pow10(34) > 0,
                ;
                assert(big_val(prod@) < pow10(68));
                lemma_ndigits_le(big_val(prod@), 68);
            }
            let e: i64 = x.exponent as i64 + y.exponent as i64;
            let (v, fl) = deliver(x.sign != y.sign, prod, e, rm);
            (v, fl)
        },
    }
}

} // verus!
