//! Quiet comparison and minimum/maximum. Numeric comparison is
//! cohort-insensitive: members of one cohort compare equal. A signaling NaN
//! operand raises `Invalid`; a quiet NaN makes the operands unordered (every
//! quiet predicate is false) without a flag.

use crate::arith::{min_exp, sval};
use crate::bignum::big_cmp;
use crate::codec::{decode, decode_spec, encode};
use crate::common::{BID128, DecClass, DecimalValue, FB_INVALID, dv_wf};
use crate::tens::{lemma_pow10_pos, pow10};
use vstd::arithmetic::mul::lemma_mul_strictly_positive;
use vstd::prelude::*;

verus! {

/// Three-way numeric order of two non-NaN values: negative, zero or positive
/// as `x` is below, equal to or above `y`.
pub open spec fn cmp3(x: DecimalValue, y: DecimalValue) -> int {
    if x.class == DecClass::Infinite {
        if x.sign {
            if y.class == DecClass::Infinite && y.sign {
                0
            } else {
                -1
            }
        } else {
            if y.class == DecClass::Infinite && !y.sign {
                0
            } else {
                1
            }
        }
    } else if y.class == DecClass::Infinite {
        if y.sign {
            1
        } else {
            -1
        }
    } else {
        let m = min_exp(x, y);
        let d = sval(x, m) - sval(y, m);
        if d < 0 {
            -1
        } else if d == 0 {
            0
        } else {
            1
        }
    }
}

/// Whether either operand is a NaN (the unordered case).
pub open spec fn any_nan(x: DecimalValue, y: DecimalValue) -> bool {
    x.class == DecClass::QuietNan || x.class == DecClass::SignalingNan || y.class
        == DecClass::QuietNan || y.class == DecClass::SignalingNan
}

/// The `Invalid` flag contribution of a comparison: set exactly when a
/// signaling NaN takes part.
pub open spec fn cmp_flags(x: DecimalValue, y: DecimalValue) -> u32 {
    if x.class == DecClass::SignalingNan || y.class == DecClass::SignalingNan {
        FB_INVALID
    } else {
        0
    }
}

/// Three-way comparison of two decoded non-NaN operands.
fn cmp_decoded(x: DecimalValue, y: DecimalValue) -> (r: i32)
    requires
        dv_wf(x),
        dv_wf(y),
        x.class != DecClass::QuietNan,
        x.class != DecClass::SignalingNan,
        y.class != DecClass::QuietNan,
        y.class != DecClass::SignalingNan,
    ensures
        r == cmp3(x, y),
        -1 <= r <= 1,
{
    match (x.class, y.class) {
        (DecClass::Infinite, DecClass::Infinite) => {
            if x.sign == y.sign {
                0
            } else if x.sign {
                -1
            } else {
                1
            }
        },
        (DecClass::Infinite, _) => {
            if x.sign {
                -1
            } else {
                1
            }
        },
        (_, DecClass::Infinite) => {
            if y.sign {
                1
            } else {
                -1
            }
        },
        _ => {
            let ghost m = min_exp(x, y);
            let ghost px = pow10((x.exponent - m) as nat);
            let ghost py = pow10((y.exponent - m) as nat);
            proof {
                lemma_pow10_pos((x.exponent - m) as nat);
                lemma_pow10_pos((y.exponent - m) as nat);
                if x.coefficient > 0 {
                    lemma_mul_strictly_positive(x.coefficient as int, px as int);
                }
                if y.coefficient > 0 {
                    lemma_mul_strictly_positive(y.coefficient as int, py as int);
                }
                if x.coefficient == 0 {
                    assert((x.coefficient as int) * px == 0) by (nonlinear_arith)
                        requires
                            x.coefficient == 0,
                    ;
                }
                if y.coefficient == 0 {
                    assert((y.coefficient as int) * py == 0) by (nonlinear_arith)
                        requires
                            y.coefficient == 0,
                    ;
                }
            }
            if x.coefficient == 0 && y.coefficient == 0 {
                0
            } else if x.coefficient == 0 {
                if y.sign {
                    1
                } else {
                    -1
                }
            } else if y.coefficient == 0 {
                if x.sign {
                    -1
                } else {
                    1
                }
            } else if x.sign != y.sign {
                if x.sign {
                    -1
                } else {
                    1
                }
            } else {
                let me: i64 = if x.exponent <= y.exponent {
                    x.exponent as i64
                } else {
                    y.exponent as i64
                };
                let ax = crate::arith::align(x, me);
                let ay = crate::arith::align(y, me);
                let c = big_cmp(&ax, &ay);
                if c == 0 {
                    0
                } else if (c > 0) == !x.sign {
                    1
                } else {
                    -1
                }
            }
        },
    }
}

/// Compares for equality; quiet NaNs make the operands unordered without a
/// flag, a signaling NaN raises `Invalid`.
pub fn bid128_quiet_equal(x: BID128, y: BID128, flags: &mut u32) -> (r: bool)
    ensures
        ({
            let vx = decode_spec(x);
            let vy = decode_spec(y);
            r == (!any_nan(vx, vy) && cmp3(vx, vy) == 0) && *final(flags) == *old(flags)
                | cmp_flags(vx, vy)
        }),
{
    let vx = decode(x);
    let vy = decode(y);
    if nan_flags(vx, vy, flags) {
        return false;
    }
    cmp_decoded(vx, vy) == 0
}

/// Compares for the greater relation, quietly.
pub fn bid128_quiet_greater(x: BID128, y: BID128, flags: &mut u32) -> (r: bool)
    ensures
        ({
            let vx = decode_spec(x);
            let vy = decode_spec(y);
            r == (!any_nan(vx, vy) && cmp3(vx, vy) > 0) && *final(flags) == *old(flags)
                | cmp_flags(vx, vy)
        }),
{
    let vx = decode(x);
    let vy = decode(y);
    if nan_flags(vx, vy, flags) {
        return false;
    }
    cmp_decoded(vx, vy) > 0
}

/// Compares for the greater-or-equal relation, quietly.
pub fn bid128_quiet_greater_equal(x: BID128, y: BID128, flags: &mut u32) -> (r: bool)
    ensures
        ({
            let vx = decode_spec(x);
            let vy = decode_spec(y);
            r == (!any_nan(vx, vy) && cmp3(vx, vy) >= 0) && *final(flags) == *old(flags)
                | cmp_flags(vx, vy)
        }),
{
    let vx = decode(x);
    let vy = decode(y);
    if nan_flags(vx, vy, flags) {
        return false;
    }
    cmp_decoded(vx, vy) >= 0
}

/// Compares for the less relation, quietly.
pub fn bid128_quiet_less(x: BID128, y: BID128, flags: &mut u32) -> (r: bool)
    ensures
        ({
            let vx = decode_spec(x);
            let vy = decode_spec(y);
            r == (!any_nan(vx, vy) && cmp3(vx, vy) < 0) && *final(flags) == *old(flags)
                | cmp_flags(vx, vy)
        }),
{
    let vx = decode(x);
    let vy = decode(y);
    if nan_flags(vx, vy, flags) {
        return false;
    }
    cmp_decoded(vx, vy) < 0
}

/// Compares for the less-or-equal relation, quietly.
pub fn bid128_quiet_less_equal(x: BID128, y: BID128, flags: &mut u32) -> (r: bool)
    ensures
        ({
            let vx = decode_spec(x);
            let vy = decode_spec(y);
            r == (!any_nan(vx, vy) && cmp3(vx, vy) <= 0) && *final(flags) == *old(flags)
                | cmp_flags(vx, vy)
        }),
{
    let vx = decode(x);
    let vy = decode(y);
    if nan_flags(vx, vy, flags) {
        return false;
    }
    cmp_decoded(vx, vy) <= 0
}

/// Raises `Invalid` for a signaling NaN operand and reports whether either
/// operand is a NaN.
fn nan_flags(vx: DecimalValue, vy: DecimalValue, flags: &mut u32) -> (r: bool)
    ensures
        r == any_nan(vx, vy),
        *final(flags) == *old(flags) | cmp_flags(vx, vy),
{
    let sig = matches!(vx.class, DecClass::SignalingNan) || matches!(
        vy.class,
        DecClass::SignalingNan,
    );
    let fl: u32 = if sig {
        FB_INVALID
    } else {
        0
    };
    *flags = *flags | fl;
    matches!(vx.class, DecClass::QuietNan) || matches!(vy.class, DecClass::QuietNan) || sig
}

/// The minimum: the smaller operand, kept with its own quantum. A single
/// quiet NaN gives way to the number; a signaling NaN raises `Invalid` and
/// gives NaN. Equal values (one cohort) give the first operand.
pub open spec fn minnum_spec(x: DecimalValue, y: DecimalValue) -> (DecimalValue, u32) {
    if x.class == DecClass::SignalingNan || y.class == DecClass::SignalingNan {
        (crate::common::quiet_nan(), FB_INVALID)
    } else if x.class == DecClass::QuietNan && y.class == DecClass::QuietNan {
        (crate::common::quiet_nan(), 0)
    } else if x.class == DecClass::QuietNan {
        (y, 0)
    } else if y.class == DecClass::QuietNan {
        (x, 0)
    } else if cmp3(x, y) <= 0 {
        (x, 0)
    } else {
        (y, 0)
    }
}

/// The maximum, dual to [`minnum_spec`].
pub open spec fn maxnum_spec(x: DecimalValue, y: DecimalValue) -> (DecimalValue, u32) {
    if x.class == DecClass::SignalingNan || y.class == DecClass::SignalingNan {
        (crate::common::quiet_nan(), FB_INVALID)
    } else if x.class == DecClass::QuietNan && y.class == DecClass::QuietNan {
        (crate::common::quiet_nan(), 0)
    } else if x.class == DecClass::QuietNan {
        (y, 0)
    } else if y.class == DecClass::QuietNan {
        (x, 0)
    } else if cmp3(x, y) >= 0 {
        (x, 0)
    } else {
        (y, 0)
    }
}

/// Returns the smaller operand; a quiet NaN gives way to a number.
pub fn bid128_minnum(x: BID128, y: BID128, flags: &mut u32) -> (r: BID128)
    ensures
        decode_spec(r) == minnum_spec(decode_spec(x), decode_spec(y)).0,
        *final(flags) == *old(flags) | minnum_spec(decode_spec(x), decode_spec(y)).1,
{
    let vx = decode(x);
    let vy = decode(y);
    let nan = DecimalValue { sign: false, class: DecClass::QuietNan, exponent: 0, coefficient: 0 };
    let (v, fl): (DecimalValue, u32) = match (vx.class, vy.class) {
        (DecClass::SignalingNan, _) => (nan, FB_INVALID),
        (_, DecClass::SignalingNan) => (nan, FB_INVALID),
        (DecClass::QuietNan, DecClass::QuietNan) => (nan, 0),
        (DecClass::QuietNan, _) => (vy, 0),
        (_, DecClass::QuietNan) => (vx, 0),
        _ => {
            if cmp_decoded(vx, vy) <= 0 {
                (vx, 0)
            } else {
                (vy, 0)
            }
        },
    };
    *flags = *flags | fl;
    encode(v)
}

/// Returns the larger operand; a quiet NaN gives way to a number.
pub fn bid128_maxnum(x: BID128, y: BID128, flags: &mut u32) -> (r: BID128)
    ensures
        decode_spec(r) == maxnum_spec(decode_spec(x), decode_spec(y)).0,
        *final(flags) == *old(flags) | maxnum_spec(decode_spec(x), decode_spec(y)).1,
{
    let vx = decode(x);
    let vy = decode(y);
    let nan = DecimalValue { sign: false, class: DecClass::QuietNan, exponent: 0, coefficient: 0 };
    let (v, fl): (DecimalValue, u32) = match (vx.class, vy.class) {
        (DecClass::SignalingNan, _) => (nan, FB_INVALID),
        (_, DecClass::SignalingNan) => (nan, FB_INVALID),
        (DecClass::QuietNan, DecClass::QuietNan) => (nan, 0),
        (DecClass::QuietNan, _) => (vy, 0),
        (_, DecClass::QuietNan) => (vx, 0),
        _ => {
            if cmp_decoded(vx, vy) >= 0 {
                (vx, 0)
            } else {
                (vy, 0)
            }
        },
    };
    *flags = *flags | fl;
    encode(v)
}

} // verus!
