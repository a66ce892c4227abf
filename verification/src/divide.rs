//! Division, remainder and square root. Division performs decimal long
//! division with guard digits beyond the 34th and a sticky digit, so the
//! delivered result is rounded from the exact quotient; the remainder is
//! exact; the square root is correctly rounded from the integer square root
//! of the scaled coefficient.

use crate::bignum::{
    big_add, big_cmp, big_divmod, big_from_u128, big_is_zero, big_mul, big_shl, big_to_u128,
    big_trim, big_val, digits_ok, lemma_big_val_bound, lemma_skip_index,
};
use crate::codec::{decode, decode_spec, encode};
use crate::common::{
    BID128, DecClass, DecimalValue, E_MAX, E_MIN, FB_INEXACT, FB_INVALID, FB_ZERO_DIVIDE,
    RM_DOWNWARD, RM_TOWARD_ZERO, RM_UPWARD, dv_wf, quiet_nan,
};
use crate::rounding::{clamp_exp, deliver, deliver_spec, infinity};
use crate::tens::{
    lemma_ndigits_bound, lemma_ndigits_le, lemma_pow10_adds, lemma_pow10_increases,
    lemma_pow10_pos, lemma_pow10_strictly_increases, lemma_pow10_values, ndigits, ndigits_u128, pow10_u128,
    pow10,
};
use vstd::arithmetic::div_mod::{
    lemma_fundamental_div_mod_converse_div, lemma_fundamental_div_mod_converse_mod,
};
use vstd::arithmetic::mul::{
    lemma_mul_inequality, lemma_mul_is_commutative, lemma_mul_strictly_positive,
};
use vstd::prelude::*;

verus! {

/// Strips trailing zero digits of a coefficient, raising the exponent, but
/// never beyond the preferred exponent `limit`.
pub open spec fn strip_spec(c: nat, e: int, limit: int) -> (nat, int)
    decreases c,
{
    if c > 0 && c % 10 == 0 && e < limit {
        strip_spec(c / 10, e + 1, limit)
    } else {
        (c, e)
    }
}

/// Executable stripping of trailing zeros toward the preferred exponent.
fn strip_exec(q: Vec<u8>, e: i64, limit: i64) -> (out: (Vec<u8>, i64))
    requires
        digits_ok(q@),
        -100000 <= e <= limit <= 100000,
    ensures
        digits_ok(out.0@),
        (big_val(out.0@), out.1 as int) == strip_spec(big_val(q@), e as int, limit as int),
        e <= out.1 <= limit,
        out.0@.len() <= q@.len(),
{
    let ghost c0 = big_val(q@);
    let mut qv = q;
    let mut ec = e;
    if big_is_zero(&qv) {
        return (qv, ec);
    }
    while qv.len() > 0 && qv[0] == 0 && ec < limit
        invariant
            digits_ok(qv@),
            big_val(qv@) > 0,
            e <= ec <= limit,
            qv@.len() <= q@.len(),
            strip_spec(c0, e as int, limit as int) == strip_spec(
                big_val(qv@),
                ec as int,
                limit as int,
            ),
        decreases qv@.len(),
    {
        let ghost old_q = qv@;
        proof {
            lemma_skip_index(old_q, 0);
            assert(old_q.skip(0) =~= old_q);
            assert(big_val(old_q) == 10 * big_val(old_q.skip(1)));
            vstd::arithmetic::div_mod::lemma_fundamental_div_mod_converse_div(
                big_val(old_q) as int,
                10,
                big_val(old_q.skip(1)) as int,
                0,
            );
            vstd::arithmetic::div_mod::lemma_fundamental_div_mod_converse_mod(
                big_val(old_q) as int,
                10,
                big_val(old_q.skip(1)) as int,
                0,
            );
            assert(big_val(old_q) % 10 == 0);
            assert(big_val(old_q) / 10 == big_val(old_q.skip(1)));
            assert(old_q.remove(0) =~= old_q.skip(1));
        }
        qv.remove(0);
        ec = ec + 1;
    }
    proof {
        if qv@.len() > 0 && qv@[0] != 0 {
            lemma_skip_index(qv@, 0);
            assert(qv@.skip(0) =~= qv@);
            vstd::arithmetic::div_mod::lemma_fundamental_div_mod_converse_mod(
                big_val(qv@) as int,
                10,
                big_val(qv@.skip(1)) as int,
                qv@[0] as int,
            );
            assert(big_val(qv@) % 10 != 0);
        }
    }
    (qv, ec)
}

/// Decimal division: `x/0` with nonzero `x` is a signed infinity with
/// `ZeroDivide`, `0/0` and `∞/∞` are `Invalid`. A finite quotient is
/// computed by long division with two guard digits and a sticky digit and
/// delivered through the rounding policy; an exact quotient is re-expressed
/// as close to the preferred exponent (the difference of the operand
/// exponents) as its trailing zeros allow.
pub open spec fn div_spec(x: DecimalValue, y: DecimalValue, rm: u32) -> (DecimalValue, u32) {
    if x.class == DecClass::SignalingNan || y.class == DecClass::SignalingNan {
        (quiet_nan(), FB_INVALID)
    } else if x.class == DecClass::QuietNan || y.class == DecClass::QuietNan {
        (quiet_nan(), 0)
    } else if x.class == DecClass::Infinite {
        if y.class == DecClass::Infinite {
            (quiet_nan(), FB_INVALID)
        } else {
            (infinity(x.sign != y.sign), 0)
        }
    } else if y.class == DecClass::Infinite {
        (
            DecimalValue {
                sign: x.sign != y.sign,
                class: DecClass::Finite,
                exponent: E_MIN,
                coefficient: 0,
            },
            0,
        )
    } else if y.coefficient == 0 {
        if x.coefficient == 0 {
            (quiet_nan(), FB_INVALID)
        } else {
            (infinity(x.sign != y.sign), FB_ZERO_DIVIDE)
        }
    } else if x.coefficient == 0 {
        (
            DecimalValue {
                sign: x.sign != y.sign,
                class: DecClass::Finite,
                exponent: clamp_exp(x.exponent - y.exponent) as i32,
                coefficient: 0,
            },
            0,
        )
    } else {
        let t = (ndigits(y.coefficient as nat) + 36 - ndigits(x.coefficient as nat)) as nat;
        let sc = (x.coefficient as nat) * pow10(t);
        let qq = sc / (y.coefficient as nat);
        let rr = sc % (y.coefficient as nat);
        let e0 = x.exponent - y.exponent - t;
        if rr == 0 {
            let se = strip_spec(qq, e0, x.exponent - y.exponent);
            deliver_spec(x.sign != y.sign, se.0, se.1, rm)
        } else {
            deliver_spec(x.sign != y.sign, qq * 10 + 1, e0 - 1, rm)
        }
    }
}

/// Division of two decoded operands.
#[verifier::rlimit(100)]
fn div_decoded(x: DecimalValue, y: DecimalValue, rm: u32) -> (out: (DecimalValue, u32))
    requires
        dv_wf(x),
        dv_wf(y),
    ensures
        (out.0, out.1) == div_spec(x, y, rm),
        dv_wf(out.0),
{
    let nan = DecimalValue { sign: false, class: DecClass::QuietNan, exponent: 0, coefficient: 0 };
    match (x.class, y.class) {
        (DecClass::SignalingNan, _) => (nan, FB_INVALID),
        (_, DecClass::SignalingNan) => (nan, FB_INVALID),
        (DecClass::QuietNan, _) => (nan, 0),
        (_, DecClass::QuietNan) => (nan, 0),
        (DecClass::Infinite, DecClass::Infinite) => (nan, FB_INVALID),
        (DecClass::Infinite, _) => (
            DecimalValue {
                sign: x.sign != y.sign,
                class: DecClass::Infinite,
                exponent: 0,
                coefficient: 0,
            },
            0,
        ),
        (_, DecClass::Infinite) => (
            DecimalValue {
                sign: x.sign != y.sign,
                class: DecClass::Finite,
                exponent: E_MIN,
                coefficient: 0,
            },
            0,
        ),
        (DecClass::Finite, DecClass::Finite) => {
            if y.coefficient == 0 {
                if x.coefficient == 0 {
                    (nan, FB_INVALID)
                } else {
                    (
                        DecimalValue {
                            sign: x.sign != y.sign,
                            class: DecClass::Infinite,
                            exponent: 0,
                            coefficient: 0,
                        },
                        FB_ZERO_DIVIDE,
                    )
                }
            } else if x.coefficient == 0 {
                let ecl: i64 = x.exponent as i64 - y.exponent as i64;
                let ec: i32 = if ecl < E_MIN as i64 {
                    E_MIN
                } else if ecl > E_MAX as i64 {
                    E_MAX
                } else {
                    ecl as i32
                };
                proof {
                    lemma_pow10_pos(34);
                }
                (
                    DecimalValue {
                        sign: x.sign != y.sign,
                        class: DecClass::Finite,
                        exponent: ec,
                        coefficient: 0,
                    },
                    0,
                )
            } else {
                let nx = ndigits_u128(x.coefficient);
                let ny = ndigits_u128(y.coefficient);
                proof {
                    lemma_ndigits_bound(x.coefficient as nat);
                    lemma_ndigits_bound(y.coefficient as nat);
                    lemma_ndigits_le(x.coefficient as nat, 34);
                    lemma_ndigits_le(y.coefficient as nat, 34);
                    lemma_pow10_values();
                }
                let t: u64 = ny as u64 + 36 - nx as u64;
                let bx = big_from_u128(x.coefficient);
                let sc = big_shl(bx, t as usize);
                let by = big_from_u128(y.coefficient);
                proof {
                    lemma_mul_is_commutative(
                        pow10(t as nat) as int,
                        x.coefficient as int,
                    );
                    assert(big_val(sc@) == (x.coefficient as nat) * pow10(t as nat));
                    // digit-count bound on the scaled dividend
                    crate::tens::lemma_ndigits_mul_pow10(x.coefficient as nat, t as nat);
                }
                let (q, r) = big_divmod(&sc, &by);
                let ghost scv = big_val(sc@);
                let ghost cy = y.coefficient as nat;
                let ghost qq = scv / cy;
                let ghost rr = scv % cy;
                proof {
                    lemma_fundamental_div_mod_converse_div(
                        scv as int,
                        cy as int,
                        big_val(q@) as int,
                        big_val(r@) as int,
                    );
                    lemma_fundamental_div_mod_converse_mod(
                        scv as int,
                        cy as int,
                        big_val(q@) as int,
                        big_val(r@) as int,
                    );
                    assert(big_val(q@) == qq && big_val(r@) == rr);
                    // q is bounded: qq <= scv and ndigits(scv) <= 71
                    crate::bignum::lemma_skip_le(q@, 0);
                    lemma_big_val_bound(q@);
                    lemma_ndigits_le(big_val(q@), q@.len() as nat);
                }
                let e0: i64 = x.exponent as i64 - y.exponent as i64 - t as i64;
                let limit: i64 = x.exponent as i64 - y.exponent as i64;
                if big_is_zero(&r) {
                    let (qs, es) = strip_exec(q, e0, limit);
                    proof {
                        lemma_big_val_bound(qs@);
                        lemma_ndigits_le(big_val(qs@), qs@.len() as nat);
                    }
                    let (v, fl) = deliver(x.sign != y.sign, qs, es, rm);
                    (v, fl)
                } else {
                    let mut q10 = big_shl(q, 1);
                    proof {
                        assert(q10@.len() >= 1);
                        let t10 = q10@;
                        lemma_skip_index(t10, 0);
                        assert(t10.skip(0) =~= t10);
                        assert(t10[0] == 0);
                        assert(big_val(t10) == 10 * big_val(t10.skip(1)));
                        assert(t10.skip(1) =~= q@);
                    }
                    let ghost before = q10@;
                    q10[0] = 1;
                    proof {
                        assert(q10@ == before.update(0, 1u8));
                        lemma_skip_index(q10@, 0);
                        assert(q10@.skip(0) =~= q10@);
                        assert(q10@.skip(1) =~= before.skip(1));
                        assert(big_val(q10@) == 1 + 10 * big_val(before.skip(1)));
                        assert(big_val(q10@) == qq * 10 + 1) by {
                            assert(10 * qq == qq * 10) by (nonlinear_arith);
                        }
                        assert(digits_ok(q10@));
                        lemma_big_val_bound(q10@);
                        lemma_ndigits_le(big_val(q10@), q10@.len() as nat);
                    }
                    let (v, fl) = deliver(x.sign != y.sign, q10, e0 - 1, rm);
                    (v, fl)
                }
            }
        },
    }
}

/// Returns a result of decimal floating-point division,
/// [Decimal128] / [Decimal128] -> [Decimal128].
pub fn bid128_div(x: BID128, y: BID128, round: u32, flags: &mut u32) -> (r: BID128)
    ensures
        decode_spec(r) == div_spec(decode_spec(x), decode_spec(y), round).0,
        *final(flags) == *old(flags) | div_spec(decode_spec(x), decode_spec(y), round).1,
{
    let vx = decode(x);
    let vy = decode(y);
    let (v, fl) = div_decoded(vx, vy, round);
    *flags = *flags | fl;
    encode(v)
}

/// Decimal remainder after truncating division: `x − y·truncate(x/y)`,
/// computed exactly at the smaller operand exponent with the sign of `x`.
/// A zero divisor or an infinite `x` is `Invalid`; an infinite divisor
/// leaves a finite `x` unchanged.
pub open spec fn rem_spec(x: DecimalValue, y: DecimalValue) -> (DecimalValue, u32) {
    if x.class == DecClass::SignalingNan || y.class == DecClass::SignalingNan {
        (quiet_nan(), FB_INVALID)
    } else if x.class == DecClass::QuietNan || y.class == DecClass::QuietNan {
        (quiet_nan(), 0)
    } else if x.class == DecClass::Infinite {
        (quiet_nan(), FB_INVALID)
    } else if y.class == DecClass::Infinite {
        (x, 0)
    } else if y.coefficient == 0 {
        (quiet_nan(), FB_INVALID)
    } else {
        let m = crate::arith::min_exp(x, y);
        let xv = (x.coefficient as nat) * pow10((x.exponent - m) as nat);
        let yv = (y.coefficient as nat) * pow10((y.exponent - m) as nat);
        let rv = xv % yv;
        (
            DecimalValue {
                sign: x.sign,
                class: DecClass::Finite,
                exponent: m as i32,
                coefficient: rv as u128,
            },
            0,
        )
    }
}

/// Returns the decimal floating-point remainder.
#[verifier::rlimit(60)]
pub fn bid128_rem(x: BID128, y: BID128, flags: &mut u32) -> (r: BID128)
    ensures
        decode_spec(r) == rem_spec(decode_spec(x), decode_spec(y)).0,
        *final(flags) == *old(flags) | rem_spec(decode_spec(x), decode_spec(y)).1,
{
    let vx = decode(x);
    let vy = decode(y);
    let nan = DecimalValue { sign: false, class: DecClass::QuietNan, exponent: 0, coefficient: 0 };
    let (v, fl): (DecimalValue, u32) = match (vx.class, vy.class) {
        (DecClass::SignalingNan, _) => (nan, FB_INVALID),
        (_, DecClass::SignalingNan) => (nan, FB_INVALID),
        (DecClass::QuietNan, _) => (nan, 0),
        (_, DecClass::QuietNan) => (nan, 0),
        (DecClass::Infinite, _) => (nan, FB_INVALID),
        (_, DecClass::Infinite) => (vx, 0),
        (DecClass::Finite, DecClass::Finite) => {
            if vy.coefficient == 0 {
                (nan, FB_INVALID)
            } else {
                let m: i64 = if vx.exponent <= vy.exponent {
                    vx.exponent as i64
                } else {
                    vy.exponent as i64
                };
                let ax = crate::arith::align(vx, m);
                let ay = crate::arith::align(vy, m);
                let ghost xv = big_val(ax@);
                let ghost yv = big_val(ay@);
                proof {
                    lemma_pow10_pos((vy.exponent - m) as nat);
                    lemma_mul_strictly_positive(
                        vy.coefficient as int,
                        pow10((vy.exponent - m) as nat) as int,
                    );
                    assert(yv > 0);
                }
                let (q, r) = big_divmod(&ax, &ay);
                proof {
                    lemma_fundamental_div_mod_converse_mod(
                        xv as int,
                        yv as int,
                        big_val(q@) as int,
                        big_val(r@) as int,
                    );
                    assert(big_val(r@) == xv % yv);
                    lemma_pow10_values();
                    // the remainder fits 34 digits
                    if vy.exponent <= vx.exponent {
                        assert(yv == (vy.coefficient as nat) * pow10(0)) by {
                            assert(vy.exponent - m == 0);
                        }
                        assert(yv == vy.coefficient) by {
                            assert((vy.coefficient as nat) * pow10(0) == vy.coefficient)
                                by (nonlinear_arith)
                                requires
                                    pow10(0) == 1,
                            ;
                        }
                        assert(big_val(r@) < pow10(34));
                    } else {
                        assert(xv == vx.coefficient) by {
                            assert(vx.exponent - m == 0);
                            assert((vx.coefficient as nat) * pow10(0) == vx.coefficient)
                                by (nonlinear_arith)
                                requires
                                    pow10(0) == 1,
                            ;
                        }
                        if big_val(q@) == 0 {
                            assert(big_val(q@) * yv == 0) by (nonlinear_arith)
                                requires
                                    big_val(q@) == 0,
                            ;
                            assert(big_val(r@) == xv);
                        } else {
                            lemma_mul_inequality(1, big_val(q@) as int, yv as int);
                            assert(yv <= big_val(q@) * yv);
                            assert(big_val(q@) * yv == yv * big_val(q@)) by (nonlinear_arith);
                            assert(yv <= xv);
                        }
                        assert(big_val(r@) < pow10(34));
                    }
                    lemma_pow10_strictly_increases(34, 38);
                }
                let rc = big_to_u128(&r);
                (
                    DecimalValue {
                        sign: vx.sign,
                        class: DecClass::Finite,
                        exponent: m as i32,
                        coefficient: rc,
                    },
                    0,
                )
            }
        },
    };
    *flags = *flags | fl;
    encode(v)
}

/// Whether `s` is the integer square root of `n`.
pub open spec fn is_isqrt(n: nat, s: nat) -> bool {
    s * s <= n && n < (s + 1) * (s + 1)
}

/// The integer square root of `n`.
pub open spec fn isqrt(n: nat) -> nat {
    choose|s: nat| is_isqrt(n, s)
}

/// Every natural has an integer square root.
pub proof fn lemma_isqrt_exists(n: nat)
    ensures
        is_isqrt(n, isqrt(n)),
    decreases n,
{
    if n == 0 {
        assert(is_isqrt(0, 0)) by (nonlinear_arith);
    } else {
        lemma_isqrt_exists((n - 1) as nat);
        let s = isqrt((n - 1) as nat);
        if (s + 1) * (s + 1) == n {
            assert(is_isqrt(n, s + 1)) by (nonlinear_arith)
                requires
                    (s + 1) * (s + 1) == n,
            ;
        } else {
            assert(is_isqrt(n, s));
        }
    }
}

/// The integer square root is unique.
pub proof fn lemma_isqrt_unique(n: nat, a: nat, b: nat)
    requires
        is_isqrt(n, a),
        is_isqrt(n, b),
    ensures
        a == b,
{
    if a < b {
        assert((a + 1) * (a + 1) <= b * b) by (nonlinear_arith)
            requires
                a < b,
        ;
    }
    if b < a {
        assert((b + 1) * (b + 1) <= a * a) by (nonlinear_arith)
            requires
                b < a,
        ;
    }
}

/// Binary search for the integer square root of a big value below `10^68`.
pub(crate) fn big_isqrt(nd: &Vec<u8>) -> (s: u128)
    requires
        digits_ok(nd@),
        big_val(nd@) < pow10(68),
    ensures
        is_isqrt(big_val(nd@), s as nat),
        s < pow10(34),
{
    let ghost n = big_val(nd@);
    proof {
        lemma_pow10_values();
        lemma_pow10_adds(34, 34);
    }
    let p34 = pow10_u128(34);
    let mut lo: u128 = 0;
    let mut hi: u128 = p34;
    proof {
        assert((0 as nat) * (0 as nat) <= n) by (nonlinear_arith);
        assert(n < (pow10(34)) * (pow10(34)));
    }
    while hi - lo > 1
        invariant
            n == big_val(nd@),
            digits_ok(nd@),
            lo < hi <= pow10(34),
            (lo as nat) * (lo as nat) <= n,
            n < (hi as nat) * (hi as nat),
        decreases hi - lo,
    {
        let mid = lo + (hi - lo) / 2;
        let mb = big_from_u128(mid);
        let sq = big_mul(&mb, &mb);
        let c = big_cmp(&sq, nd);
        if c <= 0 {
            lo = mid;
        } else {
            hi = mid;
        }
    }
    proof {
        assert(hi == lo + 1);
    }
    lo
}

/// Binary search for the integer square root of a value of any size.
#[verifier::rlimit(100)]
pub(crate) fn big_isqrt_any(nd: &Vec<u8>) -> (s: Vec<u8>)
    requires
        digits_ok(nd@),
        nd@.len() <= 200000,
    ensures
        digits_ok(s@),
        is_isqrt(big_val(nd@), big_val(s@)),
        s@.len() <= nd@.len() / 2 + 2,
{
    let ghost n = big_val(nd@);
    let one = big_from_u128(1);
    let two = big_from_u128(2);
    proof {
        lemma_pow10_values();
    }
    let h: usize = nd.len() / 2 + 1;
    let mut hi = big_shl(big_from_u128(1), h);
    let mut lo: Vec<u8> = Vec::new();
    proof {
        assert(big_val(lo@) == 0);
        assert((0 as nat) * (0 as nat) == 0) by (nonlinear_arith);
        assert(big_val(hi@) == pow10(h as nat)) by {
            assert(pow10(h as nat) * 1 == pow10(h as nat)) by (nonlinear_arith);
        }
        lemma_big_val_bound(nd@);
        lemma_pow10_increases(nd@.len(), (2 * h) as nat);
        lemma_pow10_adds(h as nat, h as nat);
        assert(n < pow10(h as nat) * pow10(h as nat));
        assert(ndigits(0nat) == 0);
        assert(ndigits(1nat) == 1);
    }
    let ghost h_g = h;
    while big_cmp(&big_add(&lo, &one), &hi) < 0
        invariant
            n == big_val(nd@),
            digits_ok(nd@),
            digits_ok(lo@),
            digits_ok(hi@),
            digits_ok(one@),
            digits_ok(two@),
            one@.len() <= 39,
            two@.len() <= 39,
            big_val(one@) == 1,
            big_val(two@) == 2,
            h_g == h,
            h <= 100001,
            lo@.len() <= h_g + 2,
            hi@.len() <= h_g + 2,
            big_val(lo@) < big_val(hi@),
            big_val(hi@) <= pow10(h_g as nat),
            big_val(lo@) * big_val(lo@) <= n,
            n < big_val(hi@) * big_val(hi@),
        decreases big_val(hi@) - big_val(lo@),
    {
        let ghost lov = big_val(lo@);
        let ghost hiv = big_val(hi@);
        let sum = big_add(&lo, &hi);
        let (mid_raw, _r2) = big_divmod(&sum, &two);
        let mid = big_trim(mid_raw);
        let ghost midv = big_val(mid@);
        proof {
            lemma_ndigits_le(midv, h_g as nat);
        }
        proof {
            vstd::arithmetic::div_mod::lemma_fundamental_div_mod_converse_div(
                (lov + hiv) as int,
                2,
                big_val(mid_raw@) as int,
                big_val(_r2@) as int,
            );
            assert(midv == (lov + hiv) / 2);
            // lo + 1 < hi here, so lo < mid < hi
            assert(lov + 2 <= hiv);
            vstd::arithmetic::div_mod::lemma_fundamental_div_mod_converse_div(
                (2 * lov + 2) as int,
                2,
                (lov + 1) as int,
                0,
            );
            vstd::arithmetic::div_mod::lemma_div_is_ordered(
                (2 * lov + 2) as int,
                (lov + hiv) as int,
                2,
            );
            assert(lov + 1 <= midv);
            vstd::arithmetic::div_mod::lemma_fundamental_div_mod_converse_div(
                (2 * hiv - 2) as int,
                2,
                (hiv - 1) as int,
                0,
            );
            vstd::arithmetic::div_mod::lemma_div_is_ordered(
                (lov + hiv) as int,
                (2 * hiv - 2) as int,
                2,
            );
            assert(midv <= hiv - 1);
        }
        let sq = big_mul(&mid, &mid);
        let c = big_cmp(&sq, nd);
        if c <= 0 {
            lo = mid;
        } else {
            hi = mid;
        }
    }
    proof {
        assert(big_val(lo@) + 1 >= big_val(hi@));
        assert(big_val(hi@) == big_val(lo@) + 1);
    }
    let r = big_trim(lo);
    proof {
        // the root has at most half as many digits as the operand
        let rv = big_val(r@);
        lemma_ndigits_bound(rv);
        if r@.len() > nd@.len() / 2 + 2 {
            let hh = (nd@.len() / 2 + 1) as nat;
            lemma_big_val_bound(nd@);
            lemma_pow10_increases(nd@.len(), hh + hh);
            lemma_pow10_adds(hh, hh);
            assert(rv >= pow10((r@.len() - 1) as nat));
            lemma_pow10_increases(hh, (r@.len() - 1) as nat);
            assert(rv >= pow10(hh));
            vstd::arithmetic::mul::lemma_mul_inequality(
                pow10(hh) as int,
                rv as int,
                pow10(hh) as int,
            );
            assert(pow10(hh) * pow10(hh) <= rv * pow10(hh));
            vstd::arithmetic::mul::lemma_mul_inequality(
                pow10(hh) as int,
                rv as int,
                rv as int,
            );
            assert(rv * pow10(hh) <= rv * rv) by {
                vstd::arithmetic::mul::lemma_mul_is_commutative(rv as int, pow10(hh) as int);
            }
            assert(false);
        }
    }
    r
}

/// Whether an exponent is even (divisible by two).
fn is_even_i64(t: i64) -> (r: bool)
    requires
        -1000000 <= t <= 1000000,
    ensures
        r == ((t as int) % 2 == 0),
{
    if t >= 0 {
        proof {
            if t as u64 % 2 == 0 {
            } else {
                assert((t as int) % 2 == (t as u64) % 2);
            }
        }
        t as u64 % 2 == 0
    } else {
        let m: u64 = (-t) as u64;
        proof {
            let ti = t as int;
            if m % 2 == 0 {
                vstd::arithmetic::div_mod::lemma_fundamental_div_mod_converse_mod(
                    ti,
                    2,
                    -((m / 2) as int),
                    0,
                );
            } else {
                vstd::arithmetic::div_mod::lemma_fundamental_div_mod_converse_mod(
                    ti,
                    2,
                    -((m / 2) as int) - 1,
                    1,
                );
            }
        }
        m % 2 == 0
    }
}

/// The floor of half an exponent (division by two rounding toward minus
/// infinity).
fn half_floor(t: i64) -> (r: i64)
    requires
        -1000000 <= t <= 1000000,
    ensures
        r == (t as int) / 2,
{
    if t >= 0 {
        (t as u64 / 2) as i64
    } else {
        let m: u64 = (-t) as u64;
        let q: i64 = -(((m + 1) / 2) as i64);
        proof {
            let ti = t as int;
            let qq = ((m + 1) / 2) as int;
            if m % 2 == 0 {
                vstd::arithmetic::div_mod::lemma_fundamental_div_mod_converse_div(
                    ti,
                    2,
                    -qq,
                    0,
                );
            } else {
                vstd::arithmetic::div_mod::lemma_fundamental_div_mod_converse_div(
                    ti,
                    2,
                    -qq,
                    1,
                );
            }
        }
        q
    }
}

/// Decimal square root: the operand's coefficient is scaled by a power of
/// ten of the exponent's parity to 67 or 68 digits, its integer square root
/// taken, and the 34-digit result rounded under `rm` (ties cannot arise).
/// A negative nonzero operand or `-Inf` is `Invalid`; a zero keeps its sign
/// at half its exponent; an exact root is re-expressed as close to half the
/// operand exponent as its trailing zeros allow.
pub open spec fn sqrt_spec(x: DecimalValue, rm: u32) -> (DecimalValue, u32) {
    if x.class == DecClass::SignalingNan {
        (quiet_nan(), FB_INVALID)
    } else if x.class == DecClass::QuietNan {
        (quiet_nan(), 0)
    } else if x.class == DecClass::Infinite {
        if x.sign {
            (quiet_nan(), FB_INVALID)
        } else {
            (x, 0)
        }
    } else if x.coefficient == 0 {
        (
            DecimalValue {
                sign: x.sign,
                class: DecClass::Finite,
                exponent: (x.exponent as int / 2) as i32,
                coefficient: 0,
            },
            0,
        )
    } else if x.sign {
        (quiet_nan(), FB_INVALID)
    } else {
        let f0 = 67 - ndigits(x.coefficient as nat);
        let f = if (x.exponent - f0) % 2 == 0 {
            f0 as int
        } else {
            f0 + 1
        };
        let sc = (x.coefficient as nat) * pow10(f as nat);
        let s = isqrt(sc);
        let er = (x.exponent - f) / 2;
        if s * s == sc {
            let se = strip_spec(s, er, x.exponent as int / 2);
            deliver_spec(false, se.0, se.1, rm)
        } else {
            let up = if rm == RM_UPWARD {
                true
            } else if rm == RM_DOWNWARD || rm == RM_TOWARD_ZERO {
                false
            } else {
                sc > s * (s + 1)
            };
            (
                deliver_spec(
                    false,
                    s + (if up {
                        1nat
                    } else {
                        0nat
                    }),
                    er,
                    rm,
                ).0,
                FB_INEXACT,
            )
        }
    }
}

/// Returns the decimal floating-point square root.
#[verifier::rlimit(100)]
pub fn bid128_sqrt(x: BID128, round: u32, flags: &mut u32) -> (r: BID128)
    ensures
        decode_spec(r) == sqrt_spec(decode_spec(x), round).0,
        *final(flags) == *old(flags) | sqrt_spec(decode_spec(x), round).1,
{
    let v = decode(x);
    let nan = DecimalValue { sign: false, class: DecClass::QuietNan, exponent: 0, coefficient: 0 };
    let (out, fl): (DecimalValue, u32) = match v.class {
        DecClass::SignalingNan => (nan, FB_INVALID),
        DecClass::QuietNan => (nan, 0),
        DecClass::Infinite => {
            if v.sign {
                (nan, FB_INVALID)
            } else {
                (v, 0)
            }
        },
        DecClass::Finite => {
            if v.coefficient == 0 {
                let e2 = half_floor(v.exponent as i64);
                (
                    DecimalValue {
                        sign: v.sign,
                        class: DecClass::Finite,
                        exponent: e2 as i32,
                        coefficient: 0,
                    },
                    0,
                )
            } else if v.sign {
                (nan, FB_INVALID)
            } else {
                let dx = ndigits_u128(v.coefficient);
                proof {
                    lemma_ndigits_bound(v.coefficient as nat);
                    lemma_ndigits_le(v.coefficient as nat, 34);
                    lemma_pow10_values();
                }
                let f0: i64 = 67 - dx as i64;
                let t0: i64 = v.exponent as i64 - f0;
                let f: i64 = if is_even_i64(t0) {
                    f0
                } else {
                    f0 + 1
                };
                let scv = big_shl(big_from_u128(v.coefficient), f as usize);
                let ghost sc = (v.coefficient as nat) * pow10(f as nat);
                proof {
                    lemma_mul_is_commutative(pow10(f as nat) as int, v.coefficient as int);
                    assert(big_val(scv@) == sc);
                    crate::tens::lemma_ndigits_mul_pow10(v.coefficient as nat, f as nat);
                    lemma_ndigits_bound(sc);
                    lemma_pow10_increases(ndigits(sc), 68);
                }
                let s = big_isqrt(&scv);
                proof {
                    lemma_isqrt_exists(sc);
                    lemma_isqrt_unique(sc, s as nat, isqrt(sc));
                }
                let er = half_floor(v.exponent as i64 - f);
                let sb = big_from_u128(s);
                let sq = big_mul(&sb, &sb);
                let c = big_cmp(&sq, &scv);
                if c == 0 {
                    let lim = half_floor(v.exponent as i64);
                    proof {
                        vstd::arithmetic::div_mod::lemma_div_is_ordered(
                            v.exponent - f,
                            v.exponent as int,
                            2,
                        );
                        lemma_ndigits_le(s as nat, 34);
                    }
                    let (qs, es) = strip_exec(sb, er, lim);
                    proof {
                        lemma_big_val_bound(qs@);
                        lemma_ndigits_le(big_val(qs@), qs@.len() as nat);
                    }
                    let (rv, rf) = deliver(false, qs, es, round);
                    (rv, rf)
                } else {
                    let up: bool = if round == RM_UPWARD {
                        true
                    } else if round == RM_DOWNWARD || round == RM_TOWARD_ZERO {
                        false
                    } else {
                        let sp1 = big_from_u128(s + 1);
                        let prod = big_mul(&sb, &sp1);
                        big_cmp(&scv, &prod) > 0
                    };
                    let sr: u128 = if up {
                        s + 1
                    } else {
                        s
                    };
                    let srd = big_from_u128(sr);
                    proof {
                        lemma_ndigits_le(sr as nat, 35);
                        lemma_pow10_values();
                        lemma_pow10_strictly_increases(34, 35);
                    }
                    let (rv, _rf) = deliver(false, srd, er, round);
                    (rv, FB_INEXACT)
                }
            }
        },
    };
    *flags = *flags | fl;
    encode(out)
}

} // verus!
