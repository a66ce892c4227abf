//! Transcendental operations: exponential, natural logarithm and power.
//! These are approximate by design: argument reduction and series against
//! the engine's big-integer arithmetic, carried out with one hundred guard
//! digits and targeting 34-digit accuracy, with `Inexact` raised whenever
//! the true value is not an exact short decimal. They are not guaranteed
//! correctly rounded. Special operands (zeros, ones, infinities, NaNs) have
//! exact, pinned results.

use crate::bignum::{
    big_add, big_cmp, big_divmod, big_from_u128, big_is_zero, big_mul, big_shl, big_skip,
    big_sub, big_to_u128, big_trim, big_val, digits_ok, lemma_big_val_bound,
};
use crate::codec::{decode, decode_spec, encode};
use crate::common::{
    BID128, DecClass, DecimalValue, E_MAX, E_MIN, FB_INEXACT, FB_INVALID, FB_OVERFLOW,
    FB_UNDERFLOW, FB_ZERO_DIVIDE, dv_wf, quiet_nan,
};
use crate::divide::big_isqrt_any;
use crate::rounding::{deliver, infinity, overflow_exec, overflow_value};
use crate::tens::{
    lemma_ndigits_bound, lemma_ndigits_le, lemma_pow10_increases, lemma_pow10_pos,
    lemma_pow10_strictly_increases, lemma_pow10_values, ndigits, ndigits_u128, pow10, pow10_u128,
};
use vstd::prelude::*;

verus! {

/// The number of fractional guard digits of the internal fixed point.
pub const FX_G: usize = 100;

/// The cap on internal fixed-point digit vectors.
pub const FX_LEN: usize = 260;

/// The value one, `+1E+0`.
pub open spec fn one_value() -> DecimalValue {
    DecimalValue { sign: false, class: DecClass::Finite, exponent: 0, coefficient: 1 }
}

/// Whether neither operand short-circuits a power: no NaN, a nonzero
/// exponent operand, and a base other than positive one.
pub open spec fn pow_plain(vx: DecimalValue, vy: DecimalValue) -> bool {
    vx.class != DecClass::SignalingNan && vy.class != DecClass::SignalingNan && vx.class
        != DecClass::QuietNan && vy.class != DecClass::QuietNan && !(vy.class == DecClass::Finite
        && vy.coefficient == 0) && !is_one_pos(vx)
}

/// Whether a finite value equals positive one.
pub open spec fn is_one_pos(v: DecimalValue) -> bool {
    v.class == DecClass::Finite && !v.sign && v.exponent <= 0 && v.exponent >= -34
        && v.coefficient == pow10((-v.exponent) as nat)
}

/// A new flag word only ever adds bits to the old one.
proof fn lemma_or_keeps(a: u32, b: u32)
    ensures
        ((a | b) | a) == (a | b),
        ((a | b) & b) == b,
{
    assert((((a | b) | a) == (a | b)) && (((a | b) & b) == b)) by (bit_vector);
}

/// A word joined with itself is unchanged.
proof fn lemma_or_self(a: u32)
    ensures
        (a | a) == a,
{
    assert((a | a) == a) by (bit_vector);
}

/// A flag word is unchanged by adding no bits.
proof fn lemma_or_nothing(a: u32)
    ensures
        (a | 0) == a,
{
    assert((a | 0) == a) by (bit_vector);
}

/// A bit set in the added word is set in the combined word.
proof fn lemma_or_bit(a: u32, b: u32, m: u32)
    ensures
        b & m == m ==> (a | b) & m == m,
{
    assert(b & m == m ==> (a | b) & m == m) by (bit_vector);
}

/// Copies a digit vector.
fn vec_copy(a: &Vec<u8>) -> (r: Vec<u8>)
    ensures
        r@ == a@,
{
    let mut r: Vec<u8> = Vec::new();
    let mut i: usize = 0;
    while i < a.len()
        invariant
            i <= a@.len(),
            r@ == a@.take(i as int),
        decreases a@.len() - i,
    {
        proof {
            assert(a@.take(i + 1) =~= a@.take(i as int).push(a@[i as int]));
        }
        r.push(a[i]);
        i = i + 1;
    }
    proof {
        assert(a@.take(a@.len() as int) =~= a@);
    }
    r
}

/// Copies the low `k` digits (clipped to the length).
fn big_take(a: &Vec<u8>, k: usize) -> (r: Vec<u8>)
    requires
        digits_ok(a@),
    ensures
        digits_ok(r@),
        r@.len() <= k,
{
    let m = if k < a.len() {
        k
    } else {
        a.len()
    };
    let mut r: Vec<u8> = Vec::new();
    let mut i: usize = 0;
    while i < m
        invariant
            digits_ok(a@),
            m <= a@.len(),
            i <= m,
            r@.len() == i,
            digits_ok(r@),
        decreases m - i,
    {
        r.push(a[i]);
        i = i + 1;
    }
    r
}

/// Trims and caps a fixed-point vector to the internal length bound.
fn fx_cap(v: Vec<u8>) -> (r: Vec<u8>)
    requires
        digits_ok(v@),
    ensures
        digits_ok(r@),
        r@.len() <= FX_LEN,
{
    let mut r = big_trim(v);
    if r.len() > FX_LEN {
        let ghost before = r@;
        r.truncate(FX_LEN);
        proof {
            assert(r@ == before.take(FX_LEN as int));
            assert(digits_ok(r@));
        }
    }
    r
}

/// Fixed-point product: multiplies and drops the guard digits.
fn fx_mul(a: &Vec<u8>, b: &Vec<u8>) -> (r: Vec<u8>)
    requires
        digits_ok(a@),
        digits_ok(b@),
        a@.len() <= 100000,
        b@.len() <= 100000,
    ensures
        digits_ok(r@),
        r@.len() <= FX_LEN,
{
    let p = big_mul(a, b);
    let k = if p.len() < FX_G {
        p.len()
    } else {
        FX_G
    };
    let s = big_skip(&p, k);
    proof {
        assert(digits_ok(s@));
    }
    fx_cap(s)
}

/// Fixed-point quotient; a zero divisor yields zero.
fn fx_div(a: &Vec<u8>, b: &Vec<u8>) -> (r: Vec<u8>)
    requires
        digits_ok(a@),
        digits_ok(b@),
        a@.len() <= 100000,
    ensures
        digits_ok(r@),
        r@.len() <= FX_LEN,
{
    if big_is_zero(b) {
        return Vec::new();
    }
    let ac = vec_copy(a);
    let s = big_shl(ac, FX_G);
    let (q, _rm) = big_divmod(&s, b);
    fx_cap(q)
}

/// Quotient by a small positive integer.
fn fx_div_u64(a: &Vec<u8>, d: u64) -> (r: Vec<u8>)
    requires
        digits_ok(a@),
        d >= 1,
    ensures
        digits_ok(r@),
        r@.len() <= FX_LEN,
{
    let dv = big_from_u128(d as u128);
    proof {
        lemma_pow10_values();
    }
    let (q, _rm) = big_divmod(a, &dv);
    fx_cap(q)
}

/// Product with a small integer (no guard-digit shift).
fn fx_int_mul(a: &Vec<u8>, m: u128) -> (r: Vec<u8>)
    requires
        digits_ok(a@),
        a@.len() <= 100000,
    ensures
        digits_ok(r@),
        r@.len() <= FX_LEN,
{
    let mv = big_from_u128(m);
    let p = big_mul(a, &mv);
    fx_cap(p)
}

/// Fixed-point sum.
fn fx_add(a: &Vec<u8>, b: &Vec<u8>) -> (r: Vec<u8>)
    requires
        digits_ok(a@),
        digits_ok(b@),
        a@.len() <= 100000,
        b@.len() <= 100000,
    ensures
        digits_ok(r@),
        r@.len() <= FX_LEN,
{
    let s = big_add(a, b);
    fx_cap(s)
}

/// Fixed-point difference, clamped at zero.
fn fx_sub_sat(a: &Vec<u8>, b: &Vec<u8>) -> (r: Vec<u8>)
    requires
        digits_ok(a@),
        digits_ok(b@),
    ensures
        digits_ok(r@),
        r@.len() <= FX_LEN,
{
    let c = big_cmp(a, b);
    if c < 0 {
        Vec::new()
    } else {
        let d = big_sub(a, b);
        fx_cap(d)
    }
}

/// One in the fixed point: `10^100`.
fn fx_one() -> (r: Vec<u8>)
    ensures
        digits_ok(r@),
        big_val(r@) == pow10(100),
        r@.len() <= 140,
{
    let one = big_from_u128(1);
    let r = big_shl(one, FX_G);
    proof {
        assert(pow10(100) * 1 == pow10(100)) by (nonlinear_arith);
    }
    r
}

/// Builds a constant from 19-digit chunks, least significant first.
fn const_from_chunks(c0: u64, c1: u64, c2: u64, c3: u64, c4: u64, c5: u64) -> (r: Vec<u8>)
    ensures
        digits_ok(r@),
        r@.len() <= 140,
{
    let mut acc = big_from_u128(c5 as u128);
    acc = big_shl(acc, 19);
    acc = big_add(&acc, &big_from_u128(c4 as u128));
    acc = big_shl(acc, 19);
    acc = big_add(&acc, &big_from_u128(c3 as u128));
    acc = big_shl(acc, 19);
    acc = big_add(&acc, &big_from_u128(c2 as u128));
    acc = big_shl(acc, 19);
    acc = big_add(&acc, &big_from_u128(c1 as u128));
    acc = big_shl(acc, 19);
    acc = big_add(&acc, &big_from_u128(c0 as u128));
    acc
}

/// The natural logarithm of ten at one hundred guard digits.
fn ln10_fx() -> (r: Vec<u8>)
    ensures
        digits_ok(r@),
        r@.len() <= 140,
{
    const_from_chunks(
        2359972050895982983,
        967572609677352480,
        8862877297603332790,
        4546843642076011014,
        5092994045684017991,
        230258,
    )
}

/// The base-ten logarithm of Euler's number at one hundred guard digits.
fn log10e_fx() -> (r: Vec<u8>)
    ensures
        digits_ok(r@),
        r@.len() <= 140,
{
    const_from_chunks(
        7292249493384317483,
        3165864649208870774,
        580366656611445378,
        9189166050822943970,
        4481903251827651128,
        43429,
    )
}

/// Fixed-point square root.
fn fx_sqrt(v: Vec<u8>) -> (r: Vec<u8>)
    requires
        digits_ok(v@),
        v@.len() <= 100000,
    ensures
        digits_ok(r@),
        r@.len() <= FX_LEN,
{
    let s = big_shl(v, FX_G);
    let q = big_isqrt_any(&s);
    fx_cap(q)
}

/// Computes `10^(±t)` from the base-ten exponent `t` in fixed point:
/// the integer part moves the decimal exponent, the fractional part is
/// evaluated as `e^(f·ln 10)` by squaring-and-series. The result is a
/// positive finite value or an overflow result, delivered under `rm`, with
/// `Inexact` always among the returned flags.
fn exp10_core(neg: bool, t10: Vec<u8>, rm: u32) -> (out: (DecimalValue, u32))
    requires
        digits_ok(t10@),
        t10@.len() <= 200000,
    ensures
        dv_wf(out.0),
        !out.0.sign,
        out.0.class == DecClass::Finite || out.0.class == DecClass::Infinite,
        out.1 & FB_INEXACT == FB_INEXACT,
{
    let k = if t10.len() < FX_G {
        t10.len()
    } else {
        FX_G
    };
    let ipart_raw = big_skip(&t10, k);
    proof {
        assert(digits_ok(ipart_raw@));
    }
    let ipart = big_trim(ipart_raw);
    if ipart.len() > 7 {
        if neg {
            proof {
                lemma_pow10_pos(34);
                lemma_or_keeps(FB_UNDERFLOW, FB_INEXACT);
                assert((FB_UNDERFLOW | FB_INEXACT) & FB_INEXACT == FB_INEXACT) by (bit_vector);
            }
            return (
                DecimalValue { sign: false, class: DecClass::Finite, exponent: E_MIN, coefficient: 0 },
                FB_UNDERFLOW | FB_INEXACT,
            );
        } else {
            let (v, fl) = overflow_exec(false, rm);
            proof {
                assert((FB_OVERFLOW | FB_INEXACT) & FB_INEXACT == FB_INEXACT) by (bit_vector);
                if v.sign {
                    assert(false);
                }
            }
            return (v, fl);
        }
    }
    proof {
        lemma_big_val_bound(ipart@);
        lemma_pow10_increases(ipart@.len(), 7);
        lemma_pow10_increases(7, 38);
        lemma_pow10_values();
        assert(pow10(7) == 10000000) by {
            reveal_with_fuel(pow10, 9);
        }
        assert(big_val(ipart@) < 10000000);
    }
    let iv = big_to_u128(&ipart) as i64;
    proof {
        assert(0 <= iv < 10000000);
    }
    let frac = big_take(&t10, FX_G);
    let (i2, f2): (i64, Vec<u8>) = if !neg {
        (iv, frac)
    } else {
        if big_is_zero(&frac) {
            (-iv, frac)
        } else {
            let one = fx_one();
            proof {
                lemma_big_val_bound(frac@);
                lemma_pow10_increases(frac@.len(), 100);
            }
            let d = big_sub(&one, &frac);
            (-iv - 1, fx_cap(d))
        }
    };
    let w = fx_mul(&f2, &ln10_fx());
    let r = fx_div_u64(&w, 32);
    let mut term = fx_one();
    let mut acc = fx_one();
    let mut kk: u64 = 1;
    while kk <= 48
        invariant
            digits_ok(term@),
            digits_ok(acc@),
            term@.len() <= FX_LEN,
            acc@.len() <= FX_LEN,
            digits_ok(r@),
            r@.len() <= FX_LEN,
            1 <= kk <= 49,
        decreases 49 - kk,
    {
        term = fx_div_u64(&fx_mul(&term, &r), kk);
        acc = fx_add(&acc, &term);
        kk = kk + 1;
    }
    let mut m = acc;
    let mut sq: u8 = 0;
    while sq < 5
        invariant
            digits_ok(m@),
            m@.len() <= FX_LEN,
            sq <= 5,
        decreases 5 - sq,
    {
        m = fx_mul(&m, &m);
        sq = sq + 1;
    }
    proof {
        lemma_big_val_bound(m@);
        lemma_ndigits_le(big_val(m@), m@.len() as nat);
    }
    let (v, fl) = deliver(false, m, i2 - FX_G as i64, rm);
    proof {
        lemma_or_keeps(fl, FB_INEXACT);
        assert((fl | FB_INEXACT) & FB_INEXACT == FB_INEXACT) by (bit_vector);
    }
    (v, fl | FB_INEXACT)
}

/// The magnitude of the natural logarithm of a finite positive operand, in
/// fixed point, with its sign (true for a value below one).
fn ln_core(cx: u128, ex: i32) -> (out: (bool, Vec<u8>))
    requires
        0 < cx < pow10(34),
        E_MIN <= ex <= E_MAX,
    ensures
        digits_ok(out.1@),
        out.1@.len() <= 260,
{
    proof {
        lemma_pow10_values();
    }
    let nx = ndigits_u128(cx);
    proof {
        lemma_ndigits_bound(cx as nat);
        lemma_ndigits_le(cx as nat, 34);
        assert(nx >= 1);
    }
    let t: i64 = ex as i64 + nx as i64 - 1;
    let mut u = big_shl(big_from_u128(cx), (101 - nx) as usize);
    let mut j: u8 = 0;
    while j < 10
        invariant
            digits_ok(u@),
            u@.len() <= 100000,
            j <= 10,
        decreases 10 - j,
    {
        u = fx_sqrt(u);
        j = j + 1;
    }
    let one = fx_one();
    let num = fx_sub_sat(&u, &one);
    let den = fx_add(&u, &one);
    let z = fx_div(&num, &den);
    let zz = fx_mul(&z, &z);
    let mut term = vec_copy(&z);
    let mut acc = vec_copy(&z);
    let mut k: u64 = 1;
    while k <= 22
        invariant
            digits_ok(term@),
            term@.len() <= FX_LEN,
            digits_ok(acc@),
            acc@.len() <= FX_LEN,
            digits_ok(zz@),
            zz@.len() <= FX_LEN,
            1 <= k <= 23,
        decreases 23 - k,
    {
        term = fx_mul(&term, &zz);
        acc = fx_add(&acc, &fx_div_u64(&term, 2 * k + 1));
        k = k + 1;
    }
    let lnm = fx_int_mul(&acc, 2048);
    if t >= 0 {
        let tl = fx_int_mul(&ln10_fx(), t as u128);
        (false, fx_add(&lnm, &tl))
    } else {
        let tl = fx_int_mul(&ln10_fx(), (-t) as u128);
        let c = big_cmp(&lnm, &tl);
        if c >= 0 {
            let d = big_sub(&lnm, &tl);
            (false, fx_cap(d))
        } else {
            let d = big_sub(&tl, &lnm);
            (true, fx_cap(d))
        }
    }
}

/// Returns the value of `e` raised to the `x`th power. `exp(0)` is exactly
/// one and `exp(±∞)` is `+∞` or `+0`; any other finite operand gives a
/// positive approximate result (or an overflow or underflow result) with
/// `Inexact` raised. Flags are only ever added to the register.
pub fn bid128_exp(x: BID128, round: u32, flags: &mut u32) -> (r: BID128)
    ensures
        ({
            let v = decode_spec(x);
            let rv = decode_spec(r);
            match v.class {
                DecClass::SignalingNan => rv == quiet_nan() && *final(flags) == *old(flags)
                    | FB_INVALID,
                DecClass::QuietNan => rv == quiet_nan() && *final(flags) == *old(flags),
                DecClass::Infinite => (if v.sign {
                    rv == (DecimalValue {
                        sign: false,
                        class: DecClass::Finite,
                        exponent: 0,
                        coefficient: 0,
                    })
                } else {
                    rv == infinity(false)
                }) && *final(flags) == *old(flags),
                DecClass::Finite => if v.coefficient == 0 {
                    rv == one_value() && *final(flags) == *old(flags)
                } else {
                    &&& dv_wf(rv)
                    &&& !rv.sign
                    &&& (rv.class == DecClass::Finite || rv.class == DecClass::Infinite)
                    &&& (*final(flags) | *old(flags)) == *final(flags)
                    &&& *final(flags) & FB_INEXACT == FB_INEXACT
                    &&& (ndigits(v.coefficient as nat) + v.exponent > 5 ==> (if v.sign {
                        rv == (DecimalValue {
                            sign: false,
                            class: DecClass::Finite,
                            exponent: E_MIN,
                            coefficient: 0,
                        }) && *final(flags) == *old(flags) | (FB_UNDERFLOW | FB_INEXACT)
                    } else {
                        rv == overflow_value(false, round) && *final(flags) == *old(flags) | (
                        FB_OVERFLOW | FB_INEXACT)
                    }))
                },
            }
        }),
{
    let v = decode(x);
    match v.class {
        DecClass::SignalingNan => {
            *flags = *flags | FB_INVALID;
            encode(
                DecimalValue { sign: false, class: DecClass::QuietNan, exponent: 0, coefficient: 0 },
            )
        },
        DecClass::QuietNan => encode(v),
        DecClass::Infinite => {
            proof {
                lemma_pow10_pos(34);
            }
            if v.sign {
                encode(
                    DecimalValue { sign: false, class: DecClass::Finite, exponent: 0, coefficient: 0 },
                )
            } else {
                encode(
                    DecimalValue { sign: false, class: DecClass::Infinite, exponent: 0, coefficient: 0 },
                )
            }
        },
        DecClass::Finite => {
            if v.coefficient == 0 {
                proof {
                    lemma_pow10_values();
                }
                return encode(
                    DecimalValue { sign: false, class: DecClass::Finite, exponent: 0, coefficient: 1 },
                );
            }
            let nx = ndigits_u128(v.coefficient);
            proof {
                lemma_ndigits_le(v.coefficient as nat, 34);
                lemma_pow10_values();
            }
            let (outv, fl): (DecimalValue, u32) = if nx as i64 + v.exponent as i64 > 5 {
                // |x| is at least 10^5: far beyond the representable
                // exponent range of the result.
                if v.sign {
                    proof {
                        lemma_pow10_pos(34);
                        assert((FB_UNDERFLOW | FB_INEXACT) & FB_INEXACT == FB_INEXACT)
                            by (bit_vector);
                    }
                    (
                        DecimalValue {
                            sign: false,
                            class: DecClass::Finite,
                            exponent: E_MIN,
                            coefficient: 0,
                        },
                        FB_UNDERFLOW | FB_INEXACT,
                    )
                } else {
                    let (ov, of) = overflow_exec(false, round);
                    proof {
                        assert((FB_OVERFLOW | FB_INEXACT) & FB_INEXACT == FB_INEXACT)
                            by (bit_vector);
                        if ov.sign {
                            assert(false);
                        }
                    }
                    (ov, of)
                }
            } else {
                // x as a fixed-point magnitude, then 10^(x·log10 e).
                let shift: i64 = v.exponent as i64 + FX_G as i64;
                let xfx: Vec<u8> = if shift >= 0 {
                    big_shl(big_from_u128(v.coefficient), shift as usize)
                } else {
                    let base = big_from_u128(v.coefficient);
                    let drop = -shift;
                    let kd: usize = if (drop as usize) < base.len() {
                        drop as usize
                    } else {
                        base.len()
                    };
                    let sk = big_skip(&base, kd);
                    proof {
                        assert(digits_ok(sk@));
                    }
                    sk
                };
                let t10 = big_mul(&xfx, &log10e_fx());
                let kdrop = if t10.len() < FX_G {
                    t10.len()
                } else {
                    FX_G
                };
                let t10s = big_skip(&t10, kdrop);
                proof {
                    assert(digits_ok(t10s@));
                }
                let (rv, rf) = exp10_core(v.sign, t10s, round);
                (rv, rf)
            };
            *flags = *flags | fl;
            proof {
                lemma_or_keeps(*old(flags), fl);
                lemma_or_bit(*old(flags), fl, FB_INEXACT);
            }
            encode(outv)
        },
    }
}

/// Returns the natural logarithm of `x`. `log(0)` is `-∞` with
/// `ZeroDivide`, a negative operand or `-∞` is `Invalid`, `log(+∞)` is
/// `+∞`, and `log(1)` is exactly `+0E+0`; any other finite positive operand
/// gives an approximate result with `Inexact` raised. Flags are only ever
/// added to the register.
pub fn bid128_log(x: BID128, round: u32, flags: &mut u32) -> (r: BID128)
    ensures
        ({
            let v = decode_spec(x);
            let rv = decode_spec(r);
            match v.class {
                DecClass::SignalingNan => rv == quiet_nan() && *final(flags) == *old(flags)
                    | FB_INVALID,
                DecClass::QuietNan => rv == quiet_nan() && *final(flags) == *old(flags),
                DecClass::Infinite => if v.sign {
                    rv == quiet_nan() && *final(flags) == *old(flags) | FB_INVALID
                } else {
                    rv == infinity(false) && *final(flags) == *old(flags)
                },
                DecClass::Finite => if v.coefficient == 0 {
                    rv == infinity(true) && *final(flags) == *old(flags) | FB_ZERO_DIVIDE
                } else if v.sign {
                    rv == quiet_nan() && *final(flags) == *old(flags) | FB_INVALID
                } else if is_one_pos(v) {
                    rv == (DecimalValue {
                        sign: false,
                        class: DecClass::Finite,
                        exponent: 0,
                        coefficient: 0,
                    }) && *final(flags) == *old(flags)
                } else {
                    &&& dv_wf(rv)
                    &&& rv.class == DecClass::Finite
                    &&& (*final(flags) | *old(flags)) == *final(flags)
                    &&& *final(flags) & FB_INEXACT == FB_INEXACT
                },
            }
        }),
{
    let v = decode(x);
    let nan = DecimalValue { sign: false, class: DecClass::QuietNan, exponent: 0, coefficient: 0 };
    match v.class {
        DecClass::SignalingNan => {
            *flags = *flags | FB_INVALID;
            encode(nan)
        },
        DecClass::QuietNan => encode(v),
        DecClass::Infinite => {
            if v.sign {
                *flags = *flags | FB_INVALID;
                encode(nan)
            } else {
                encode(v)
            }
        },
        DecClass::Finite => {
            if v.coefficient == 0 {
                *flags = *flags | FB_ZERO_DIVIDE;
                return encode(
                    DecimalValue { sign: true, class: DecClass::Infinite, exponent: 0, coefficient: 0 },
                );
            }
            if v.sign {
                *flags = *flags | FB_INVALID;
                return encode(nan);
            }
            // exactly one?
            proof {
                lemma_pow10_values();
            }
            if v.exponent <= 0 && v.exponent >= -34 && v.coefficient == pow10_u128(
                (-(v.exponent as i64)) as u32,
            ) {
                return encode(
                    DecimalValue { sign: false, class: DecClass::Finite, exponent: 0, coefficient: 0 },
                );
            }
            proof {
                if v.exponent < -34 && v.coefficient == pow10((-v.exponent) as nat) {
                    lemma_pow10_strictly_increases(34, (-v.exponent) as nat);
                }
            }
            let (neg, lfx) = ln_core(v.coefficient, v.exponent);
            proof {
                lemma_big_val_bound(lfx@);
                lemma_ndigits_le(big_val(lfx@), lfx@.len() as nat);
            }
            let (rv, fl) = deliver(neg, lfx, -(FX_G as i64), round);
            let fl2 = fl | FB_INEXACT;
            *flags = *flags | fl2;
            proof {
                lemma_or_keeps(*old(flags), fl2);
                assert((fl | FB_INEXACT) & FB_INEXACT == FB_INEXACT) by (bit_vector);
                lemma_or_bit(*old(flags), fl2, FB_INEXACT);
            }
            encode(rv)
        },
    }
}

/// The integer classification of a finite nonzero operand: `0` for a
/// non-integer, `1` for an even integer, `2` for an odd integer. An operand
/// with a positive exponent is a multiple of ten and so even; with a
/// negative exponent it is an integer exactly when the coefficient is a
/// multiple of that power of ten.
pub open spec fn yint_spec(v: DecimalValue) -> int {
    if v.exponent > 0 {
        1
    } else if v.exponent == 0 {
        if v.coefficient % 2 == 1 {
            2int
        } else {
            1
        }
    } else if v.exponent < -34 {
        0
    } else {
        let p = pow10((-v.exponent) as nat);
        if (v.coefficient as nat) % p != 0 {
            0
        } else if ((v.coefficient as nat) / p) % 2 == 1 {
            2
        } else {
            1
        }
    }
}

/// Whether a finite operand is an integer, and its parity: `0` for a
/// non-integer, `1` for an even integer, `2` for an odd integer.
fn int_class(v: DecimalValue) -> (r: u8)
    requires
        dv_wf(v),
        v.class == DecClass::Finite,
        v.coefficient > 0,
    ensures
        r == yint_spec(v),
        r <= 2,
{
    proof {
        lemma_pow10_values();
    }
    if v.exponent > 0 {
        1
    } else if v.exponent == 0 {
        if v.coefficient % 2 == 1 {
            2
        } else {
            1
        }
    } else {
        let f = -(v.exponent as i64);
        if f > 34 {
            0
        } else {
            let p = pow10_u128(f as u32);
            proof {
                lemma_pow10_pos(f as nat);
            }
            if v.coefficient % p != 0 {
                0
            } else {
                let q = v.coefficient / p;
                if q % 2 == 1 {
                    2
                } else {
                    1
                }
            }
        }
    }
}

/// Returns decimal floating-point power. `x^0` is exactly one, as is
/// `(+1)^y`; a signaling NaN operand is `Invalid`; other special operands
/// (NaNs, zeros, infinities, negative bases) follow the usual power rules,
/// and a finite positive base with a finite nonzero exponent is computed as
/// `10^(y·ln x·log10 e)`, approximately. Flags are only ever added to the
/// register.
pub fn bid128_pow(x: BID128, y: BID128, round: u32, flags: &mut u32) -> (r: BID128)
    ensures
        ({
            let vx = decode_spec(x);
            let vy = decode_spec(y);
            let rv = decode_spec(r);
            &&& dv_wf(rv)
            &&& (*final(flags) | *old(flags)) == *final(flags)
            &&& ((vx.class == DecClass::SignalingNan || vy.class == DecClass::SignalingNan)
                ==> rv == quiet_nan() && *final(flags) == *old(flags) | FB_INVALID)
            &&& ((vx.class != DecClass::SignalingNan && vy.class != DecClass::SignalingNan
                && vy.class == DecClass::Finite && vy.coefficient == 0) ==> rv == one_value()
                && *final(flags) == *old(flags))
            &&& ((vx.class != DecClass::SignalingNan && vy.class != DecClass::SignalingNan
                && !(vy.class == DecClass::Finite && vy.coefficient == 0) && is_one_pos(vx))
                ==> rv == one_value() && *final(flags) == *old(flags))
            &&& ((vx.class != DecClass::SignalingNan && vy.class != DecClass::SignalingNan
                && !(vy.class == DecClass::Finite && vy.coefficient == 0) && !is_one_pos(vx) && (
            vx.class == DecClass::QuietNan || vy.class == DecClass::QuietNan)) ==> rv
                == quiet_nan() && *final(flags) == *old(flags))
            &&& (pow_plain(vx, vy) && vx.class == DecClass::Infinite && vy.class
                == DecClass::Finite ==> rv == (DecimalValue {
                sign: vx.sign && yint_spec(vy) == 2,
                class: if vy.sign {
                    DecClass::Finite
                } else {
                    DecClass::Infinite
                },
                exponent: 0,
                coefficient: 0,
            }) && *final(flags) == *old(flags))
            &&& (pow_plain(vx, vy) && vx.class == DecClass::Finite && vx.coefficient == 0
                && vy.class == DecClass::Finite ==> rv == (DecimalValue {
                sign: vx.sign && yint_spec(vy) == 2,
                class: if vy.sign {
                    DecClass::Infinite
                } else {
                    DecClass::Finite
                },
                exponent: 0,
                coefficient: 0,
            }) && *final(flags) == *old(flags) | (if vy.sign {
                FB_ZERO_DIVIDE
            } else {
                0
            }))
            &&& (pow_plain(vx, vy) && vx.class == DecClass::Finite && vx.coefficient > 0
                && vx.sign && vy.class == DecClass::Finite && yint_spec(vy) == 0 ==> rv
                == quiet_nan() && *final(flags) == *old(flags) | FB_INVALID)
        }),
{
    let vx = decode(x);
    let vy = decode(y);
    let nan = DecimalValue { sign: false, class: DecClass::QuietNan, exponent: 0, coefficient: 0 };
    let one = DecimalValue { sign: false, class: DecClass::Finite, exponent: 0, coefficient: 1 };
    proof {
        lemma_pow10_values();
    }
    if matches!(vx.class, DecClass::SignalingNan) || matches!(vy.class, DecClass::SignalingNan) {
        *flags = *flags | FB_INVALID;
        proof {
            lemma_or_keeps(*old(flags), FB_INVALID);
        }
        return encode(nan);
    }
    if matches!(vy.class, DecClass::Finite) && vy.coefficient == 0 {
        proof {
            lemma_or_self(*old(flags));
        }
        return encode(one);
    }
    let x_is_one = matches!(vx.class, DecClass::Finite) && !vx.sign && vx.exponent <= 0
        && vx.exponent >= -34 && vx.coefficient == pow10_u128((-(vx.exponent as i64)) as u32);
    if x_is_one {
        proof {
            lemma_or_self(*old(flags));
        }
        return encode(one);
    }
    if matches!(vx.class, DecClass::QuietNan) || matches!(vy.class, DecClass::QuietNan) {
        proof {
            lemma_or_self(*old(flags));
        }
        return encode(nan);
    }
    // y is now infinite or finite nonzero; x is not +1 and not a NaN.
    let (rv, fl): (DecimalValue, u32) = match (vx.class, vy.class) {
        (_, DecClass::Infinite) => {
            // compare |x| with one
            let c = cmp_abs_one(vx);
            if c == 0 {
                (one, 0)
            } else if (c > 0) == !vy.sign {
                (
                    DecimalValue { sign: false, class: DecClass::Infinite, exponent: 0, coefficient: 0 },
                    0,
                )
            } else {
                (
                    DecimalValue { sign: false, class: DecClass::Finite, exponent: 0, coefficient: 0 },
                    0,
                )
            }
        },
        (DecClass::Infinite, DecClass::Finite) => {
            let odd = int_class(vy) == 2;
            let rsign = vx.sign && odd;
            if vy.sign {
                (
                    DecimalValue { sign: rsign, class: DecClass::Finite, exponent: 0, coefficient: 0 },
                    0,
                )
            } else {
                (
                    DecimalValue { sign: rsign, class: DecClass::Infinite, exponent: 0, coefficient: 0 },
                    0,
                )
            }
        },
        (DecClass::Finite, DecClass::Finite) => {
            if vx.coefficient == 0 {
                let odd = int_class(vy) == 2;
                let rsign = vx.sign && odd;
                if vy.sign {
                    (
                        DecimalValue {
                            sign: rsign,
                            class: DecClass::Infinite,
                            exponent: 0,
                            coefficient: 0,
                        },
                        FB_ZERO_DIVIDE,
                    )
                } else {
                    (
                        DecimalValue {
                            sign: rsign,
                            class: DecClass::Finite,
                            exponent: 0,
                            coefficient: 0,
                        },
                        0,
                    )
                }
            } else {
                let (base_sign, y_ok): (bool, bool) = if vx.sign {
                    let ic = int_class(vy);
                    if ic == 0 {
                        (false, false)
                    } else {
                        (ic == 2, true)
                    }
                } else {
                    (false, true)
                };
                if !y_ok {
                    *flags = *flags | FB_INVALID;
                    proof {
                        lemma_or_keeps(*old(flags), FB_INVALID);
                    }
                    return encode(nan);
                }
                // t = |y| * |ln x|, then 10^(±t·log10 e)
                let (lneg, lfx) = ln_core(vx.coefficient, vx.exponent);
                if big_is_zero(&lfx) {
                    // |x| is one to working precision
                    (
                        DecimalValue {
                            sign: base_sign,
                            class: DecClass::Finite,
                            exponent: 0,
                            coefficient: 1,
                        },
                        FB_INEXACT,
                    )
                } else {
                    let cyb = big_from_u128(vy.coefficient);
                    let t0 = big_mul(&cyb, &lfx);
                    let t1: Vec<u8> = if vy.exponent >= 0 {
                        if vy.exponent > 8000 {
                            // magnitude far beyond any representable result
                            big_shl(t0, 8000)
                        } else {
                            big_shl(t0, vy.exponent as usize)
                        }
                    } else {
                        let drop = -(vy.exponent as i64);
                        let kd: usize = if (drop as usize) < t0.len() {
                            drop as usize
                        } else {
                            t0.len()
                        };
                        let sk = big_skip(&t0, kd);
                        proof {
                            assert(digits_ok(sk@));
                        }
                        sk
                    };
                    let tneg = lneg != vy.sign;
                    let t10 = big_mul2_log10e(&t1);
                    let (rv0, rf0) = exp10_core(tneg, t10, round);
                    let rv1 = if base_sign && rv0.class == DecClass::Finite {
                        DecimalValue { sign: true, ..rv0 }
                    } else if base_sign && rv0.class == DecClass::Infinite {
                        DecimalValue { sign: true, ..rv0 }
                    } else {
                        rv0
                    };
                    (rv1, rf0)
                }
            }
        },
        _ => (nan, 0),
    };
    *flags = *flags | fl;
    proof {
        lemma_or_keeps(*old(flags), fl);
        lemma_or_nothing(*old(flags));
    }
    encode(rv)
}

/// Multiplies an uncapped fixed-point magnitude by `log10 e`, dropping the
/// guard digits.
fn big_mul2_log10e(t: &Vec<u8>) -> (r: Vec<u8>)
    requires
        digits_ok(t@),
        t@.len() <= 60000,
    ensures
        digits_ok(r@),
        r@.len() <= 100000,
{
    let l = log10e_fx();
    let p = big_mul(t, &l);
    let k = if p.len() < FX_G {
        p.len()
    } else {
        FX_G
    };
    let s = big_skip(&p, k);
    proof {
        assert(digits_ok(s@));
    }
    s
}

/// Compares the magnitude of a non-NaN operand with one.
fn cmp_abs_one(v: DecimalValue) -> (r: i32)
    requires
        dv_wf(v),
        v.class == DecClass::Finite || v.class == DecClass::Infinite,
{
    proof {
        lemma_pow10_values();
    }
    match v.class {
        DecClass::Infinite => 1,
        _ => {
            if v.coefficient == 0 {
                -1
            } else if v.exponent <= 0 && v.exponent >= -34 && v.coefficient == pow10_u128(
                (-(v.exponent as i64)) as u32,
            ) {
                0
            } else {
                let n = ndigits_u128(v.coefficient);
                proof {
                    lemma_ndigits_le(v.coefficient as nat, 34);
                }
                if n as i64 + v.exponent as i64 >= 1 {
                    1
                } else {
                    -1
                }
            }
        },
    }
}

} // verus!
