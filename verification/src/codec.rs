//! The binary interchange codec: 128-bit encoded values are decomposed into
//! sign, class, exponent and coefficient, and composed back. Decoding treats
//! a non-canonical coefficient (binary value of at least `10^34`) as zero;
//! encoding never produces a non-canonical pattern.

use crate::common::{BID128, DecClass, DecimalValue, dv_wf, quiet_nan};
use crate::rounding::{clamp_exp, infinity};
use crate::tens::{lemma_pow10_values, pow10, pow10_u128};
use vstd::prelude::*;

verus! {

/// The sign bit of the high word.
pub open spec fn field_sign(hi: u64) -> bool {
    (hi >> 63) & 1 == 1
}

/// The five-bit combination field of the high word.
pub open spec fn comb5(hi: u64) -> u64 {
    (hi >> 58) & 0x1F
}

/// The decomposed value of an encoded bit pattern.
pub open spec fn decode_spec(b: BID128) -> DecimalValue {
    let lo = b.w[0];
    let hi = b.w[1];
    if comb5(hi) == 0x1E {
        infinity(field_sign(hi))
    } else if comb5(hi) == 0x1F {
        if (hi >> 57) & 1 == 1 {
            DecimalValue { sign: false, class: DecClass::SignalingNan, exponent: 0, coefficient: 0 }
        } else {
            quiet_nan()
        }
    } else if (hi >> 61) & 3 == 3 {
        // Steered form: the implied coefficient prefix makes the binary
        // value exceed 34 digits, so the coefficient reads as zero.
        DecimalValue {
            sign: field_sign(hi),
            class: DecClass::Finite,
            exponent: clamp_exp(((hi >> 47) & 0x3FFF) - 6176) as i32,
            coefficient: 0,
        }
    } else {
        let e = ((hi >> 49) & 0x3FFF) - 6176;
        let c = (((hi & 0x1FFFFFFFFFFFF) as u128) << 64) | (lo as u128);
        if c >= pow10(34) {
            DecimalValue { sign: field_sign(hi), class: DecClass::Finite, exponent: e as i32, coefficient: 0 }
        } else {
            DecimalValue { sign: field_sign(hi), class: DecClass::Finite, exponent: e as i32, coefficient: c }
        }
    }
}

/// The low word of the encoding of a decomposed value.
pub open spec fn encode_lo(v: DecimalValue) -> u64 {
    match v.class {
        DecClass::Finite => v.coefficient as u64,
        _ => 0,
    }
}

/// The high word of the encoding of a decomposed value.
pub open spec fn encode_hi(v: DecimalValue) -> u64 {
    let sign_bit: u64 = if v.sign {
        1u64 << 63
    } else {
        0
    };
    match v.class {
        DecClass::Finite => sign_bit | (((v.exponent + 6176) as u64) << 49) | ((v.coefficient
            >> 64) as u64),
        DecClass::Infinite => sign_bit | (0x1Eu64 << 58),
        DecClass::QuietNan => 0x1Fu64 << 58,
        DecClass::SignalingNan => (0x1Fu64 << 58) | (1u64 << 57),
    }
}

/// The encoding of a decomposed value.
pub open spec fn encode_spec(v: DecimalValue) -> BID128 {
    BID128 { w: [encode_lo(v), encode_hi(v)] }
}

/// Decoding reverses encoding on every well-formed value: the binary codec
/// loses nothing, cohort identity included.
pub proof fn lemma_decode_encode(v: DecimalValue)
    requires
        dv_wf(v),
    ensures
        decode_spec(encode_spec(v)) == v,
{
    lemma_pow10_values();
    let lo = encode_lo(v);
    let hi = encode_hi(v);
    let sgn = v.sign;
    match v.class {
        DecClass::Finite => {
            let c = v.coefficient;
            let eb: u64 = (v.exponent + 6176) as u64;
            let sb: u64 = if sgn {
                1u64 << 63
            } else {
                0
            };
            let chi: u64 = (c >> 64) as u64;
            assert(c < 0x20000000000000000000000000000);
            assert(chi < 0x2000000000000) by (bit_vector)
                requires
                    chi == (c >> 64) as u64,
                    c < 0x20000000000000000000000000000u128,
            ;
            assert(eb <= 12287);
            let h: u64 = sb | (eb << 49) | chi;
            assert(hi == h);
            assert(((h >> 58) & 0x1F != 0x1E) && ((h >> 58) & 0x1F != 0x1F) && ((h >> 61) & 3
                != 3) && ((h >> 63) & 1 == (if sgn {
                1u64
            } else {
                0u64
            })) && ((h >> 49) & 0x3FFF == eb) && (h & 0x1FFFFFFFFFFFF == chi)) by (bit_vector)
                requires
                    h == sb | (eb << 49) | chi,
                    sb == (if sgn {
                        1u64 << 63
                    } else {
                        0u64
                    }),
                    eb <= 12287u64,
                    chi < 0x2000000000000u64,
            ;
            assert((((chi as u128) << 64) | (lo as u128)) == c) by (bit_vector)
                requires
                    chi == (c >> 64) as u64,
                    lo == c as u64,
                    c < 0x20000000000000000000000000000u128,
            ;
            assert(decode_spec(encode_spec(v)).coefficient == c);
            assert(decode_spec(encode_spec(v)).exponent == v.exponent);
        },
        DecClass::Infinite => {
            let sb: u64 = if sgn {
                1u64 << 63
            } else {
                0
            };
            let h: u64 = sb | (0x1Eu64 << 58);
            assert(((h >> 58) & 0x1F == 0x1E) && ((h >> 63) & 1 == (if sgn {
                1u64
            } else {
                0u64
            }))) by (bit_vector)
                requires
                    h == sb | (0x1Eu64 << 58),
                    sb == (if sgn {
                        1u64 << 63
                    } else {
                        0u64
                    }),
            ;
        },
        DecClass::QuietNan => {
            let h: u64 = 0x1Fu64 << 58;
            assert(((h >> 58) & 0x1F == 0x1F) && ((h >> 57) & 1 == 0)) by (bit_vector)
                requires
                    h == 0x1Fu64 << 58,
            ;
        },
        DecClass::SignalingNan => {
            let h: u64 = (0x1Fu64 << 58) | (1u64 << 57);
            assert(((h >> 58) & 0x1F == 0x1F) && ((h >> 57) & 1 == 1)) by (bit_vector)
                requires
                    h == (0x1Fu64 << 58) | (1u64 << 57),
            ;
        },
    }
}

/// Every decoded value is well-formed.
pub proof fn lemma_decode_wf(b: BID128)
    ensures
        dv_wf(decode_spec(b)),
{
    lemma_pow10_values();
    let hi = b.w[1];
    if comb5(hi) != 0x1E && comb5(hi) != 0x1F && (hi >> 61) & 3 != 3 {
        assert((hi >> 49) & 0x3FFF <= 12287) by (bit_vector)
            requires
                (hi >> 61) & 3 != 3,
        ;
    }
}

/// Decodes a 128-bit pattern into its sign, class, exponent and coefficient.
pub fn decode(b: BID128) -> (v: DecimalValue)
    ensures
        v == decode_spec(b),
        dv_wf(v),
{
    proof {
        lemma_decode_wf(b);
        lemma_pow10_values();
    }
    let lo = b.w[0];
    let hi = b.w[1];
    let c5 = (hi >> 58) & 0x1F;
    if c5 == 0x1E {
        DecimalValue {
            sign: (hi >> 63) & 1 == 1,
            class: DecClass::Infinite,
            exponent: 0,
            coefficient: 0,
        }
    } else if c5 == 0x1F {
        if (hi >> 57) & 1 == 1 {
            DecimalValue { sign: false, class: DecClass::SignalingNan, exponent: 0, coefficient: 0 }
        } else {
            DecimalValue { sign: false, class: DecClass::QuietNan, exponent: 0, coefficient: 0 }
        }
    } else if (hi >> 61) & 3 == 3 {
        let ef = (hi >> 47) & 0x3FFF;
        proof {
            assert((hi >> 47) & 0x3FFF <= 16383) by (bit_vector);
        }
        let ec: i64 = ef as i64 - 6176;
        let e: i32 = if ec > 6111 {
            6111
        } else {
            ec as i32
        };
        DecimalValue {
            sign: (hi >> 63) & 1 == 1,
            class: DecClass::Finite,
            exponent: e,
            coefficient: 0,
        }
    } else {
        let ef = (hi >> 49) & 0x3FFF;
        proof {
            assert((hi >> 49) & 0x3FFF <= 12287) by (bit_vector)
                requires
                    (hi >> 61) & 3 != 3,
            ;
        }
        let e: i32 = ef as i32 - 6176;
        let c: u128 = (((hi & 0x1FFFFFFFFFFFF) as u128) << 64) | (lo as u128);
        let p34 = pow10_u128(34);
        if c >= p34 {
            DecimalValue {
                sign: (hi >> 63) & 1 == 1,
                class: DecClass::Finite,
                exponent: e,
                coefficient: 0,
            }
        } else {
            DecimalValue {
                sign: (hi >> 63) & 1 == 1,
                class: DecClass::Finite,
                exponent: e,
                coefficient: c,
            }
        }
    }
}

/// Encodes a well-formed decomposed value; the result is always canonical.
pub fn encode(v: DecimalValue) -> (b: BID128)
    requires
        dv_wf(v),
    ensures
        b == encode_spec(v),
        decode_spec(b) == v,
{
    proof {
        lemma_decode_encode(v);
    }
    let sign_bit: u64 = if v.sign {
        1u64 << 63
    } else {
        0
    };
    match v.class {
        DecClass::Finite => {
            let eb: u64 = (v.exponent + 6176) as u64;
            let hi: u64 = sign_bit | (eb << 49) | ((v.coefficient >> 64) as u64);
            proof {
                lemma_pow10_values();
                assert(eb << 49 <= 0x5FFE000000000000) by (bit_vector)
                    requires
                        eb <= 12287u64,
                ;
            }
            BID128 { w: [v.coefficient as u64, hi] }
        },
        DecClass::Infinite => BID128 { w: [0, sign_bit | (0x1Eu64 << 58)] },
        DecClass::QuietNan => BID128 { w: [0, 0x1Fu64 << 58] },
        DecClass::SignalingNan => BID128 { w: [0, (0x1Fu64 << 58) | (1u64 << 57)] },
    }
}

} // verus!
