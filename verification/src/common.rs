//! Common definitions: the 128-bit interchange type, exception flags,
//! rounding modes, and the decomposed value type the engine computes on.

use vstd::prelude::*;

verus! {

/// Exception flag `Invalid` as a [u32] bit.
pub const FB_INVALID: u32 = 1;
/// Exception flag `ZeroDivide` as a [u32] bit.
pub const FB_ZERO_DIVIDE: u32 = 4;
/// Exception flag `Overflow` as a [u32] bit.
pub const FB_OVERFLOW: u32 = 8;
/// Exception flag `Underflow` as a [u32] bit.
pub const FB_UNDERFLOW: u32 = 16;
/// Exception flag `Inexact` as a [u32] bit.
pub const FB_INEXACT: u32 = 32;
/// All exception flags clear, as a [u32] value.
pub const FB_CLEAR: u32 = 0;

/// Exception flags.
#[derive(Clone, Copy, Debug, PartialEq, Eq, Structural)]
pub enum FlagBits {
    Invalid,
    ZeroDivide,
    Overflow,
    Underflow,
    Inexact,
    AllFlagsClear,
}

impl FlagBits {
    /// The flag's bit as a [u32] value, as stored in a flag register.
    pub fn value(self) -> (r: u32)
        ensures
            r == match self {
                FlagBits::Invalid => FB_INVALID,
                FlagBits::ZeroDivide => FB_ZERO_DIVIDE,
                FlagBits::Overflow => FB_OVERFLOW,
                FlagBits::Underflow => FB_UNDERFLOW,
                FlagBits::Inexact => FB_INEXACT,
                FlagBits::AllFlagsClear => FB_CLEAR,
            },
    {
        match self {
            FlagBits::Invalid => FB_INVALID,
            FlagBits::ZeroDivide => FB_ZERO_DIVIDE,
            FlagBits::Overflow => FB_OVERFLOW,
            FlagBits::Underflow => FB_UNDERFLOW,
            FlagBits::Inexact => FB_INEXACT,
            FlagBits::AllFlagsClear => FB_CLEAR,
        }
    }
}

/// Rounding mode `NearestEven` as a [u32] value.
pub const RM_NEAREST_EVEN: u32 = 0;
/// Rounding mode `Downward` as a [u32] value.
pub const RM_DOWNWARD: u32 = 1;
/// Rounding mode `Upward` as a [u32] value.
pub const RM_UPWARD: u32 = 2;
/// Rounding mode `TowardZero` as a [u32] value.
pub const RM_TOWARD_ZERO: u32 = 3;
/// Rounding mode `NearestAway` as a [u32] value.
pub const RM_NEAREST_AWAY: u32 = 4;

/// Rounding modes.
#[derive(Clone, Copy, Debug, PartialEq, Eq, Structural)]
pub enum RoundingModes {
    NearestEven,
    Downward,
    Upward,
    TowardZero,
    NearestAway,
}

impl RoundingModes {
    /// The mode as the [u32] value that the operations take.
    pub fn value(self) -> (r: u32)
        ensures
            r == match self {
                RoundingModes::NearestEven => RM_NEAREST_EVEN,
                RoundingModes::Downward => RM_DOWNWARD,
                RoundingModes::Upward => RM_UPWARD,
                RoundingModes::TowardZero => RM_TOWARD_ZERO,
                RoundingModes::NearestAway => RM_NEAREST_AWAY,
            },
    {
        match self {
            RoundingModes::NearestEven => RM_NEAREST_EVEN,
            RoundingModes::Downward => RM_DOWNWARD,
            RoundingModes::Upward => RM_UPWARD,
            RoundingModes::TowardZero => RM_TOWARD_ZERO,
            RoundingModes::NearestAway => RM_NEAREST_AWAY,
        }
    }
}

/// Index of the high word of a [BID128] in its `w` array.
pub const HIGH_128W: usize = 1;
/// Index of the low word of a [BID128] in its `w` array.
pub const LOW_128W: usize = 0;

/// 128-bit decimal in the binary-integer-decimal interchange encoding.
/// `w[0]` is the low 64 bits, `w[1]` the high 64 bits.
#[derive(Debug, Copy, Clone)]
pub struct BID128 {
    pub w: [u64; 2],
}

/// The class of a decoded decimal value.
#[derive(Clone, Copy, Debug, PartialEq, Eq, Structural)]
pub enum DecClass {
    Finite,
    Infinite,
    QuietNan,
    SignalingNan,
}

/// A decimal value decomposed into sign, class, exponent and coefficient.
///
/// For a finite value the number represented is
/// `(-1)^sign * coefficient * 10^exponent`; two members of the same cohort
/// (equal numeric value, different `(coefficient, exponent)` pairs) are
/// distinct values of this type. For infinities and NaNs the exponent and
/// coefficient are zero, and NaNs carry no sign.
#[derive(Clone, Copy, Debug, PartialEq, Eq, Structural)]
pub struct DecimalValue {
    pub sign: bool,
    pub class: DecClass,
    pub exponent: i32,
    pub coefficient: u128,
}

/// Smallest unbiased exponent of a decimal128 value.
pub const E_MIN: i32 = -6176;
/// Largest unbiased exponent of a decimal128 value.
pub const E_MAX: i32 = 6111;
/// Number of significant decimal digits of a decimal128 coefficient.
pub const MAX_DIGITS: u32 = 34;

/// Well-formedness of a decomposed value: a finite coefficient has at most
/// 34 decimal digits and the exponent lies in the decimal128 range; special
/// values carry no coefficient or exponent, and NaNs no sign.
pub open spec fn dv_wf(v: DecimalValue) -> bool {
    match v.class {
        DecClass::Finite => v.coefficient < crate::tens::pow10(34) && E_MIN <= v.exponent
            <= E_MAX,
        DecClass::Infinite => v.coefficient == 0 && v.exponent == 0,
        DecClass::QuietNan => v.coefficient == 0 && v.exponent == 0 && v.sign == false,
        DecClass::SignalingNan => v.coefficient == 0 && v.exponent == 0 && v.sign == false,
    }
}

/// The quiet NaN returned by operations on invalid operands.
pub open spec fn quiet_nan() -> DecimalValue {
    DecimalValue { sign: false, class: DecClass::QuietNan, exponent: 0, coefficient: 0 }
}

} // verus!
