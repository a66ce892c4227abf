//! A software implementation of the IEEE 754-2008 decimal128 interchange
//! format: 34 significant decimal digits, signed zeros, infinities and NaNs.
//!
//! Every operation takes its operands by value together with a rounding mode
//! and a caller-owned exception-flag register, and returns a well-defined
//! result; no operation panics or aborts.

pub mod arith;
pub mod bignum;
pub mod classify;
pub mod codec;
pub mod common;
pub mod compare;
pub mod convert;
pub mod divide;
pub mod exp_log;
pub mod laws;
pub mod quant;
pub mod rounding;
pub mod tens;
pub mod text;

pub use arith::{bid128_add, bid128_mul, bid128_sub};
pub use classify::{
    bid128_abs, bid128_copy, bid128_frexp, bid128_ilogb, bid128_inf, bid128_is_finite,
    bid128_is_infinite, bid128_is_signed, bid128_is_zero, bid128_negate, bid128_quantexp,
    bid128_quantum,
};
pub use common::{
    BID128, DecClass, DecimalValue, FlagBits, RoundingModes, E_MAX, E_MIN, FB_CLEAR, FB_INEXACT,
    FB_INVALID, FB_OVERFLOW, FB_UNDERFLOW, FB_ZERO_DIVIDE, HIGH_128W, LOW_128W, MAX_DIGITS,
    RM_DOWNWARD, RM_NEAREST_AWAY, RM_NEAREST_EVEN, RM_TOWARD_ZERO, RM_UPWARD,
};
pub use compare::{
    bid128_maxnum, bid128_minnum, bid128_quiet_equal, bid128_quiet_greater,
    bid128_quiet_greater_equal, bid128_quiet_less, bid128_quiet_less_equal,
};
pub use convert::{
    bid128_from_int32, bid128_from_int64, bid128_from_uint32, bid128_from_uint64,
    bid128_to_int32_int, bid128_to_int64_int, bid128_to_uint32_int, bid128_to_uint64_int,
};
pub use divide::{bid128_div, bid128_rem, bid128_sqrt};
pub use exp_log::{bid128_exp, bid128_log, bid128_pow};
pub use quant::{
    bid128_quantize, bid128_round_integral_exact, bid128_round_integral_nearest_away,
    bid128_round_integral_nearest_even, bid128_round_integral_negative,
    bid128_round_integral_positive, bid128_round_integral_zero, bid128_scalbn,
};
pub use text::{bid128_from_string, bid128_to_string};
