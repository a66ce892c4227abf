//! Further tests: the codec round trip, parsing edge cases, comparison,
//! conversion, remainder, square root, quantum inspection and the
//! exception-flag conditions of each operation.

use dfp_number::{
    bid128_abs, bid128_add, bid128_copy, bid128_div, bid128_exp, bid128_from_int32,
    bid128_from_int64, bid128_from_string, bid128_from_uint64, bid128_frexp, bid128_ilogb,
    bid128_inf, bid128_is_finite, bid128_is_infinite, bid128_is_signed, bid128_is_zero,
    bid128_maxnum, bid128_minnum, bid128_mul, bid128_negate, bid128_pow, bid128_quantexp, bid128_quantize,
    bid128_quantum, bid128_quiet_equal, bid128_quiet_greater, bid128_quiet_greater_equal,
    bid128_quiet_less, bid128_quiet_less_equal, bid128_rem, bid128_round_integral_exact,
    bid128_round_integral_nearest_away, bid128_round_integral_nearest_even,
    bid128_round_integral_negative, bid128_round_integral_positive, bid128_round_integral_zero,
    bid128_scalbn, bid128_sqrt, bid128_sub, bid128_to_int32_int, bid128_to_int64_int,
    bid128_to_string, bid128_to_uint32_int, bid128_to_uint64_int, BID128, DecClass, DecimalValue,
    FB_CLEAR, FB_INEXACT, FB_INVALID, FB_OVERFLOW, FB_UNDERFLOW, FB_ZERO_DIVIDE, RM_DOWNWARD,
    RM_NEAREST_EVEN, RM_TOWARD_ZERO, RM_UPWARD,
};
use dfp_number::codec::{decode, encode};

fn eq(expected: &str, actual: BID128) {
    let mut flags: u32 = 0;
    assert_eq!(expected, bid128_to_string(actual, &mut flags));
    assert_eq!(0, flags);
}

fn d128(s: &str) -> BID128 {
    let mut flags = FB_CLEAR;
    let x = bid128_from_string(s, RM_NEAREST_EVEN, &mut flags);
    assert_eq!(FB_CLEAR, flags);
    x
}

#[test]
fn test_codec_round_trip() {
    let v = DecimalValue {
        sign: true,
        class: DecClass::Finite,
        exponent: -2,
        coefficient: 12345,
    };
    let bits = encode(v);
    let back = decode(bits);
    assert_eq!(v, back);
    // and the same bits as parsing the same value
    let parsed = d128("-123.45");
    assert_eq!(bits.w[0], parsed.w[0]);
    assert_eq!(bits.w[1], parsed.w[1]);
}

#[test]
fn test_parse_special_forms() {
    eq("+Inf", d128("Infinity"));
    eq("-Inf", d128("-INF"));
    eq("NaN", d128("nan"));
    eq("sNaN", d128("sNaN"));
    eq("NaN", d128("NaN123"));
}

#[test]
fn test_parse_malformed() {
    for s in ["", "abc", "1..2", "1e", "1e+", "--1", "1.2.3", "12 ", ".5", "1."] {
        let mut flags = FB_CLEAR;
        let x = bid128_from_string(s, RM_NEAREST_EVEN, &mut flags);
        assert_eq!(FB_INVALID, flags, "input {:?}", s);
        let mut f2 = FB_CLEAR;
        assert_eq!("NaN", bid128_to_string(x, &mut f2));
    }
}

#[test]
fn test_parse_long_coefficient_rounds() {
    let mut flags = FB_CLEAR;
    let x = bid128_from_string(
        "99999999999999999999999999999999999",
        RM_NEAREST_EVEN,
        &mut flags,
    );
    assert_eq!(FB_INEXACT, flags);
    eq("+1000000000000000000000000000000000E+2", x);
}

#[test]
fn test_parse_leading_zeros() {
    eq("+7E+0", d128("007"));
    eq("+0E+0", d128("0"));
    eq("-0E+0", d128("-0e0"));
    eq("+1020E-4", d128("001.020E-1"));
}

#[test]
fn test_div_inexact() {
    let mut flags = FB_CLEAR;
    let z = bid128_div(
        bid128_from_int32(1),
        bid128_from_int32(3),
        RM_NEAREST_EVEN,
        &mut flags,
    );
    assert_eq!(FB_INEXACT, flags);
    eq("+3333333333333333333333333333333333E-34", z);
}

#[test]
fn test_div_zero_divide() {
    let mut flags = FB_CLEAR;
    let z = bid128_div(
        bid128_from_int32(1),
        bid128_from_int32(0),
        RM_NEAREST_EVEN,
        &mut flags,
    );
    assert_eq!(FB_ZERO_DIVIDE, flags);
    eq("+Inf", z);
}

#[test]
fn test_div_invalid() {
    let mut flags = FB_CLEAR;
    let z = bid128_div(
        bid128_from_int32(0),
        bid128_from_int32(0),
        RM_NEAREST_EVEN,
        &mut flags,
    );
    assert_eq!(FB_INVALID, flags);
    let mut f2 = FB_CLEAR;
    assert_eq!("NaN", bid128_to_string(z, &mut f2));
}

#[test]
fn test_mul_overflow() {
    let mut flags = FB_CLEAR;
    let z = bid128_mul(d128("1E+6000"), d128("1E+6000"), RM_NEAREST_EVEN, &mut flags);
    assert_eq!(FB_OVERFLOW | FB_INEXACT, flags);
    eq("+Inf", z);
}

#[test]
fn test_mul_underflow() {
    let mut flags = FB_CLEAR;
    let z = bid128_mul(d128("1E-6000"), d128("1E-6000"), RM_NEAREST_EVEN, &mut flags);
    assert_eq!(FB_UNDERFLOW | FB_INEXACT, flags);
    eq("+0E-6176", z);
}

#[test]
fn test_add_commutes_concrete() {
    let a = d128("1.25");
    let b = d128("-7.5E+2");
    let mut f1 = FB_CLEAR;
    let mut f2 = FB_CLEAR;
    let ab = bid128_add(a, b, RM_NEAREST_EVEN, &mut f1);
    let ba = bid128_add(b, a, RM_NEAREST_EVEN, &mut f2);
    assert_eq!(f1, f2);
    let mut g = FB_CLEAR;
    assert_eq!(
        bid128_to_string(ab, &mut g),
        bid128_to_string(ba, &mut g)
    );
    eq("-74875E-2", ab);
}

#[test]
fn test_mul_commutes_concrete() {
    let a = d128("1.5");
    let b = d128("-2.5");
    let mut f1 = FB_CLEAR;
    let mut f2 = FB_CLEAR;
    let ab = bid128_mul(a, b, RM_NEAREST_EVEN, &mut f1);
    let ba = bid128_mul(b, a, RM_NEAREST_EVEN, &mut f2);
    assert_eq!(f1, f2);
    let mut g = FB_CLEAR;
    assert_eq!(
        bid128_to_string(ab, &mut g),
        bid128_to_string(ba, &mut g)
    );
    eq("-375E-2", ab);
}

#[test]
fn test_text_round_trip_concrete() {
    for s in ["+12345E-2", "-0E+0", "+0E+0", "+9999999999999999999999999999999999E+6111", "-1E-6176"] {
        let x = d128(s);
        let mut f = FB_CLEAR;
        assert_eq!(s, bid128_to_string(x, &mut f));
    }
}

#[test]
fn test_quiet_comparisons() {
    let two = bid128_from_int32(2);
    let three = bid128_from_int32(3);
    let mut f = FB_CLEAR;
    assert!(bid128_quiet_less(two, three, &mut f));
    assert!(bid128_quiet_less_equal(two, three, &mut f));
    assert!(!bid128_quiet_greater(two, three, &mut f));
    assert!(!bid128_quiet_greater_equal(two, three, &mut f));
    assert!(!bid128_quiet_equal(two, three, &mut f));
    assert_eq!(FB_CLEAR, f);
    // cohort-insensitive equality
    assert!(bid128_quiet_equal(d128("200E-2"), d128("2"), &mut f));
    assert!(bid128_quiet_equal(d128("+0"), d128("-0"), &mut f));
    assert_eq!(FB_CLEAR, f);
    // quiet NaN: unordered, no flag
    let nan = d128("NaN");
    assert!(!bid128_quiet_equal(nan, nan, &mut f));
    assert!(!bid128_quiet_less(nan, two, &mut f));
    assert_eq!(FB_CLEAR, f);
    // signaling NaN raises Invalid
    let snan = d128("sNaN");
    assert!(!bid128_quiet_equal(snan, two, &mut f));
    assert_eq!(FB_INVALID, f);
}

#[test]
fn test_minnum_maxnum_nan() {
    let mut f = FB_CLEAR;
    let five = bid128_from_int32(5);
    let nan = d128("NaN");
    eq("+5E+0", bid128_minnum(nan, five, &mut f));
    eq("+5E+0", bid128_maxnum(five, nan, &mut f));
    assert_eq!(FB_CLEAR, f);
    eq("+7E+0", bid128_maxnum(five, bid128_from_int32(7), &mut f));
}

#[test]
fn test_to_int_conversions() {
    let mut f = FB_CLEAR;
    assert_eq!(2, bid128_to_int32_int(d128("2.7"), &mut f));
    assert_eq!(-2, bid128_to_int32_int(d128("-2.7"), &mut f));
    assert_eq!(0, bid128_to_uint32_int(d128("-0.5"), &mut f));
    assert_eq!(FB_CLEAR, f);
    assert_eq!(i32::MIN, bid128_to_int32_int(d128("3000000000"), &mut f));
    assert_eq!(FB_INVALID, f);
    f = FB_CLEAR;
    assert_eq!(0x80000000u32, bid128_to_uint32_int(d128("-1"), &mut f));
    assert_eq!(FB_INVALID, f);
    f = FB_CLEAR;
    assert_eq!(
        9223372036854775807i64,
        bid128_to_int64_int(d128("9223372036854775807"), &mut f)
    );
    assert_eq!(
        18446744073709551615u64,
        bid128_to_uint64_int(d128("18446744073709551615"), &mut f)
    );
    assert_eq!(FB_CLEAR, f);
    f = FB_CLEAR;
    assert_eq!(0x8000000000000000u64, bid128_to_uint64_int(d128("NaN"), &mut f));
    assert_eq!(FB_INVALID, f);
}

#[test]
fn test_rem() {
    let mut f = FB_CLEAR;
    let z = bid128_rem(bid128_from_int32(10), bid128_from_int32(3), &mut f);
    assert_eq!(FB_CLEAR, f);
    eq("+1E+0", z);
    let z2 = bid128_rem(d128("-10"), bid128_from_int32(3), &mut f);
    eq("-1E+0", z2);
    let z3 = bid128_rem(bid128_from_int32(1), bid128_from_int32(0), &mut f);
    assert_eq!(FB_INVALID, f);
    let mut g = FB_CLEAR;
    assert_eq!("NaN", bid128_to_string(z3, &mut g));
}

#[test]
fn test_sqrt() {
    let mut f = FB_CLEAR;
    eq("+2E+0", bid128_sqrt(bid128_from_int32(4), RM_NEAREST_EVEN, &mut f));
    assert_eq!(FB_CLEAR, f);
    let z = bid128_sqrt(bid128_from_int32(2), RM_NEAREST_EVEN, &mut f);
    assert_eq!(FB_INEXACT, f);
    eq("+1414213562373095048801688724209698E-33", z);
    f = FB_CLEAR;
    let neg = bid128_sqrt(bid128_from_int32(-1), RM_NEAREST_EVEN, &mut f);
    assert_eq!(FB_INVALID, f);
    let mut g = FB_CLEAR;
    assert_eq!("NaN", bid128_to_string(neg, &mut g));
    f = FB_CLEAR;
    eq("+10E+0", bid128_sqrt(d128("100"), RM_NEAREST_EVEN, &mut f));
    assert_eq!(FB_CLEAR, f);
}

#[test]
fn test_round_integral() {
    let mut f = FB_CLEAR;
    eq("+3E+0", bid128_round_integral_positive(d128("2.1"), &mut f));
    eq("+2E+0", bid128_round_integral_negative(d128("2.9"), &mut f));
    eq("-2E+0", bid128_round_integral_zero(d128("-2.7"), &mut f));
    eq("+2E+0", bid128_round_integral_nearest_even(d128("2.5"), &mut f));
    eq("+3E+0", bid128_round_integral_nearest_away(d128("2.5"), &mut f));
    assert_eq!(FB_CLEAR, f);
    eq("+2E+0", bid128_round_integral_exact(d128("2.5"), RM_NEAREST_EVEN, &mut f));
    assert_eq!(FB_INEXACT, f);
}

#[test]
fn test_quantum_inspection() {
    let x = d128("1.23");
    assert_eq!(-2, bid128_quantexp(x));
    eq("+1E-2", bid128_quantum(x));
    let mut f = FB_CLEAR;
    assert_eq!(1, bid128_ilogb(d128("12.34"), &mut f));
    assert_eq!(FB_CLEAR, f);
    let mut e: i32 = 0;
    let m = bid128_frexp(d128("12.34"), &mut e);
    assert_eq!(1, e);
    eq("+1234E-3", m);
}

#[test]
fn test_sign_operations() {
    eq("+12345E-4", bid128_abs(d128("-1.2345")));
    eq("+12345E-4", bid128_abs(d128("+1.2345")));
    let x = d128("-7");
    let c = bid128_copy(x);
    assert_eq!(x.w[0], c.w[0]);
    assert_eq!(x.w[1], c.w[1]);
    assert!(bid128_is_signed(x));
    assert!(!bid128_is_signed(bid128_negate(x)));
}

#[test]
fn test_classification() {
    assert!(bid128_is_finite(d128("1.5")));
    assert!(!bid128_is_finite(bid128_inf()));
    assert!(bid128_is_infinite(bid128_inf()));
    assert!(!bid128_is_infinite(d128("1.5")));
    assert!(!bid128_is_finite(d128("NaN")));
    assert!(bid128_is_zero(d128("-0")));
    eq("+Inf", bid128_inf());
}

#[test]
fn test_add_special_operands() {
    let mut f = FB_CLEAR;
    let inf = bid128_inf();
    let minf = bid128_negate(inf);
    eq("+Inf", bid128_add(inf, bid128_from_int32(5), RM_NEAREST_EVEN, &mut f));
    assert_eq!(FB_CLEAR, f);
    let z = bid128_add(inf, minf, RM_NEAREST_EVEN, &mut f);
    assert_eq!(FB_INVALID, f);
    let mut g = FB_CLEAR;
    assert_eq!("NaN", bid128_to_string(z, &mut g));
    // cancellation to zero is positive except under Downward
    f = FB_CLEAR;
    eq("+0E+0", bid128_sub(bid128_from_int32(5), bid128_from_int32(5), RM_NEAREST_EVEN, &mut f));
    let mut fd = FB_CLEAR;
    let zd = bid128_sub(bid128_from_int32(5), bid128_from_int32(5), RM_DOWNWARD, &mut fd);
    eq("-0E+0", zd);
}

#[test]
fn test_rounding_modes_div() {
    // 1/3 rounded in each direction
    let one = bid128_from_int32(1);
    let three = bid128_from_int32(3);
    let mut f = FB_CLEAR;
    let down = bid128_div(one, three, RM_TOWARD_ZERO, &mut f);
    eq("+3333333333333333333333333333333333E-34", down);
    let up = bid128_div(one, three, RM_UPWARD, &mut f);
    eq("+3333333333333333333333333333333334E-34", up);
    let neg_up = bid128_div(bid128_from_int32(-1), three, RM_UPWARD, &mut f);
    eq("-3333333333333333333333333333333333E-34", neg_up);
    let neg_down = bid128_div(bid128_from_int32(-1), three, RM_DOWNWARD, &mut f);
    eq("-3333333333333333333333333333333334E-34", neg_down);
}

#[test]
fn test_pow_basics() {
    let mut f = FB_CLEAR;
    eq("+1E+0", bid128_pow(d128("NaN"), bid128_from_int32(0), RM_NEAREST_EVEN, &mut f));
    eq("+1E+0", bid128_pow(bid128_from_int32(1), d128("123.5"), RM_NEAREST_EVEN, &mut f));
    assert_eq!(FB_CLEAR, f);
    let z = bid128_pow(bid128_from_int32(0), bid128_from_int32(-2), RM_NEAREST_EVEN, &mut f);
    assert_eq!(FB_ZERO_DIVIDE, f);
    eq("+Inf", z);
    f = FB_CLEAR;
    let inv = bid128_pow(bid128_from_int32(-2), d128("0.5"), RM_NEAREST_EVEN, &mut f);
    assert_eq!(FB_INVALID, f);
    let mut g = FB_CLEAR;
    assert_eq!("NaN", bid128_to_string(inv, &mut g));
    f = FB_CLEAR;
    let r = bid128_pow(bid128_from_int32(2), d128("0.5"), RM_NEAREST_EVEN, &mut f);
    assert_eq!(FB_INEXACT, f);
    eq("+1414213562373095048801688724209698E-33", r);
}

#[test]
fn test_exp_negative_infinity() {
    let mut f = FB_CLEAR;
    eq("+0E+0", bid128_exp(bid128_negate(bid128_inf()), RM_NEAREST_EVEN, &mut f));
    eq("+Inf", bid128_exp(bid128_inf(), RM_NEAREST_EVEN, &mut f));
    assert_eq!(FB_CLEAR, f);
}

#[test]
fn test_scalbn_range() {
    // in range: a pure reinterpretation
    eq("+5E+100", bid128_scalbn(d128("5E+50"), 50));
    // far out of range: saturates like arithmetic would
    eq("+Inf", bid128_scalbn(d128("5"), 100000));
}

#[test]
fn test_quantize_invalid() {
    // re-expressing 1E+10 at exponent -30 would need more than 34 digits
    let mut f = FB_CLEAR;
    let z = bid128_quantize(d128("1E+10"), d128("1E-30"), RM_NEAREST_EVEN, &mut f);
    assert_eq!(FB_INVALID, f);
    let mut g = FB_CLEAR;
    assert_eq!("NaN", bid128_to_string(z, &mut g));
}

#[test]
fn test_exp_far_range() {
    let mut f = FB_CLEAR;
    let big = bid128_exp(d128("1000000"), RM_NEAREST_EVEN, &mut f);
    assert_eq!(FB_OVERFLOW | FB_INEXACT, f);
    eq("+Inf", big);
    f = FB_CLEAR;
    let tiny = bid128_exp(d128("-1000000"), RM_NEAREST_EVEN, &mut f);
    assert_eq!(FB_UNDERFLOW | FB_INEXACT, f);
    eq("+0E-6176", tiny);
}

#[test]
fn test_from_uint64_round_trip_value() {
    let x = bid128_from_uint64(2356789100);
    let mut f = FB_CLEAR;
    assert_eq!(2356789100u64, bid128_to_uint64_int(x, &mut f));
    assert_eq!(FB_CLEAR, f);
}
