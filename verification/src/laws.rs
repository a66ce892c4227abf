//! Laws of the engine, stated and proved over the operation specifications:
//! commutativity of addition and multiplication, and the text round trip.
//! The binary round trip `decode(encode(v)) == v` is
//! [`crate::codec::lemma_decode_encode`].

use crate::arith::{add_spec, min_exp, mul_spec};
use crate::common::{DecClass, DecimalValue, RM_NEAREST_EVEN, dv_wf};
use crate::tens::{lemma_ndigits_le, lemma_pow10_values, pow10};
use crate::text::{
    chars_val, format_spec, is_digit, kw_inf, kw_infinity, kw_nan, kw_snan, msb_digits,
    parse_spec, span,
};
use vstd::prelude::*;

verus! {

/// Addition is commutative: for every pair of operands and every rounding
/// mode, `x + y` and `y + x` deliver the same value — the same cohort
/// member — and the same flags.
pub proof fn lemma_add_commutes(x: DecimalValue, y: DecimalValue, rm: u32)
    requires
        dv_wf(x),
        dv_wf(y),
    ensures
        add_spec(x, y, rm) == add_spec(y, x, rm),
{
    if x.class == DecClass::Finite && y.class == DecClass::Finite {
        assert(min_exp(x, y) == min_exp(y, x));
    }
}

/// Multiplication is commutative: for every pair of operands and every
/// rounding mode, `x × y` and `y × x` deliver the same value and flags.
pub proof fn lemma_mul_commutes(x: DecimalValue, y: DecimalValue, rm: u32)
    requires
        dv_wf(x),
        dv_wf(y),
    ensures
        mul_spec(x, y, rm) == mul_spec(y, x, rm),
{
    if x.class == DecClass::Finite && y.class == DecClass::Finite {
        assert((x.coefficient as nat) * (y.coefficient as nat) == (y.coefficient as nat) * (
        x.coefficient as nat)) by (nonlinear_arith);
    }
}

/// The text round trip: parsing the canonical text of any finite value
/// under round-to-nearest-even gives back exactly that value — the same
/// cohort member — with no flags raised.
#[verifier::rlimit(100)]
pub proof fn lemma_text_round_trip(v: DecimalValue)
    requires
        dv_wf(v),
        v.class == DecClass::Finite,
    ensures
        parse_spec(format_spec(v), RM_NEAREST_EVEN) == (v, 0u32),
{
    let s = format_spec(v);
    let c = v.coefficient as nat;
    let cd = msb_digits(c);
    let em = (if v.exponent < 0 {
        -(v.exponent as int)
    } else {
        v.exponent as int
    }) as nat;
    let ed = msb_digits(em);
    let sign_ch = if v.sign {
        '-'
    } else {
        '+'
    };
    let esign_ch = if v.exponent < 0 {
        '-'
    } else {
        '+'
    };
    crate::text::lemma_msb_digits_wf(c);
    crate::text::lemma_msb_digits_wf(em);
    crate::text::lemma_chars_val_msb(c);
    crate::text::lemma_chars_val_msb(em);
    let l1 = cd.len() as int;
    let l2 = ed.len() as int;
    assert(l1 >= 1 && l2 >= 1);
    assert(l1 <= 34 && l2 <= 4) by {
        lemma_pow10_values();
        if c > 0 {
            lemma_ndigits_le(c, 34);
        }
        if em > 0 {
            assert(em <= 6176);
            assert(pow10(4) == 10000) by {
                reveal_with_fuel(pow10, 6);
            }
            lemma_ndigits_le(em, 4);
        }
    }
    assert(s == seq![sign_ch] + cd + seq!['E'] + seq![esign_ch] + ed);
    assert(s.len() == 3 + l1 + l2);
    // character layout
    assert(s[0] == sign_ch);
    assert(forall|j: int| 0 <= j < l1 ==> s[1 + j] == cd[j]);
    assert(s[1 + l1] == 'E');
    assert(s[2 + l1] == esign_ch);
    assert(forall|j: int| 0 <= j < l2 ==> s[3 + l1 + j] == ed[j]);
    // the coefficient digit run
    assert(forall|j: int| 1 <= j < 1 + l1 ==> is_digit(#[trigger] s[j]));
    assert(!is_digit('E'));
    crate::text::lemma_span_exact(s, 1, l1);
    // the exponent digit run
    assert(forall|j: int| 3 + l1 <= j < 3 + l1 + l2 ==> is_digit(#[trigger] s[j]));
    crate::text::lemma_span_exact(s, 3 + l1, l2);
    // no special form matches: the first character after the sign is a digit
    assert(is_digit(s[1]));
    assert(!kw_inf(s, 1) && !kw_infinity(s, 1) && !kw_nan(s, 1) && !kw_snan(s, 1));
    // walk the grammar
    assert(s.len() <= crate::text::parse_cap());
    assert(s[0] == '+' || s[0] == '-');
    assert((s[0] == '-') == v.sign);
    let d1 = span(s, 1);
    assert(d1 == l1);
    let i1 = 1 + l1;
    assert(!(s[i1] == '.'));
    let i2 = i1;
    assert(s[i2] == 'E');
    assert(i2 + 1 < s.len());
    assert(s[i2 + 1] == esign_ch);
    let i3 = i2 + 2;
    assert(i3 == 3 + l1);
    let d3 = span(s, i3);
    assert(d3 == l2);
    assert(i3 + d3 == s.len());
    // the parsed pieces
    let dseq = s.subrange(1, i1) + Seq::<char>::empty();
    assert(s.subrange(1, i1) =~= cd);
    assert(dseq =~= cd);
    assert(chars_val(dseq) == c);
    assert(s.subrange(i3, i3 + d3) =~= ed);
    assert(chars_val(s.subrange(i3, i3 + d3)) == em);
    let es_neg = esign_ch == '-';
    assert(es_neg == (v.exponent < 0));
    let e_total = (if es_neg {
        -(em as int)
    } else {
        em as int
    }) - 0;
    assert(e_total == v.exponent);
    crate::rounding::lemma_deliver_exact(v.sign, c, v.exponent as int, RM_NEAREST_EVEN);
    assert(parse_spec(s, RM_NEAREST_EVEN) == (v, 0u32));
}

} // verus!
