//! Decimal text: the canonical formatter and the parser.
//!
//! Canonical text is `<'+'|'-'><digits>E<'+'|'-'><exponent>` with an
//! explicit sign, no leading zeros in the coefficient (except the single
//! zero digit) and none in the exponent; infinities render `+Inf`/`-Inf`,
//! NaNs `NaN`/`sNaN`. Formatting never changes the value and never raises a
//! flag.

use crate::bignum::{big_val, digits_ok, lemma_big_val_bound, lemma_skip_index};
use crate::codec::{decode, decode_spec, encode};
use crate::common::{BID128, DecClass, DecimalValue, FB_INVALID, dv_wf, quiet_nan};
use crate::rounding::{
    deliver, deliver_spec, infinity, lemma_deliver_below_min, lemma_deliver_beyond_max,
};
use crate::tens::{lemma_ndigits_le, ndigits};
use vstd::prelude::*;
use vstd::string::StrSliceExecFns;

verus! {

/// The character of a single decimal digit.
pub open spec fn digit_char(d: nat) -> char {
    ((48 + d) as u8) as char
}

/// The decimal digit characters of `n`, most significant first; zero is the
/// single digit `0`.
pub open spec fn msb_digits(n: nat) -> Seq<char>
    decreases n,
{
    if n < 10 {
        seq![digit_char(n)]
    } else {
        msb_digits(n / 10).push(digit_char(n % 10))
    }
}

/// The canonical text of a decoded value.
pub open spec fn format_spec(v: DecimalValue) -> Seq<char> {
    match v.class {
        DecClass::QuietNan => seq!['N', 'a', 'N'],
        DecClass::SignalingNan => seq!['s', 'N', 'a', 'N'],
        DecClass::Infinite => seq![
            if v.sign {
                '-'
            } else {
                '+'
            },
            'I',
            'n',
            'f',
        ],
        DecClass::Finite => seq![
            if v.sign {
                '-'
            } else {
                '+'
            },
        ] + msb_digits(v.coefficient as nat) + seq!['E'] + seq![
            if v.exponent < 0 {
                '-'
            } else {
                '+'
            },
        ] + msb_digits(
            (if v.exponent < 0 {
                -(v.exponent as int)
            } else {
                v.exponent as int
            }) as nat,
        ),
    }
}

/// The one-character string of a decimal digit.
fn digit_str(d: u8) -> (r: &'static str)
    requires
        d < 10,
    ensures
        r@ == seq![digit_char(d as nat)],
{
    proof {
        reveal_strlit("0");
        reveal_strlit("1");
        reveal_strlit("2");
        reveal_strlit("3");
        reveal_strlit("4");
        reveal_strlit("5");
        reveal_strlit("6");
        reveal_strlit("7");
        reveal_strlit("8");
        reveal_strlit("9");
    }
    let r = match d {
        0 => "0",
        1 => "1",
        2 => "2",
        3 => "3",
        4 => "4",
        5 => "5",
        6 => "6",
        7 => "7",
        8 => "8",
        _ => "9",
    };
    proof {
        assert(r@ =~= seq![digit_char(d as nat)]);
    }
    r
}

/// The decimal digit string of an unsigned integer.
fn digits_string(n: u128) -> (s: String)
    ensures
        s@ == msb_digits(n as nat),
    decreases n,
{
    if n < 10 {
        let s = String::from_str(digit_str(n as u8));
        s
    } else {
        let mut s = digits_string(n / 10);
        s.append(digit_str((n % 10) as u8));
        proof {
            assert(s@ =~= msb_digits(n as nat)) by {
                assert(msb_digits((n / 10) as nat).push(digit_char((n % 10) as nat)) =~= msb_digits(
                    (n / 10) as nat,
                ) + seq![digit_char((n % 10) as nat)]);
            }
        }
        s
    }
}

/// Converts a 128-bit decimal floating-point value (binary encoding) to
/// string format (decimal character sequence): the canonical text of
/// [`format_spec`]. Formatting never raises a flag.
pub fn bid128_to_string(x: BID128, flags: &mut u32) -> (r: String)
    ensures
        r@ == format_spec(decode_spec(x)),
        *final(flags) == *old(flags),
{
    let v = decode(x);
    match v.class {
        DecClass::QuietNan => {
            let s = String::from_str("NaN");
            proof {
                reveal_strlit("NaN");
                assert(s@ =~= format_spec(decode_spec(x)));
            }
            s
        },
        DecClass::SignalingNan => {
            let s = String::from_str("sNaN");
            proof {
                reveal_strlit("sNaN");
                assert(s@ =~= format_spec(decode_spec(x)));
            }
            s
        },
        DecClass::Infinite => {
            let s = if v.sign {
                String::from_str("-Inf")
            } else {
                String::from_str("+Inf")
            };
            proof {
                reveal_strlit("-Inf");
                reveal_strlit("+Inf");
                assert(s@ =~= format_spec(decode_spec(x)));
            }
            s
        },
        DecClass::Finite => {
            proof {
                reveal_strlit("-");
                reveal_strlit("+");
                reveal_strlit("E");
            }
            let mut s = if v.sign {
                String::from_str("-")
            } else {
                String::from_str("+")
            };
            let cd = digits_string(v.coefficient);
            s.append(cd.as_str());
            s.append("E");
            let emag: u128 = if v.exponent < 0 {
                (-(v.exponent as i64)) as u128
            } else {
                v.exponent as u128
            };
            if v.exponent < 0 {
                s.append("-");
            } else {
                s.append("+");
            }
            let ed = digits_string(emag);
            s.append(ed.as_str());
            proof {
                assert(s@ =~= format_spec(decode_spec(x)));
            }
            s
        },
    }
}

/// Whether `c` is a decimal digit character.
pub open spec fn is_digit(c: char) -> bool {
    48 <= c as int <= 57
}

/// The value of a digit character.
pub open spec fn digit_of(c: char) -> nat {
    (c as nat - 48) as nat
}

/// The length of the run of digit characters starting at `i`.
pub open spec fn span(s: Seq<char>, i: int) -> int
    decreases s.len() - i when i <= s.len()
{
    if 0 <= i < s.len() && is_digit(s[i]) {
        1 + span(s, i + 1)
    } else {
        0
    }
}

/// The run of digits ends at the end of the text or at a non-digit.
pub proof fn lemma_span_bound(s: Seq<char>, i: int)
    requires
        0 <= i <= s.len(),
    ensures
        0 <= span(s, i) <= s.len() - i,
    decreases s.len() - i,
{
    if i < s.len() && is_digit(s[i]) {
        lemma_span_bound(s, i + 1);
    }
}

/// The numeric value of a string of digit characters, most significant
/// first.
pub open spec fn chars_val(d: Seq<char>) -> nat
    decreases d.len(),
{
    if d.len() == 0 {
        0
    } else {
        chars_val(d.drop_last()) * 10 + digit_of(d.last())
    }
}

/// The numeric value of digit values, most significant first.
pub open spec fn msb_val(m: Seq<u8>) -> nat
    decreases m.len(),
{
    if m.len() == 0 {
        0
    } else {
        msb_val(m.drop_last()) * 10 + (m.last() as nat)
    }
}

/// Collected digit values carry the value of their characters.
pub proof fn lemma_chars_collect(d: Seq<char>, m: Seq<u8>)
    requires
        d.len() == m.len(),
        forall|i: int| 0 <= i < d.len() ==> m[i] == digit_of(d[i]),
    ensures
        msb_val(m) == chars_val(d),
    decreases d.len(),
{
    if d.len() > 0 {
        assert(forall|i: int| 0 <= i < d.len() - 1 ==> m.drop_last()[i] == digit_of(
            d.drop_last()[i],
        ));
        lemma_chars_collect(d.drop_last(), m.drop_last());
    }
}

/// A little-endian digit vector that mirrors a most-significant-first one
/// has the same value.
pub proof fn lemma_rev_val(le: Seq<u8>, m: Seq<u8>)
    requires
        le.len() == m.len(),
        forall|i: int| 0 <= i < le.len() ==> le[i] == m[m.len() - 1 - i],
    ensures
        big_val(le) == msb_val(m),
    decreases m.len(),
{
    if m.len() > 0 {
        let lt = le.skip(1);
        let mt = m.drop_last();
        assert(forall|i: int| 0 <= i < lt.len() ==> lt[i] == mt[mt.len() - 1 - i]);
        lemma_rev_val(lt, mt);
        lemma_skip_index(le, 0);
        assert(le.skip(0) =~= le);
        assert(le[0] == m.last());
        assert(msb_val(mt) * 10 == 10 * msb_val(mt)) by (nonlinear_arith);
    }
}

/// The keyword `Inf`, case-insensitive, filling the rest of the text.
pub open spec fn kw_inf(s: Seq<char>, i: int) -> bool {
    i + 3 == s.len() && (s[i] == 'i' || s[i] == 'I') && (s[i + 1] == 'n' || s[i + 1] == 'N') && (
    s[i + 2] == 'f' || s[i + 2] == 'F')
}

/// The keyword `Infinity`, case-insensitive, filling the rest of the text.
pub open spec fn kw_infinity(s: Seq<char>, i: int) -> bool {
    i + 8 == s.len() && (s[i] == 'i' || s[i] == 'I') && (s[i + 1] == 'n' || s[i + 1] == 'N') && (
    s[i + 2] == 'f' || s[i + 2] == 'F') && (s[i + 3] == 'i' || s[i + 3] == 'I') && (s[i + 4] == 'n'
        || s[i + 4] == 'N') && (s[i + 5] == 'i' || s[i + 5] == 'I') && (s[i + 6] == 't' || s[i + 6]
        == 'T') && (s[i + 7] == 'y' || s[i + 7] == 'Y')
}

/// The keyword `NaN`, case-insensitive, with optional diagnostic digits
/// filling the rest of the text.
pub open spec fn kw_nan(s: Seq<char>, i: int) -> bool {
    i + 3 <= s.len() && (s[i] == 'n' || s[i] == 'N') && (s[i + 1] == 'a' || s[i + 1] == 'A') && (
    s[i + 2] == 'n' || s[i + 2] == 'N') && i + 3 + span(s, i + 3) == s.len()
}

/// The keyword `sNaN`, case-insensitive, with optional diagnostic digits.
pub open spec fn kw_snan(s: Seq<char>, i: int) -> bool {
    i < s.len() && (s[i] == 's' || s[i] == 'S') && kw_nan(s, i + 1)
}

/// The input length the parser accepts; longer text is treated as
/// malformed.
pub open spec fn parse_cap() -> int {
    10000000
}

/// The parser: the grammar is `[sign] digits ['.' digits]
/// [('e'|'E') [sign] digits]`, plus the case-insensitive special forms
/// `Inf`/`Infinity`, `NaN` and `sNaN`. The fractional digits join the
/// coefficient and lower the exponent by their count; a coefficient longer
/// than 34 digits is rounded at once under `rm`, raising `Inexact` when a
/// dropped digit was nonzero. Malformed text (or text beyond the engine's
/// input-length capacity) yields a quiet NaN and raises `Invalid`.
pub open spec fn parse_spec(s: Seq<char>, rm: u32) -> (DecimalValue, u32) {
    if s.len() > parse_cap() {
        (quiet_nan(), FB_INVALID)
    } else {
        let has_sign = s.len() > 0 && (s[0] == '+' || s[0] == '-');
        let sgn = has_sign && s[0] == '-';
        let i0: int = if has_sign {
            1
        } else {
            0
        };
        if kw_inf(s, i0) || kw_infinity(s, i0) {
            (infinity(sgn), 0)
        } else if kw_nan(s, i0) {
            (quiet_nan(), 0)
        } else if kw_snan(s, i0) {
            (
                DecimalValue {
                    sign: false,
                    class: DecClass::SignalingNan,
                    exponent: 0,
                    coefficient: 0,
                },
                0,
            )
        } else {
            parse_num_spec(s, i0, sgn, rm)
        }
    }
}

/// The numeric branch of the parser: from position `i0`, with the sign
/// already read.
pub open spec fn parse_num_spec(s: Seq<char>, i0: int, sgn: bool, rm: u32) -> (DecimalValue, u32) {
    let d1 = span(s, i0);
    if d1 == 0 {
        (quiet_nan(), FB_INVALID)
    } else {
        let i1 = i0 + d1;
        let has_dot = i1 < s.len() && s[i1] == '.';
        let d2 = if has_dot {
            span(s, i1 + 1)
        } else {
            0
        };
        if has_dot && d2 == 0 {
            (quiet_nan(), FB_INVALID)
        } else {
            let i2 = if has_dot {
                i1 + 1 + d2
            } else {
                i1
            };
            let has_e = i2 < s.len() && (s[i2] == 'e' || s[i2] == 'E');
            if !has_e && i2 != s.len() {
                (quiet_nan(), FB_INVALID)
            } else {
                let es_has = has_e && i2 + 1 < s.len() && (s[i2 + 1] == '-' || s[i2 + 1] == '+');
                let es_neg = es_has && s[i2 + 1] == '-';
                let i3 = if es_has {
                    i2 + 2
                } else {
                    i2 + 1
                };
                let d3 = if has_e {
                    span(s, i3)
                } else {
                    0
                };
                if has_e && (d3 == 0 || i3 + d3 != s.len()) {
                    (quiet_nan(), FB_INVALID)
                } else {
                    let dseq = s.subrange(i0, i1) + (if has_dot {
                        s.subrange(i1 + 1, i1 + 1 + d2)
                    } else {
                        Seq::<char>::empty()
                    });
                    let c = chars_val(dseq);
                    let ev = if has_e {
                        chars_val(s.subrange(i3, i3 + d3)) as int
                    } else {
                        0
                    };
                    let e_total = (if es_neg {
                        -ev
                    } else {
                        ev
                    }) - d2;
                    deliver_spec(sgn, c, e_total, rm)
                }
            }
        }
    }
}

/// The digit string of `n` is made of digit characters; its length is one
/// for zero and the digit count otherwise.
pub proof fn lemma_msb_digits_wf(n: nat)
    ensures
        msb_digits(n).len() == (if n == 0 {
            1int
        } else {
            ndigits(n) as int
        }),
        forall|j: int| 0 <= j < msb_digits(n).len() ==> is_digit(#[trigger] msb_digits(n)[j]),
    decreases n,
{
    if n < 10 {
        assert(ndigits(n) == 1 || n == 0) by {
            if n > 0 {
                assert(n / 10 == 0);
                assert(ndigits((n / 10) as nat) == 0);
            }
        }
        assert(is_digit(digit_char(n)));
    } else {
        lemma_msb_digits_wf(n / 10);
        assert(is_digit(digit_char(n % 10)));
        assert(n / 10 > 0);
        assert(ndigits(n) == 1 + ndigits(n / 10));
    }
}

/// Parsing the digit string of `n` gives back `n`.
pub proof fn lemma_chars_val_msb(n: nat)
    ensures
        chars_val(msb_digits(n)) == n,
    decreases n,
{
    if n < 10 {
        let d = msb_digits(n);
        assert(d.drop_last() =~= Seq::<char>::empty());
        assert(digit_of(digit_char(n)) == n);
        assert(chars_val(d) == chars_val(d.drop_last()) * 10 + digit_of(d.last()));
        assert(chars_val(Seq::<char>::empty()) * 10 == 0) by (nonlinear_arith)
            requires
                chars_val(Seq::<char>::empty()) == 0,
        ;
    } else {
        lemma_chars_val_msb(n / 10);
        let d = msb_digits(n);
        assert(d.drop_last() =~= msb_digits(n / 10));
        assert(d.last() == digit_char(n % 10));
        assert(digit_of(digit_char(n % 10)) == n % 10);
        assert(chars_val(d) == chars_val(msb_digits(n / 10)) * 10 + (n % 10));
        vstd::arithmetic::div_mod::lemma_fundamental_div_mod(n as int, 10);
        assert((n / 10) * 10 == 10 * (n / 10)) by (nonlinear_arith);
    }
}

/// A run of exactly `l` digits followed by a non-digit (or the end) has
/// span `l`.
pub proof fn lemma_span_exact(s: Seq<char>, i: int, l: int)
    requires
        0 <= i,
        0 <= l,
        i + l <= s.len(),
        forall|j: int| i <= j < i + l ==> is_digit(#[trigger] s[j]),
        i + l == s.len() || !is_digit(s[i + l]),
    ensures
        span(s, i) == l,
    decreases l,
{
    if l == 0 {
    } else {
        assert(is_digit(s[i]));
        lemma_span_exact(s, i + 1, l - 1);
    }
}

/// A flag word is unchanged by adding no bits.
proof fn lemma_or_zero(a: u32)
    ensures
        (a | 0) == a,
{
    assert((a | 0) == a) by (bit_vector);
}

/// Whether position `j` holds a digit character.
fn digit_at(s: &str, j: usize, cap: usize) -> (r: bool)
    requires
        cap == s@.len(),
        j <= cap,
    ensures
        r == (j < s@.len() && is_digit(s@[j as int])),
{
    if j < cap {
        let c = s.get_char(j);
        (c as u32) >= 48 && (c as u32) <= 57
    } else {
        false
    }
}

/// Scans the run of digits starting at `start`, appending their values to
/// `msb`; returns the position after the run.
fn scan_digits(s: &str, start: usize, cap: usize, msb: &mut Vec<u8>) -> (j: usize)
    requires
        cap == s@.len(),
        start <= cap,
    ensures
        start <= j <= cap,
        j - start == span(s@, start as int),
        final(msb)@.len() == old(msb)@.len() + (j - start),
        forall|idx: int| 0 <= idx < old(msb)@.len() ==> final(msb)@[idx] == old(msb)@[idx],
        forall|idx: int|
            old(msb)@.len() <= idx < final(msb)@.len() ==> final(msb)@[idx] == digit_of(
                s@[start + idx - old(msb)@.len()],
            ) && final(msb)@[idx] < 10,
{
    let ghost base = msb@.len();
    let mut j = start;
    proof {
        lemma_span_bound(s@, start as int);
    }
    while digit_at(s, j, cap)
        invariant
            cap == s@.len(),
            start <= j <= cap,
            span(s@, start as int) == (j - start) + span(s@, j as int),
            msb@.len() == base + (j - start),
            forall|idx: int| 0 <= idx < base ==> msb@[idx] == old(msb)@[idx],
            forall|idx: int|
                base <= idx < msb@.len() ==> msb@[idx] == digit_of(s@[start + idx - base])
                    && msb@[idx] < 10,
        decreases cap - j,
    {
        let c = s.get_char(j);
        msb.push(((c as u32) - 48) as u8);
        j = j + 1;
        proof {
            lemma_span_bound(s@, j as int);
        }
    }
    j
}

/// Scans the run of digits starting at `start` into a saturating exponent
/// accumulator; returns the position after the run and the accumulated
/// value, exact below `10^14` and a saturated stand-in at least `10^14`
/// otherwise.
fn scan_exp(s: &str, start: usize, cap: usize) -> (out: (usize, i64))
    requires
        cap == s@.len(),
        start <= cap,
    ensures
        start <= out.0 <= cap,
        out.0 - start == span(s@, start as int),
        0 <= out.1 < 1000000000000000,
        ({
            let ev = chars_val(s@.subrange(start as int, out.0 as int));
            out.1 == ev || (out.1 >= 100000000000000 && ev >= out.1)
        }),
{
    let mut j = start;
    let mut acc: i64 = 0;
    proof {
        lemma_span_bound(s@, start as int);
        assert(s@.subrange(start as int, start as int) =~= Seq::<char>::empty());
    }
    while digit_at(s, j, cap)
        invariant
            cap == s@.len(),
            start <= j <= cap,
            span(s@, start as int) == (j - start) + span(s@, j as int),
            0 <= acc < 1000000000000000,
            ({
                let ev = chars_val(s@.subrange(start as int, j as int));
                acc == ev || (acc >= 100000000000000 && ev >= acc)
            }),
        decreases cap - j,
    {
        let c = s.get_char(j);
        let d: i64 = ((c as u32) - 48) as i64;
        proof {
            let pre = s@.subrange(start as int, j as int);
            let post = s@.subrange(start as int, j + 1);
            assert(post.drop_last() =~= pre);
            assert(post.last() == s@[j as int]);
            assert(chars_val(post) == chars_val(pre) * 10 + digit_of(s@[j as int]));
            assert(chars_val(pre) * 10 >= chars_val(pre)) by (nonlinear_arith);
        }
        if acc < 100000000000000 {
            acc = acc * 10 + d;
        }
        j = j + 1;
        proof {
            lemma_span_bound(s@, j as int);
        }
    }
    (j, acc)
}

/// Converts a decimal floating-point value represented in string format
/// (decimal character sequence) to 128-bit decimal floating-point format
/// (binary encoding), as [`parse_spec`] describes.
#[verifier::rlimit(100)]
pub fn bid128_from_string(s: &str, round: u32, flags: &mut u32) -> (r: BID128)
    ensures
        decode_spec(r) == parse_spec(s@, round).0,
        *final(flags) == *old(flags) | parse_spec(s@, round).1,
{
    let nan = DecimalValue { sign: false, class: DecClass::QuietNan, exponent: 0, coefficient: 0 };
    let cap = s.unicode_len();
    if cap > 10000000 {
        *flags = *flags | FB_INVALID;
        return encode(nan);
    }
    let has_sign = cap > 0 && {
        let c0 = s.get_char(0);
        c0 == '+' || c0 == '-'
    };
    let sgn = has_sign && s.get_char(0) == '-';
    let i0: usize = if has_sign {
        1
    } else {
        0
    };
    proof {
        lemma_or_zero(*old(flags));
    }
    // Special forms.
    if check_inf(s, i0, cap) {
        return encode(
            DecimalValue { sign: sgn, class: DecClass::Infinite, exponent: 0, coefficient: 0 },
        );
    }
    if check_nan(s, i0, cap) {
        return encode(nan);
    }
    if check_snan(s, i0, cap) {
        return encode(
            DecimalValue { sign: false, class: DecClass::SignalingNan, exponent: 0, coefficient: 0 },
        );
    }
    let (v, fl) = parse_number(s, i0, cap, sgn, round);
    *flags = *flags | fl;
    encode(v)
}

/// The numeric branch of the parser, from position `i0` with the sign
/// already read: the executable counterpart of [`parse_num_spec`].
#[verifier::rlimit(100)]
fn parse_number(s: &str, i0: usize, cap: usize, sgn: bool, round: u32) -> (out: (
    DecimalValue,
    u32,
))
    requires
        cap == s@.len(),
        i0 <= cap,
        cap <= 10000000,
    ensures
        out == parse_num_spec(s@, i0 as int, sgn, round),
        dv_wf(out.0),
{
    let nan = DecimalValue { sign: false, class: DecClass::QuietNan, exponent: 0, coefficient: 0 };
    let mut msb: Vec<u8> = Vec::new();
    let i1 = scan_digits(s, i0, cap, &mut msb);
    if i1 == i0 {
        return (nan, FB_INVALID);
    }
    let ghost int_digits = s@.subrange(i0 as int, i1 as int);
    proof {
        assert(forall|idx: int| 0 <= idx < msb@.len() ==> msb@[idx] == digit_of(int_digits[idx]));
    }
    let has_dot = i1 < cap && s.get_char(i1) == '.';
    let mut i2 = i1;
    if has_dot {
        let f2 = scan_digits(s, i1 + 1, cap, &mut msb);
        if f2 == i1 + 1 {
            return (nan, FB_INVALID);
        }
        i2 = f2;
    }
    let ghost d2: int = if has_dot {
        span(s@, i1 + 1)
    } else {
        0
    };
    let ghost dseq = s@.subrange(i0 as int, i1 as int) + (if has_dot {
        s@.subrange(i1 + 1, i1 + 1 + d2)
    } else {
        Seq::<char>::empty()
    });
    proof {
        assert(msb@.len() == dseq.len());
        assert(forall|idx: int| 0 <= idx < msb@.len() ==> msb@[idx] == digit_of(dseq[idx])
            && msb@[idx] < 10);
        lemma_chars_collect(dseq, msb@);
    }
    let has_e = i2 < cap && {
        let ce = s.get_char(i2);
        ce == 'e' || ce == 'E'
    };
    if !has_e && i2 != cap {
        return (nan, FB_INVALID);
    }
    let mut es_neg = false;
    let mut e_acc: i64 = 0;
    let ghost es_has_g = has_e && i2 + 1 < s@.len() && (s@[i2 as int + 1] == '-' || s@[i2 as int
        + 1] == '+');
    let ghost i3_g: int = if es_has_g {
        i2 + 2
    } else {
        i2 + 1
    };
    let ghost d3_g: int = if has_e {
        span(s@, i3_g)
    } else {
        0
    };
    let ghost ev_g: int = if has_e {
        chars_val(s@.subrange(i3_g, i3_g + d3_g)) as int
    } else {
        0
    };
    let mut exact_exp = true;
    if has_e {
        let es_has = i2 + 1 < cap && {
            let cs = s.get_char(i2 + 1);
            cs == '-' || cs == '+'
        };
        es_neg = es_has && s.get_char(i2 + 1) == '-';
        let i3: usize = if es_has {
            i2 + 2
        } else {
            i2 + 1
        };
        let (e_end, acc) = scan_exp(s, i3, cap);
        if e_end == i3 || e_end != cap {
            return (nan, FB_INVALID);
        }
        e_acc = acc;
        proof {
            assert(i3 == i3_g);
            assert(e_end - i3 == d3_g);
        }
        if acc >= 100000000000000 {
            exact_exp = false;
        }
        proof {
            if exact_exp {
                assert(e_acc == ev_g);
            } else {
                assert(e_acc >= 100000000000000 && ev_g >= e_acc);
            }
        }
    }
    // Build the little-endian coefficient.
    let n = msb.len();
    let mut le: Vec<u8> = Vec::new();
    let mut j: usize = 0;
    while j < n
        invariant
            n == msb@.len(),
            j <= n,
            le@.len() == j,
            forall|idx: int| 0 <= idx < j ==> le@[idx] == msb@[n - 1 - idx],
            forall|idx: int| 0 <= idx < msb@.len() ==> msb@[idx] < 10,
        decreases n - j,
    {
        le.push(msb[n - 1 - j]);
        j = j + 1;
    }
    proof {
        lemma_rev_val(le@, msb@);
        assert(digits_ok(le@));
        lemma_big_val_bound(le@);
        lemma_ndigits_le(big_val(le@), le@.len());
    }
    let d2_exec: i64 = (i2 - i1) as i64 - (if has_dot {
        1
    } else {
        0
    });
    proof {
        assert(d2_exec == d2);
    }
    let e_exec: i64 = (if es_neg {
        -e_acc
    } else {
        e_acc
    }) - d2_exec;
    let ghost c = chars_val(dseq);
    let ghost e_spec: int = (if es_neg {
        -ev_g
    } else {
        ev_g
    }) - d2;
    proof {
        assert(big_val(le@) == c);
        if !exact_exp {
            assert(ndigits(c) <= le@.len() <= 10000000);
            if es_neg {
                assert(e_exec <= -(100000000000000 - 10000001));
                assert(e_spec <= e_exec);
                lemma_deliver_below_min(sgn, c, e_exec as int, e_spec, round);
            } else {
                assert(e_exec >= 100000000000000 - 10000001);
                assert(e_spec >= e_exec);
                lemma_deliver_beyond_max(sgn, c, e_exec as int, e_spec, round);
            }
        } else {
            assert(e_exec == e_spec);
        }
    }
    let (v, fl) = deliver(sgn, le, e_exec, round);
    (v, fl)
}

/// Matches the `Inf`/`Infinity` special forms.
fn check_inf(s: &str, i: usize, cap: usize) -> (r: bool)
    requires
        cap == s@.len(),
        i <= cap,
    ensures
        r == (kw_inf(s@, i as int) || kw_infinity(s@, i as int)),
{
    if cap - i == 3 {
        let c0 = s.get_char(i);
        let c1 = s.get_char(i + 1);
        let c2 = s.get_char(i + 2);
        (c0 == 'i' || c0 == 'I') && (c1 == 'n' || c1 == 'N') && (c2 == 'f' || c2 == 'F')
    } else if cap - i == 8 {
        let c0 = s.get_char(i);
        let c1 = s.get_char(i + 1);
        let c2 = s.get_char(i + 2);
        let c3 = s.get_char(i + 3);
        let c4 = s.get_char(i + 4);
        let c5 = s.get_char(i + 5);
        let c6 = s.get_char(i + 6);
        let c7 = s.get_char(i + 7);
        (c0 == 'i' || c0 == 'I') && (c1 == 'n' || c1 == 'N') && (c2 == 'f' || c2 == 'F') && (c3
            == 'i' || c3 == 'I') && (c4 == 'n' || c4 == 'N') && (c5 == 'i' || c5 == 'I') && (c6
            == 't' || c6 == 'T') && (c7 == 'y' || c7 == 'Y')
    } else {
        false
    }
}

/// Matches the `NaN` special form with optional diagnostic digits.
fn check_nan(s: &str, i: usize, cap: usize) -> (r: bool)
    requires
        cap == s@.len(),
        i <= cap,
    ensures
        r == kw_nan(s@, i as int),
{
    if cap - i >= 3 {
        let c0 = s.get_char(i);
        let c1 = s.get_char(i + 1);
        let c2 = s.get_char(i + 2);
        if (c0 == 'n' || c0 == 'N') && (c1 == 'a' || c1 == 'A') && (c2 == 'n' || c2 == 'N') {
            let mut scratch: Vec<u8> = Vec::new();
            let e = scan_digits(s, i + 3, cap, &mut scratch);
            e == cap
        } else {
            false
        }
    } else {
        false
    }
}

/// Matches the `sNaN` special form with optional diagnostic digits.
fn check_snan(s: &str, i: usize, cap: usize) -> (r: bool)
    requires
        cap == s@.len(),
        i <= cap,
    ensures
        r == kw_snan(s@, i as int),
{
    if i < cap {
        let c0 = s.get_char(i);
        if c0 == 's' || c0 == 'S' {
            check_nan(s, i + 1, cap)
        } else {
            false
        }
    } else {
        false
    }
}

} // verus!
