//! The rounding policy and result delivery: an exact coefficient of any
//! length is reduced to at most 34 digits under a rounding mode, with the
//! exponent brought into the decimal128 range and the exception flags
//! (`Inexact`, `Overflow`, `Underflow`) computed.

use crate::bignum::{
    big_is_zero, big_low_nonzero, big_shl, big_skip, big_to_u128, big_trim, big_val, digits_ok,
    hval, lemma_big_val_bound, lemma_big_val_split, lemma_norm_len, lemma_pval_bound,
    lemma_pval_succ, pval,
};
use crate::common::{
    DecClass, DecimalValue, E_MAX, E_MIN, FB_INEXACT, FB_OVERFLOW, FB_UNDERFLOW, RM_DOWNWARD,
    RM_NEAREST_AWAY, RM_TOWARD_ZERO, RM_UPWARD,
};
use crate::tens::{
    lemma_ndigits_bound, lemma_pow10_adds, lemma_pow10_increases, lemma_pow10_pos,
    lemma_pow10_strictly_increases, lemma_pow10_values, ndigits, pow10, pow10_u128,
};
use vstd::arithmetic::div_mod::{
    lemma_fundamental_div_mod_converse_div, lemma_fundamental_div_mod_converse_mod,
};
use vstd::prelude::*;

verus! {

/// An exponent clamped into the decimal128 range (used for zero results,
/// which can absorb any exponent).
pub open spec fn clamp_exp(e: int) -> int {
    if e < E_MIN {
        E_MIN as int
    } else if e > E_MAX {
        E_MAX as int
    } else {
        e
    }
}

/// Whether the rounding mode, given the sign and the dropped part, moves the
/// magnitude up. `rd` is the most significant dropped digit and `sticky`
/// says whether any lower dropped digit is nonzero; `q_odd` is the parity of
/// the truncated coefficient (for breaking ties to even).
pub open spec fn round_up_decision(rm: u32, sign: bool, q_odd: bool, rd: u8, sticky: bool) -> bool {
    if rm == RM_DOWNWARD {
        sign && (rd != 0 || sticky)
    } else if rm == RM_UPWARD {
        !sign && (rd != 0 || sticky)
    } else if rm == RM_TOWARD_ZERO {
        false
    } else if rm == RM_NEAREST_AWAY {
        rd >= 5
    } else {
        rd > 5 || (rd == 5 && (sticky || q_odd))
    }
}

/// The coefficient `c` with its low `k` digits rounded away under mode `rm`:
/// the truncated quotient, plus one when the mode rounds the magnitude up.
pub open spec fn rounded(c: nat, k: nat, rm: u32, sign: bool) -> nat {
    let q = c / pow10(k);
    let r = c % pow10(k);
    let h = pow10(k);
    let up = if rm == RM_DOWNWARD {
        sign && r != 0
    } else if rm == RM_UPWARD {
        !sign && r != 0
    } else if rm == RM_TOWARD_ZERO {
        false
    } else if rm == RM_NEAREST_AWAY {
        2 * r >= h
    } else {
        2 * r > h || (2 * r == h && q % 2 == 1)
    };
    if up {
        q + 1
    } else {
        q
    }
}

/// The largest finite value of the given sign.
pub open spec fn max_finite(sign: bool) -> DecimalValue {
    DecimalValue {
        sign,
        class: DecClass::Finite,
        exponent: E_MAX,
        coefficient: (pow10(34) - 1) as u128,
    }
}

/// The infinity of the given sign.
pub open spec fn infinity(sign: bool) -> DecimalValue {
    DecimalValue { sign, class: DecClass::Infinite, exponent: 0, coefficient: 0 }
}

/// The value delivered on exponent overflow: an infinity, except that the
/// directed modes that cannot move past the largest finite value of that
/// sign deliver that largest finite value.
pub open spec fn overflow_value(sign: bool, rm: u32) -> DecimalValue {
    if rm == RM_TOWARD_ZERO {
        max_finite(sign)
    } else if rm == RM_DOWNWARD {
        if sign {
            infinity(true)
        } else {
            max_finite(false)
        }
    } else if rm == RM_UPWARD {
        if sign {
            max_finite(true)
        } else {
            infinity(false)
        }
    } else {
        infinity(sign)
    }
}

/// Delivery of a finite result: the exact coefficient `c` at exponent `e`
/// with sign `sign` is rounded to at most 34 digits under `rm`, the exponent
/// is brought into range (padding the coefficient with zeros for a high
/// exponent, rounding further digits away for a low one), and the exception
/// flags raised on the way are returned beside the value.
pub open spec fn deliver_spec(sign: bool, c: nat, e: int, rm: u32) -> (DecimalValue, u32) {
    if c == 0 {
        (
            DecimalValue {
                sign,
                class: DecClass::Finite,
                exponent: clamp_exp(e) as i32,
                coefficient: 0,
            },
            0,
        )
    } else {
        let n = ndigits(c) as int;
        let z = if e > E_MAX && n < 34 {
            if e - E_MAX < 34 - n {
                e - E_MAX
            } else {
                34 - n
            }
        } else {
            0
        };
        let c1 = c * pow10(z as nat);
        let e1 = e - z;
        let n1 = n + z;
        let kp = if n1 > 34 {
            n1 - 34
        } else {
            0
        };
        let km = if e1 < E_MIN {
            E_MIN - e1
        } else {
            0
        };
        let k = if kp > km {
            kp
        } else {
            km
        };
        if k == 0 {
            if e1 > E_MAX {
                (overflow_value(sign, rm), FB_OVERFLOW | FB_INEXACT)
            } else {
                (
                    DecimalValue {
                        sign,
                        class: DecClass::Finite,
                        exponent: e1 as i32,
                        coefficient: c1 as u128,
                    },
                    0,
                )
            }
        } else {
            let q = rounded(c1, k as nat, rm, sign);
            let inexact = c1 % pow10(k as nat) != 0;
            let q2 = if q == pow10(34) {
                pow10(33)
            } else {
                q
            };
            let eb: int = if q == pow10(34) {
                1
            } else {
                0
            };
            let ef = e1 + k + eb;
            if ef > E_MAX {
                (overflow_value(sign, rm), FB_OVERFLOW | FB_INEXACT)
            } else {
                let fl = (if inexact {
                    FB_INEXACT
                } else {
                    0
                }) | (if km > kp && inexact {
                    FB_UNDERFLOW
                } else {
                    0
                });
                (
                    DecimalValue {
                        sign,
                        class: DecClass::Finite,
                        exponent: ef as i32,
                        coefficient: q2 as u128,
                    },
                    fl,
                )
            }
        }
    }
}

/// Relates the digit-level view of the dropped part of `s` (most significant
/// dropped digit, sticky rest) to the arithmetic comparisons the rounding
/// decision is defined by.
proof fn lemma_drop_digits(s: Seq<u8>, k: int)
    requires
        digits_ok(s),
        1 <= k <= s.len(),
    ensures
        big_val(s) / pow10(k as nat) == hval(s, k),
        big_val(s) % pow10(k as nat) == pval(s, k),
        2 * pval(s, k) > pow10(k as nat) <==> (s[k - 1] > 5 || (s[k - 1] == 5 && pval(s, k - 1)
            != 0)),
        2 * pval(s, k) == pow10(k as nat) <==> (s[k - 1] == 5 && pval(s, k - 1) == 0),
        pval(s, k) == 0 <==> (s[k - 1] == 0 && pval(s, k - 1) == 0),
{
    let c = big_val(s);
    let p = pow10(k as nat);
    let pm = pow10((k - 1) as nat);
    lemma_pow10_pos((k - 1) as nat);
    assert(p == 10 * pm);
    lemma_big_val_split(s, k);
    lemma_pval_bound(s, k);
    assert(c == pval(s, k) + p * hval(s, k)) by {
        assert(s.take(k).len() == k);
        assert(pval(s, k) == big_val(s.take(k)));
        assert(hval(s, k) == big_val(s.skip(k)) || (k == s.len() && hval(s, k) == 0));
        if k == s.len() {
            assert(big_val(s.skip(k)) == 0);
            assert(p * big_val(s.skip(k)) == 0) by (nonlinear_arith)
                requires
                    big_val(s.skip(k)) == 0,
            ;
            assert(p * hval(s, k) == 0) by (nonlinear_arith)
                requires
                    hval(s, k) == 0,
            ;
        }
    }
    lemma_fundamental_div_mod_converse_div(c as int, p as int, hval(s, k) as int, pval(s, k) as int);
    lemma_fundamental_div_mod_converse_mod(c as int, p as int, hval(s, k) as int, pval(s, k) as int);
    let rd = s[k - 1];
    let rest = pval(s, k - 1);
    lemma_pval_succ(s, k - 1);
    assert(pval(s, k) == rest + rd * pm);
    lemma_pval_bound(s, k - 1);
    assert(rest < pm);
    assert(rd < 10);
    assert(2 * (rest + (rd as nat) * pm) == 2 * rest + (2 * (rd as nat)) * pm) by (nonlinear_arith);
    if rd > 5 {
        assert(2 * (rd as nat) * pm >= 12 * pm) by (nonlinear_arith)
            requires
                rd >= 6,
                pm >= 1,
        ;
    }
    if rd < 5 {
        assert(2 * (rd as nat) * pm <= 8 * pm) by (nonlinear_arith)
            requires
                rd <= 4,
                pm >= 1,
        ;
    }
    if rd == 5 {
        assert(2 * (rd as nat) * pm == 10 * pm) by (nonlinear_arith)
            requires
                rd == 5,
        ;
    }
    if rd == 0 {
        assert((rd as nat) * pm == 0) by (nonlinear_arith)
            requires
                rd == 0,
        ;
    } else {
        assert((rd as nat) * pm >= pm) by (nonlinear_arith)
            requires
                rd >= 1,
                pm >= 1,
        ;
    }
}

/// Executable rounding decision over the dropped digits.
fn round_up_exec(rm: u32, sign: bool, q_odd: bool, rd: u8, sticky: bool) -> (up: bool)
    ensures
        up == round_up_decision(rm, sign, q_odd, rd, sticky),
{
    if rm == RM_DOWNWARD {
        sign && (rd != 0 || sticky)
    } else if rm == RM_UPWARD {
        !sign && (rd != 0 || sticky)
    } else if rm == RM_TOWARD_ZERO {
        false
    } else if rm == RM_NEAREST_AWAY {
        rd >= 5
    } else {
        rd > 5 || (rd == 5 && (sticky || q_odd))
    }
}

/// Delivers a finite result from its sign, exact coefficient digits and
/// exponent: the executable counterpart of [`deliver_spec`].
#[verifier::rlimit(100)]
pub fn deliver(sign: bool, digits: Vec<u8>, e: i64, rm: u32) -> (out: (DecimalValue, u32))
    requires
        digits_ok(digits@),
        ndigits(big_val(digits@)) <= 0x100000000000,
        -0x4000000000000 <= e <= 0x4000000000000,
    ensures
        out == deliver_spec(sign, big_val(digits@), e as int, rm),
        crate::common::dv_wf(out.0),
{
    let ghost c0 = big_val(digits@);
    proof {
        lemma_pow10_values();
    }
    let t = big_trim(digits);
    if t.len() == 0 {
        let ec: i32 = if e < E_MIN as i64 {
            E_MIN
        } else if e > E_MAX as i64 {
            E_MAX
        } else {
            e as i32
        };
        return (DecimalValue { sign, class: DecClass::Finite, exponent: ec, coefficient: 0 }, 0);
    }
    let n = t.len();
    proof {
        assert(n == ndigits(c0));
        assert(c0 > 0);
    }
    // Pad with zeros toward a high exponent while room remains.
    let mut work = t;
    let mut e_cur: i64 = e;
    let ghost z: int = if e > E_MAX as i64 && n < 34 {
        if e - E_MAX < 34 - n {
            e - E_MAX
        } else {
            34 - n
        }
    } else {
        0
    };
    if e_cur > E_MAX as i64 && n < 34 {
        let room: i64 = 34 - n as i64;
        let over: i64 = e_cur - E_MAX as i64;
        let zz: i64 = if over < room {
            over
        } else {
            room
        };
        proof {
            assert(zz == z);
        }
        let ghost before = work@;
        work = big_shl(work, zz as usize);
        proof {
            assert(work@.skip(z) == before);
            assert(work@.last() == before.last());
            lemma_norm_len(work@);
            vstd::arithmetic::mul::lemma_mul_is_commutative(pow10(z as nat) as int, c0 as int);
        }
        e_cur = e_cur - zz;
    } else {
        proof {
            assert(z == 0);
            assert(pow10(0) == 1);
            assert(c0 * pow10(0) == c0) by (nonlinear_arith)
                requires
                    pow10(0) == 1,
            ;
            lemma_norm_len(work@);
        }
    }
    let ghost c1 = c0 * pow10(z as nat);
    let ghost e1 = e as int - z;
    let n1 = work.len();
    proof {
        assert(big_val(work@) == c1);
        assert(n1 == n + z);
        assert(e_cur == e1);
        assert(n1 == ndigits(c1));
        assert(c1 > 0) by {
            lemma_pow10_pos(z as nat);
            vstd::arithmetic::mul::lemma_mul_strictly_positive(c0 as int, pow10(z as nat) as int);
        }
    }
    let kp: u64 = if n1 > 34 {
        (n1 - 34) as u64
    } else {
        0
    };
    let km: u64 = if e_cur < E_MIN as i64 {
        (E_MIN as i64 - e_cur) as u64
    } else {
        0
    };
    let k: u64 = if kp > km {
        kp
    } else {
        km
    };
    if k == 0 {
        if e_cur > E_MAX as i64 {
            let (v, fl) = overflow_exec(sign, rm);
            return (v, fl);
        }
        proof {
            lemma_big_val_bound(work@);
            lemma_pow10_increases(n1 as nat, 34);
            lemma_pow10_strictly_increases(34, 38);
        }
        let co = big_to_u128(&work);
        return (
            DecimalValue { sign, class: DecClass::Finite, exponent: e_cur as i32, coefficient: co },
            0,
        );
    }
    // Rounding path: drop k digits.
    let ghost kk = k as nat;
    let (q, rd, sticky): (u128, u8, bool) = if k <= n1 as u64 {
        let ku: usize = k as usize;
        let qd = big_skip(&work, ku);
        proof {
            assert(digits_ok(qd@));
            lemma_big_val_bound(qd@);
            assert(qd@.len() == n1 - k);
            lemma_pow10_strictly_increases((n1 - k) as nat, 38);
            lemma_drop_digits(work@, k as int);
        }
        let qv = big_to_u128(&qd);
        let rdv = work[ku - 1];
        let stv = big_low_nonzero(&work, ku - 1);
        (qv, rdv, stv)
    } else {
        proof {
            lemma_big_val_bound(work@);
            lemma_pow10_strictly_increases(n1 as nat, kk);
            lemma_div_of_smaller(c1, kk);
        }
        (0u128, 0u8, true)
    };
    let ghost qn = c1 / pow10(kk);
    let ghost rn = c1 % pow10(kk);
    proof {
        if k <= n1 as u64 {
            lemma_drop_digits(work@, k as int);
            assert(qn == hval(work@, k as int));
            assert(rn == pval(work@, k as int));
            if k < n1 as u64 {
                assert(q == big_val(work@.skip(k as int)));
                assert(qn == q);
            } else {
                assert(work@.skip(k as int).len() == 0);
                assert(q == 0 && qn == 0);
            }
        } else {
            assert(qn == 0 && rn == c1);
        }
        // q is below 10^34 either way
        assert(qn < pow10(34)) by {
            if k <= n1 as u64 {
                lemma_big_val_bound(work@.skip(k as int));
                assert(work@.skip(k as int).len() == n1 - k);
                assert(n1 - k <= 34);
                lemma_pow10_increases((n1 - k) as nat, 34);
            } else {
                lemma_pow10_pos(34);
            }
        }
    }
    let q_odd = q % 2 == 1;
    let up = round_up_exec(rm, sign, q_odd, rd, sticky);
    proof {
        if k <= n1 as u64 {
            assert(sticky <==> pval(work@, k as int - 1) != 0);
        }
        lemma_up_matches(c1, kk, rm, sign, work@, k as int, n1 as int, q_odd, rd, sticky);
        assert(rounded(c1, kk, rm, sign) == if up {
            qn + 1
        } else {
            qn
        });
    }
    let mut q2: u128 = if up {
        q + 1
    } else {
        q
    };
    let mut ebump: i64 = 0;
    let p34 = pow10_u128(34);
    if q2 == p34 {
        q2 = pow10_u128(33);
        ebump = 1;
    }
    let inexact = rd != 0 || sticky;
    proof {
        assert(inexact == (rn != 0)) by {
            lemma_up_matches(c1, kk, rm, sign, work@, k as int, n1 as int, q_odd, rd, sticky);
        }
        assert(q2 < pow10(34));
    }
    let ef: i64 = e_cur + k as i64 + ebump;
    if ef > E_MAX as i64 {
        let (v, fl) = overflow_exec(sign, rm);
        return (v, fl);
    }
    let fl: u32 = (if inexact {
        FB_INEXACT
    } else {
        0
    }) | (if km > kp && inexact {
        FB_UNDERFLOW
    } else {
        0
    });
    proof {
        assert(ef >= E_MIN as i64);
    }
    (DecimalValue { sign, class: DecClass::Finite, exponent: ef as i32, coefficient: q2 }, fl)
}

/// Rounds the low `k` digits of a coefficient away, returning the rounded
/// coefficient and whether any dropped digit was nonzero.
#[verifier::rlimit(60)]
pub fn round_digits(work: &Vec<u8>, k: u64, rm: u32, sign: bool) -> (out: (u128, bool))
    requires
        digits_ok(work@),
        k >= 1,
        big_val(work@) < pow10((k + 34) as nat),
    ensures
        out.0 == rounded(big_val(work@), k as nat, rm, sign),
        out.1 == (big_val(work@) % pow10(k as nat) != 0),
        out.0 <= pow10(34),
{
    let ghost c = big_val(work@);
    let ghost kk = k as nat;
    proof {
        lemma_pow10_values();
        lemma_pow10_pos(kk);
    }
    let n1 = work.len();
    if big_is_zero(work) {
        proof {
            vstd::arithmetic::div_mod::lemma_div_of0(pow10(kk) as int);
            vstd::arithmetic::div_mod::lemma_small_mod(0, pow10(kk));
            lemma_pow10_pos(34);
        }
        return (0, false);
    }
    let (q, rd, sticky): (u128, u8, bool) = if k <= n1 as u64 {
        let ku: usize = k as usize;
        let qd = big_skip(&work, ku);
        proof {
            assert(digits_ok(qd@));
            lemma_drop_digits(work@, k as int);
            // the quotient is below 10^34 because c < 10^(k+34)
            lemma_pow10_adds(kk, 34);
            vstd::arithmetic::mul::lemma_mul_is_commutative(pow10(kk) as int, pow10(34) as int);
            vstd::arithmetic::div_mod::lemma_multiply_divide_lt(
                c as int,
                pow10(kk) as int,
                pow10(34) as int,
            );
            assert(c / pow10(kk) < pow10(34));
            if k < n1 as u64 {
                assert(big_val(qd@) == hval(work@, k as int));
            } else {
                assert(qd@.len() == 0);
            }
            assert(big_val(qd@) == c / pow10(kk));
            lemma_pow10_strictly_increases(34, 38);
        }
        let qv = big_to_u128(&qd);
        let rdv = work[ku - 1];
        let stv = big_low_nonzero(&work, ku - 1);
        (qv, rdv, stv)
    } else {
        proof {
            lemma_big_val_bound(work@);
            lemma_pow10_strictly_increases(n1 as nat, kk);
            lemma_div_of_smaller(c, kk);
        }
        (0u128, 0u8, true)
    };
    let ghost qn = c / pow10(kk);
    proof {
        if k <= n1 as u64 {
            lemma_drop_digits(work@, k as int);
            if k < n1 as u64 {
                assert(q == big_val(work@.skip(k as int)));
            } else {
                assert(work@.skip(k as int).len() == 0);
            }
            assert(q == qn);
        } else {
            assert(qn == 0);
        }
        assert(qn < pow10(34)) by {
            lemma_pow10_adds(kk, 34);
            vstd::arithmetic::mul::lemma_mul_is_commutative(pow10(kk) as int, pow10(34) as int);
            vstd::arithmetic::div_mod::lemma_multiply_divide_lt(
                c as int,
                pow10(kk) as int,
                pow10(34) as int,
            );
        }
    }
    let q_odd = q % 2 == 1;
    let up = round_up_exec(rm, sign, q_odd, rd, sticky);
    proof {
        lemma_up_matches(c, kk, rm, sign, work@, k as int, n1 as int, q_odd, rd, sticky);
    }
    let q2: u128 = if up {
        q + 1
    } else {
        q
    };
    (q2, rd != 0 || sticky)
}

/// The executable overflow result, paired with its flags.
pub fn overflow_exec(sign: bool, rm: u32) -> (out: (DecimalValue, u32))
    ensures
        out.0 == overflow_value(sign, rm),
        out.1 == FB_OVERFLOW | FB_INEXACT,
        crate::common::dv_wf(out.0),
{
    proof {
        lemma_pow10_values();
    }
    let maxc: u128 = pow10_u128(34) - 1;
    let v = if rm == RM_TOWARD_ZERO {
        DecimalValue { sign, class: DecClass::Finite, exponent: E_MAX, coefficient: maxc }
    } else if rm == RM_DOWNWARD {
        if sign {
            DecimalValue { sign: true, class: DecClass::Infinite, exponent: 0, coefficient: 0 }
        } else {
            DecimalValue {
                sign: false,
                class: DecClass::Finite,
                exponent: E_MAX,
                coefficient: maxc,
            }
        }
    } else if rm == RM_UPWARD {
        if sign {
            DecimalValue { sign: true, class: DecClass::Finite, exponent: E_MAX, coefficient: maxc }
        } else {
            DecimalValue { sign: false, class: DecClass::Infinite, exponent: 0, coefficient: 0 }
        }
    } else {
        DecimalValue { sign, class: DecClass::Infinite, exponent: 0, coefficient: 0 }
    };
    (v, FB_OVERFLOW | FB_INEXACT)
}

/// A coefficient of at most 34 digits at an in-range exponent is delivered
/// unchanged, with no flags.
pub proof fn lemma_deliver_exact(sign: bool, c: nat, e: int, rm: u32)
    requires
        c < pow10(34),
        E_MIN <= e <= E_MAX,
    ensures
        deliver_spec(sign, c, e, rm) == (
            DecimalValue { sign, class: DecClass::Finite, exponent: e as i32, coefficient: c as u128 },
            0u32,
        ),
{
    if c > 0 {
        crate::tens::lemma_ndigits_le(c, 34);
        assert(c * pow10(0) == c) by (nonlinear_arith)
            requires
                pow10(0) == 1,
        ;
    }
}

/// Far above the exponent range, delivery overflows the same way whatever
/// the exact exponent.
pub proof fn lemma_deliver_beyond_max(sign: bool, c: nat, e1: int, e2: int, rm: u32)
    requires
        e1 >= E_MAX + 35,
        e2 >= E_MAX + 35,
    ensures
        deliver_spec(sign, c, e1, rm) == deliver_spec(sign, c, e2, rm),
{
    lemma_deliver_overflow_form(sign, c, e1, rm);
    lemma_deliver_overflow_form(sign, c, e2, rm);
}

proof fn lemma_deliver_overflow_form(sign: bool, c: nat, e: int, rm: u32)
    requires
        e >= E_MAX + 35,
    ensures
        c > 0 ==> deliver_spec(sign, c, e, rm) == (overflow_value(sign, rm), FB_OVERFLOW
            | FB_INEXACT),
        c == 0 ==> deliver_spec(sign, c, e, rm) == (
            DecimalValue { sign, class: DecClass::Finite, exponent: E_MAX, coefficient: 0 },
            0u32,
        ),
{
    if c > 0 {
        let n = ndigits(c) as int;
        if n < 34 {
            assert(e - E_MAX >= 35 > 34 - n);
        }
    }
}

/// Far below the exponent range, delivery underflows to the same tiny
/// result whatever the exact exponent.
pub proof fn lemma_deliver_below_min(sign: bool, c: nat, e1: int, e2: int, rm: u32)
    requires
        e1 <= E_MIN - ndigits(c) - 2,
        e2 <= E_MIN - ndigits(c) - 2,
    ensures
        deliver_spec(sign, c, e1, rm) == deliver_spec(sign, c, e2, rm),
{
    lemma_deliver_underflow_form(sign, c, e1, rm);
    lemma_deliver_underflow_form(sign, c, e2, rm);
}

proof fn lemma_deliver_underflow_form(sign: bool, c: nat, e: int, rm: u32)
    requires
        e <= E_MIN - ndigits(c) - 2,
    ensures
        c > 0 ==> deliver_spec(sign, c, e, rm) == (
            DecimalValue {
                sign,
                class: DecClass::Finite,
                exponent: E_MIN,
                coefficient: if (rm == RM_DOWNWARD && sign) || (rm == RM_UPWARD && !sign) {
                    1u128
                } else {
                    0u128
                },
            },
            FB_INEXACT | FB_UNDERFLOW,
        ),
        c == 0 ==> deliver_spec(sign, c, e, rm) == (
            DecimalValue { sign, class: DecClass::Finite, exponent: E_MIN, coefficient: 0 },
            0u32,
        ),
{
    if c > 0 {
        let n = ndigits(c) as int;
        lemma_ndigits_bound(c);
        assert(n >= 1);
        let z: int = 0;
        assert(e <= E_MAX);
        let km = E_MIN - e;
        assert(km >= n + 2);
        let kp = if n > 34 {
            n - 34
        } else {
            0
        };
        assert(km > kp);
        let k = km as nat;
        lemma_pow10_strictly_increases(n as nat, k);
        lemma_div_of_smaller(c, k);
        assert(c / pow10(k) == 0 && c % pow10(k) == c);
        assert(2 * c < pow10(k)) by {
            lemma_pow10_increases((n + 1) as nat, k);
            assert(pow10((n + 1) as nat) == 10 * pow10(n as nat));
        }
        assert(rounded(c, k, rm, sign) == if (rm == RM_DOWNWARD && sign) || (rm == RM_UPWARD
            && !sign) {
            1nat
        } else {
            0nat
        });
        lemma_pow10_values();
        assert(rounded(c, k, rm, sign) != pow10(34));
        assert(c * pow10(0) == c) by (nonlinear_arith)
            requires
                pow10(0) == 1,
        ;
    }
}

/// A value below the modulus divides to zero and reduces to itself.
pub proof fn lemma_div_of_smaller(c: nat, k: nat)
    requires
        c < pow10(k),
    ensures
        c / pow10(k) == 0,
        c % pow10(k) == c,
{
    lemma_pow10_pos(k);
    lemma_fundamental_div_mod_converse_div(c as int, pow10(k) as int, 0, c as int);
    lemma_fundamental_div_mod_converse_mod(c as int, pow10(k) as int, 0, c as int);
}

/// The digit-level rounding decision agrees with the arithmetic one.
proof fn lemma_up_matches(
    c1: nat,
    kk: nat,
    rm: u32,
    sign: bool,
    s: Seq<u8>,
    k: int,
    n1: int,
    q_odd: bool,
    rd: u8,
    sticky: bool,
)
    requires
        digits_ok(s),
        s.len() == n1,
        k == kk,
        1 <= k,
        c1 == big_val(s),
        c1 > 0,
        k <= n1 ==> rd == s[k - 1] && (sticky <==> pval(s, k - 1) != 0) && q_odd == ((c1 / pow10(
            kk,
        )) % 2 == 1),
        k > n1 ==> rd == 0 && sticky == true && c1 < pow10(kk),
    ensures
        round_up_decision(rm, sign, q_odd, rd, sticky) <==> rounded(c1, kk, rm, sign) == c1 / pow10(
            kk,
        ) + 1,
        !round_up_decision(rm, sign, q_odd, rd, sticky) ==> rounded(c1, kk, rm, sign) == c1 / pow10(
            kk,
        ),
        (rd != 0 || sticky) <==> c1 % pow10(kk) != 0,
{
    let p = pow10(kk);
    lemma_pow10_pos(kk);
    if k <= n1 {
        lemma_drop_digits(s, k);
    } else {
        lemma_div_of_smaller(c1, kk);
        // 2 * c1 stays below p because c1 has fewer digits than k.
        lemma_ndigits_bound(c1);
        let n = ndigits(c1);
        assert(n <= n1) by {
            lemma_big_val_bound(s);
            if n > s.len() {
                lemma_pow10_increases(s.len(), (n - 1) as nat);
                lemma_ndigits_bound(c1);
            }
        }
        assert(2 * c1 < pow10(kk)) by {
            lemma_pow10_increases((n1 + 1) as nat, kk);
            lemma_pow10_increases(n as nat, n1 as nat);
            assert(pow10((n1 + 1) as nat) == 10 * pow10(n1 as nat));
        }
    }
}

} // verus!
