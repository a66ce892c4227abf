//! Arbitrary-precision non-negative integers as little-endian vectors of
//! decimal digits. Coefficient arithmetic (alignment, products, long
//! division) works on these before the result is rounded back to 34 digits.

use crate::tens::{
    lemma_ndigits_unique, lemma_pow10_adds, lemma_pow10_increases, lemma_pow10_pos,
    lemma_pow10_values, ndigits, pow10,
};
use vstd::arithmetic::mul::lemma_mul_inequality;
use vstd::prelude::*;

verus! {

/// Every element is a decimal digit.
pub open spec fn digits_ok(s: Seq<u8>) -> bool {
    forall|i: int| 0 <= i < s.len() ==> s[i] < 10
}

/// The value of a little-endian digit sequence.
pub open spec fn big_val(s: Seq<u8>) -> nat
    decreases s.len(),
{
    if s.len() == 0 {
        0
    } else {
        big_val(s.drop_last()) + (s.last() as nat) * pow10((s.len() - 1) as nat)
    }
}

/// The digit at position `i`, with zero beyond the end.
pub open spec fn dig(s: Seq<u8>, i: int) -> u8 {
    if 0 <= i < s.len() {
        s[i]
    } else {
        0
    }
}

/// The value of the first `i` digits (all of them once `i` passes the end).
pub open spec fn pval(s: Seq<u8>, i: int) -> nat {
    if i <= s.len() {
        big_val(s.take(i))
    } else {
        big_val(s)
    }
}

pub proof fn lemma_take_succ(s: Seq<u8>, i: int)
    requires
        0 <= i < s.len(),
    ensures
        big_val(s.take(i + 1)) == big_val(s.take(i)) + s[i] * pow10(i as nat),
{
    let t = s.take(i + 1);
    assert(t.drop_last() =~= s.take(i));
    assert(t.last() == s[i]);
    assert(big_val(t) == big_val(t.drop_last()) + t.last() * pow10((t.len() - 1) as nat));
}

pub proof fn lemma_pval_succ(s: Seq<u8>, i: int)
    requires
        0 <= i,
    ensures
        pval(s, i + 1) == pval(s, i) + dig(s, i) * pow10(i as nat),
{
    if i < s.len() {
        lemma_take_succ(s, i);
    } else {
        assert(s.take(s.len() as int) =~= s);
    }
}

pub proof fn lemma_pval_all(s: Seq<u8>, i: int)
    requires
        s.len() <= i,
    ensures
        pval(s, i) == big_val(s),
{
    if i == s.len() {
        assert(s.take(s.len() as int) =~= s);
    }
}

pub proof fn lemma_big_val_bound(s: Seq<u8>)
    requires
        digits_ok(s),
    ensures
        big_val(s) < pow10(s.len()),
    decreases s.len(),
{
    if s.len() == 0 {
    } else {
        let dl = s.drop_last();
        assert(digits_ok(dl));
        lemma_big_val_bound(dl);
        let p = pow10((s.len() - 1) as nat);
        lemma_pow10_pos((s.len() - 1) as nat);
        assert(s[s.len() - 1] < 10);
        lemma_mul_inequality(s.last() as int, 9, p as int);
        assert(s.last() * p <= 9 * p);
        assert(pow10(s.len()) == 10 * p);
    }
}

/// Splitting a digit sequence at `k` splits its value.
pub proof fn lemma_big_val_split(s: Seq<u8>, k: int)
    requires
        0 <= k <= s.len(),
    ensures
        big_val(s) == big_val(s.take(k)) + pow10(k as nat) * big_val(s.skip(k)),
    decreases s.len(),
{
    if s.len() == k {
        assert(s.take(k) =~= s);
        assert(s.skip(k).len() == 0);
        assert(pow10(k as nat) * big_val(s.skip(k)) == 0) by (nonlinear_arith)
            requires
                big_val(s.skip(k)) == 0,
        ;
    } else {
        let dl = s.drop_last();
        lemma_big_val_split(dl, k);
        assert(dl.take(k) =~= s.take(k));
        assert(dl.skip(k) =~= s.skip(k).drop_last());
        let t = s.skip(k);
        assert(t.last() == s.last());
        assert(big_val(t) == big_val(t.drop_last()) + t.last() * pow10((t.len() - 1) as nat));
        let p = pow10(k as nat);
        let q = pow10((t.len() - 1) as nat);
        assert(pow10((s.len() - 1) as nat) == p * q) by {
            lemma_pow10_adds(k as nat, (t.len() - 1) as nat);
        }
        assert(s.last() * (p * q) == p * (s.last() * q)) by (nonlinear_arith);
        assert(p * big_val(t.drop_last()) + p * (s.last() * q) == p * (big_val(t.drop_last())
            + s.last() * q)) by (nonlinear_arith);
    }
}

/// A digit sequence's value is its first digit plus ten times the rest.
pub proof fn lemma_skip_index(s: Seq<u8>, i: int)
    requires
        0 <= i < s.len(),
    ensures
        big_val(s.skip(i)) == s[i] + 10 * big_val(s.skip(i + 1)),
{
    let t = s.skip(i);
    lemma_big_val_split(t, 1);
    assert(pow10(0) == 1);
    assert(pow10(1) == 10);
    assert(t.take(1).drop_last() =~= Seq::<u8>::empty());
    assert(t.take(1).last() == t[0]);
    assert(big_val(t.take(1)) == big_val(t.take(1).drop_last()) + (t.take(1).last() as nat)
        * pow10(0));
    assert(big_val(t.take(1)) == t[0] * pow10(0));
    assert((t[0] as nat) * pow10(0) == t[0] as nat) by (nonlinear_arith)
        requires
            pow10(0) == 1,
    ;
    assert(pow10(1) * big_val(t.skip(1)) == 10 * big_val(t.skip(1))) by (nonlinear_arith)
        requires
            pow10(1) == 10,
    ;
    assert(t[0] == s[i]);
    assert(t.skip(1) =~= s.skip(i + 1));
}

/// The tail of a sequence is worth no more than the whole.
pub proof fn lemma_skip_le(s: Seq<u8>, k: int)
    requires
        0 <= k <= s.len(),
    ensures
        big_val(s.skip(k)) <= big_val(s),
{
    lemma_big_val_split(s, k);
    lemma_pow10_pos(k as nat);
    lemma_mul_inequality(1, pow10(k as nat) as int, big_val(s.skip(k)) as int);
}

/// A sequence is worth zero exactly when all its digits are zero.
pub proof fn lemma_all_zero(s: Seq<u8>)
    ensures
        (big_val(s) == 0) <==> (forall|i: int| 0 <= i < s.len() ==> s[i] == 0),
    decreases s.len(),
{
    if s.len() > 0 {
        let dl = s.drop_last();
        lemma_all_zero(dl);
        lemma_pow10_pos((s.len() - 1) as nat);
        if s.last() > 0 {
            lemma_mul_inequality(1, s.last() as int, pow10((s.len() - 1) as nat) as int);
        }
        assert(forall|i: int| 0 <= i < dl.len() ==> dl[i] == s[i]);
        if big_val(s) == 0 {
            assert(s.last() * pow10((s.len() - 1) as nat) == 0);
        }
    }
}

/// A normalized (no high zero digit) sequence has exactly `ndigits` digits.
pub proof fn lemma_norm_len(s: Seq<u8>)
    requires
        digits_ok(s),
        s.len() == 0 || s.last() != 0,
    ensures
        s.len() == ndigits(big_val(s)),
{
    lemma_big_val_bound(s);
    if s.len() == 0 {
    } else {
        lemma_pow10_pos((s.len() - 1) as nat);
        lemma_mul_inequality(1, s.last() as int, pow10((s.len() - 1) as nat) as int);
        assert(pow10((s.len() - 1) as nat) <= s.last() * pow10((s.len() - 1) as nat));
        lemma_ndigits_unique(big_val(s), s.len());
    }
}

/// Builds the digit sequence of a `u128`.
pub fn big_from_u128(x: u128) -> (r: Vec<u8>)
    ensures
        digits_ok(r@),
        big_val(r@) == x,
        r@.len() <= 39,
        r@.len() == ndigits(x as nat),
{
    let mut r: Vec<u8> = Vec::new();
    let mut v: u128 = x;
    proof {
        assert(r@.len() == 0);
        assert(big_val(r@) == 0);
        assert(pow10(0) == 1);
    }
    while v > 0
        invariant
            digits_ok(r@),
            big_val(r@) + v * pow10(r@.len()) == x,
            r@.len() <= 39,
            v > 0 || r@.len() == 0 || r@.last() != 0,
            r@.len() + ndigits(v as nat) == ndigits(x as nat),
        decreases v,
    {
        proof {
            lemma_pow10_values();
            lemma_mul_inequality(1, v as int, pow10(r@.len()) as int);
            assert(pow10(r@.len()) <= x);
            if r@.len() >= 39 {
                lemma_pow10_increases(39, r@.len());
                assert(pow10(39) == 10 * pow10(38));
                assert(false);
            }
        }
        let d: u8 = (v % 10) as u8;
        proof {
            let s = r@;
            assert(s.push(d).drop_last() =~= s);
            assert(big_val(s.push(d)) == big_val(s) + d * pow10(s.len()));
            assert(v as nat == 10 * ((v as nat) / 10) + (v as nat) % 10) by {
                vstd::arithmetic::div_mod::lemma_fundamental_div_mod(v as int, 10);
            }
            assert((d + 10 * ((v as nat) / 10)) * pow10(s.len()) == d * pow10(s.len()) + ((
            v as nat) / 10) * (10 * pow10(s.len()))) by (nonlinear_arith);
            assert(pow10(s.len() + 1) == 10 * pow10(s.len()));
        }
        r.push(d);
        v = v / 10;
    }
    r
}

/// Reads back a digit sequence that fits a `u128`.
pub fn big_to_u128(a: &Vec<u8>) -> (r: u128)
    requires
        digits_ok(a@),
        big_val(a@) < pow10(38),
    ensures
        r == big_val(a@),
{
    proof {
        lemma_pow10_values();
    }
    let mut acc: u128 = 0;
    let mut i: usize = a.len();
    proof {
        assert(a@.skip(a.len() as int).len() == 0);
    }
    while i > 0
        invariant
            digits_ok(a@),
            big_val(a@) < pow10(38),
            pow10(38) < 0x100000000000000000000000000000000,
            i <= a.len(),
            acc == big_val(a@.skip(i as int)),
        decreases i,
    {
        proof {
            lemma_skip_index(a@, i - 1);
            lemma_skip_le(a@, i - 1);
        }
        acc = acc * 10 + (a[i - 1] as u128);
        i = i - 1;
    }
    proof {
        assert(a@.skip(0) =~= a@);
    }
    acc
}

/// Adds two digit sequences.
#[verifier::rlimit(100)]
pub fn big_add(a: &Vec<u8>, b: &Vec<u8>) -> (r: Vec<u8>)
    requires
        digits_ok(a@),
        digits_ok(b@),
    ensures
        digits_ok(r@),
        big_val(r@) == big_val(a@) + big_val(b@),
        r@.len() <= (if a@.len() > b@.len() {
            a@.len()
        } else {
            b@.len()
        }) + 1,
{
    let n = if a.len() > b.len() {
        a.len()
    } else {
        b.len()
    };
    let mut r: Vec<u8> = Vec::new();
    let mut carry: u8 = 0;
    let mut i: usize = 0;
    while i < n
        invariant
            digits_ok(a@),
            digits_ok(b@),
            digits_ok(r@),
            n == if a@.len() > b@.len() {
                a@.len()
            } else {
                b@.len()
            },
            i <= n,
            r@.len() == i,
            carry <= 1,
            big_val(r@) + carry * pow10(i as nat) == pval(a@, i as int) + pval(b@, i as int),
        decreases n - i,
    {
        let da: u8 = if i < a.len() {
            a[i]
        } else {
            0
        };
        let db: u8 = if i < b.len() {
            b[i]
        } else {
            0
        };
        let s: u8 = da + db + carry;
        let d: u8 = s % 10;
        let c2: u8 = s / 10;
        proof {
            let p = pow10(i as nat);
            lemma_pval_succ(a@, i as int);
            lemma_pval_succ(b@, i as int);
            assert(r@.push(d).drop_last() =~= r@);
            assert(big_val(r@.push(d)) == big_val(r@) + d * p);
            assert(s == d + 10 * c2);
            assert(pow10((i + 1) as nat) == 10 * p);
            assert(big_val(r@) + d * p + c2 * (10 * p) == big_val(r@) + (d + 10 * c2) * p)
                by (nonlinear_arith);
            assert((da + db + carry) * p == da * p + db * p + carry * p) by (nonlinear_arith);
        }
        r.push(d);
        carry = c2;
        i = i + 1;
    }
    let ghost total = big_val(a@) + big_val(b@);
    proof {
        lemma_pval_all(a@, n as int);
        lemma_pval_all(b@, n as int);
        assert(big_val(r@) + (carry as nat) * pow10(n as nat) == total);
    }
    if carry > 0 {
        let ghost snap = r@;
        proof {
            assert(snap.push(carry).drop_last() =~= snap);
            assert(snap.push(carry).last() == carry);
            assert(snap.len() == n);
            assert(big_val(snap.push(carry)) == big_val(snap) + (carry as nat) * pow10(n as nat));
        }
        r.push(carry);
        proof {
            assert(r@ == snap.push(carry));
            assert(big_val(r@) == big_val(snap) + (carry as nat) * pow10(n as nat));
            assert(big_val(r@) == total);
        }
    } else {
        proof {
            assert((carry as nat) * pow10(n as nat) == 0) by (nonlinear_arith)
                requires
                    carry == 0,
            ;
            assert(big_val(r@) == total);
        }
    }
    r
}

/// Removes high-order zero digits; the result is normalized.
pub fn big_trim(a: Vec<u8>) -> (r: Vec<u8>)
    requires
        digits_ok(a@),
    ensures
        digits_ok(r@),
        big_val(r@) == big_val(a@),
        r@.len() == ndigits(big_val(a@)),
        r@.len() == 0 || r@.last() != 0,
{
    let mut r = a;
    while r.len() > 0 && r[r.len() - 1] == 0
        invariant
            digits_ok(r@),
            big_val(r@) == big_val(a@),
        decreases r@.len(),
    {
        let ghost snap = r@;
        proof {
            assert(big_val(snap) == big_val(snap.drop_last()) + (snap.last() as nat) * pow10(
                (snap.len() - 1) as nat,
            ));
            assert(snap.last() == 0);
            assert(big_val(snap) == big_val(snap.drop_last()));
            assert(snap.subrange(0, snap.len() - 1) =~= snap.drop_last());
        }
        r.pop();
        proof {
            assert(r@ == snap.drop_last());
            assert(big_val(r@) == big_val(a@));
        }
    }
    proof {
        lemma_norm_len(r@);
    }
    r
}

/// The value of the digits from position `i` upward.
pub open spec fn hval(s: Seq<u8>, i: int) -> nat {
    if 0 <= i < s.len() {
        big_val(s.skip(i))
    } else {
        0
    }
}

pub proof fn lemma_hval_step(s: Seq<u8>, i: int)
    requires
        0 <= i,
    ensures
        hval(s, i) == dig(s, i) + 10 * hval(s, i + 1),
{
    if i + 1 < s.len() {
        lemma_skip_index(s, i);
    } else if i < s.len() {
        let t = s.skip(i);
        assert(t.len() == 1);
        assert(t.drop_last() =~= Seq::<u8>::empty());
        assert(big_val(t) == big_val(t.drop_last()) + (t.last() as nat) * pow10(0));
        assert(pow10(0) == 1);
        assert((t.last() as nat) * pow10(0) == t.last() as nat) by (nonlinear_arith)
            requires
                pow10(0) == 1,
        ;
        assert(t.last() == s[i]);
        assert(hval(s, i + 1) == 0);
    }
}

pub proof fn lemma_hval_all(s: Seq<u8>, i: int)
    requires
        0 <= i,
    ensures
        big_val(s) == pval(s, i) + pow10(i as nat) * hval(s, i),
{
    if i < s.len() {
        lemma_big_val_split(s, i);
    } else {
        lemma_pval_all(s, i);
        lemma_pow10_pos(i as nat);
        assert(pow10(i as nat) * hval(s, i) == 0) by (nonlinear_arith)
            requires
                hval(s, i) == 0,
        ;
    }
}

/// The low `i` digits are worth less than `10^i`.
pub proof fn lemma_pval_bound(s: Seq<u8>, i: int)
    requires
        digits_ok(s),
        0 <= i,
    ensures
        pval(s, i) < pow10(i as nat),
{
    if i <= s.len() {
        assert(digits_ok(s.take(i)));
        lemma_big_val_bound(s.take(i));
    } else {
        lemma_big_val_bound(s);
        lemma_pow10_increases(s.len(), i as nat);
    }
}

/// Subtracts `b` from the no-smaller `a`.
pub fn big_sub(a: &Vec<u8>, b: &Vec<u8>) -> (r: Vec<u8>)
    requires
        digits_ok(a@),
        digits_ok(b@),
        big_val(b@) <= big_val(a@),
    ensures
        digits_ok(r@),
        big_val(r@) == big_val(a@) - big_val(b@),
{
    let n = if a.len() > b.len() {
        a.len()
    } else {
        b.len()
    };
    let mut r: Vec<u8> = Vec::new();
    let mut borrow: u8 = 0;
    let mut i: usize = 0;
    while i < n
        invariant
            digits_ok(a@),
            digits_ok(b@),
            digits_ok(r@),
            n == if a@.len() > b@.len() {
                a@.len()
            } else {
                b@.len()
            },
            i <= n,
            r@.len() == i,
            borrow <= 1,
            big_val(r@) + pval(b@, i as int) == pval(a@, i as int) + (borrow as nat) * pow10(
                i as nat,
            ),
        decreases n - i,
    {
        let da: u8 = if i < a.len() {
            a[i]
        } else {
            0
        };
        let db: u8 = if i < b.len() {
            b[i]
        } else {
            0
        };
        let t: i32 = da as i32 - db as i32 - borrow as i32;
        let d: u8 = if t < 0 {
            (t + 10) as u8
        } else {
            t as u8
        };
        let b2: u8 = if t < 0 {
            1
        } else {
            0
        };
        proof {
            let p = pow10(i as nat);
            lemma_pval_succ(a@, i as int);
            lemma_pval_succ(b@, i as int);
            assert(r@.push(d).drop_last() =~= r@);
            assert(big_val(r@.push(d)) == big_val(r@) + (d as nat) * p);
            assert(borrow + d + db == da + 10 * b2);
            assert(pow10((i + 1) as nat) == 10 * p);
            assert((borrow as int) * p + d * p + db * p == da * p + b2 * (10 * p))
                by (nonlinear_arith)
                requires
                    borrow + d + db == da + 10 * b2,
            ;
        }
        r.push(d);
        borrow = b2;
        i = i + 1;
    }
    proof {
        lemma_pval_all(a@, n as int);
        lemma_pval_all(b@, n as int);
        if borrow == 1 {
            lemma_big_val_bound(r@);
        }
        assert(big_val(r@) == big_val(a@) - big_val(b@));
    }
    r
}

/// Compares the values of two digit sequences: negative, zero or positive as
/// `a` is less than, equal to or greater than `b`.
pub fn big_cmp(a: &Vec<u8>, b: &Vec<u8>) -> (r: i32)
    requires
        digits_ok(a@),
        digits_ok(b@),
    ensures
        r == 0 <==> big_val(a@) == big_val(b@),
        r < 0 <==> big_val(a@) < big_val(b@),
        r > 0 <==> big_val(a@) > big_val(b@),
{
    let n = if a.len() > b.len() {
        a.len()
    } else {
        b.len()
    };
    let mut i: usize = n;
    proof {
        assert(hval(a@, n as int) == 0);
        assert(hval(b@, n as int) == 0);
    }
    while i > 0
        invariant
            digits_ok(a@),
            digits_ok(b@),
            i <= n,
            hval(a@, i as int) == hval(b@, i as int),
        decreases i,
    {
        let da: u8 = if i - 1 < a.len() {
            a[i - 1]
        } else {
            0
        };
        let db: u8 = if i - 1 < b.len() {
            b[i - 1]
        } else {
            0
        };
        proof {
            lemma_hval_step(a@, i - 1);
            lemma_hval_step(b@, i - 1);
        }
        if da != db {
            proof {
                lemma_hval_all(a@, i - 1);
                lemma_hval_all(b@, i - 1);
                lemma_pval_bound(a@, i - 1);
                lemma_pval_bound(b@, i - 1);
                let p = pow10((i - 1) as nat);
                let ha = hval(a@, i - 1);
                let hb = hval(b@, i - 1);
                assert(ha != hb);
                if ha < hb {
                    assert(p * ha + p <= p * hb) by (nonlinear_arith)
                        requires
                            ha < hb,
                            p >= 0,
                    ;
                } else {
                    assert(p * hb + p <= p * ha) by (nonlinear_arith)
                        requires
                            hb < ha,
                            p >= 0,
                    ;
                }
            }
            if da > db {
                return 1;
            } else {
                return -1;
            }
        }
        i = i - 1;
    }
    proof {
        if a@.len() > 0 {
            assert(a@.skip(0) =~= a@);
        }
        if b@.len() > 0 {
            assert(b@.skip(0) =~= b@);
        }
    }
    0
}

/// Multiplies by `10^k` by prepending `k` zero digits.
pub fn big_shl(a: Vec<u8>, k: usize) -> (r: Vec<u8>)
    requires
        digits_ok(a@),
        a@.len() + k <= usize::MAX,
    ensures
        digits_ok(r@),
        big_val(r@) == pow10(k as nat) * big_val(a@),
        r@.len() == a@.len() + k,
        r@.skip(k as int) == a@,
{
    let ghost orig = a@;
    let mut r = a;
    let mut j: usize = 0;
    proof {
        assert(pow10(0) * big_val(r@) == big_val(r@)) by (nonlinear_arith)
            requires
                pow10(0) == 1,
        ;
        assert(r@.skip(0) =~= orig);
    }
    while j < k
        invariant
            digits_ok(r@),
            j <= k,
            orig.len() + k <= usize::MAX,
            r@.len() == orig.len() + j,
            r@.skip(j as int) == orig,
            big_val(r@) == pow10(j as nat) * big_val(orig),
        decreases k - j,
    {
        proof {
            let t = r@.insert(0, 0u8);
            assert(t[0] == 0);
            assert(t.skip(1) =~= r@);
            lemma_skip_index(t, 0);
            assert(t.skip(0) =~= t);
            assert(big_val(t) == 10 * big_val(r@));
            assert(pow10((j + 1) as nat) == 10 * pow10(j as nat));
            assert(10 * (pow10(j as nat) * big_val(orig)) == (10 * pow10(j as nat)) * big_val(
                orig,
            )) by (nonlinear_arith);
            assert(t.skip(j + 1) =~= r@.skip(j as int));
        }
        r.insert(0, 0);
        j = j + 1;
    }
    r
}

/// Multiplies a digit sequence by a single digit.
pub fn big_mul_digit(b: &Vec<u8>, d: u8) -> (r: Vec<u8>)
    requires
        digits_ok(b@),
        d < 10,
    ensures
        digits_ok(r@),
        big_val(r@) == (d as nat) * big_val(b@),
        r@.len() <= b@.len() + 1,
{
    let mut r: Vec<u8> = Vec::new();
    let mut carry: u32 = 0;
    let mut i: usize = 0;
    proof {
        assert(b@.take(0) =~= Seq::<u8>::empty());
        assert(pval(b@, 0) == 0);
        assert((d as nat) * pval(b@, 0) == 0) by (nonlinear_arith)
            requires
                pval(b@, 0) == 0,
        ;
    }
    while i < b.len()
        invariant
            digits_ok(b@),
            digits_ok(r@),
            d < 10,
            i <= b@.len(),
            r@.len() == i,
            carry <= 8,
            big_val(r@) + (carry as nat) * pow10(i as nat) == (d as nat) * pval(b@, i as int),
        decreases b@.len() - i,
    {
        proof {
            assert(b@[i as int] < 10);
            assert((d as u32) * (b@[i as int] as u32) <= 81) by (nonlinear_arith)
                requires
                    d < 10,
                    b@[i as int] < 10,
            ;
        }
        let t: u32 = (d as u32) * (b[i] as u32) + carry;
        let dd: u8 = (t % 10) as u8;
        let c2: u32 = t / 10;
        proof {
            let p = pow10(i as nat);
            lemma_pval_succ(b@, i as int);
            assert(r@.push(dd).drop_last() =~= r@);
            assert(big_val(r@.push(dd)) == big_val(r@) + (dd as nat) * p);
            assert(t == d * b@[i as int] + carry);
            assert(t == dd + 10 * c2);
            assert(t <= 89) by (nonlinear_arith)
                requires
                    d < 10,
                    b@[i as int] < 10,
                    carry <= 8,
                    t == d * b@[i as int] + carry,
            ;
            assert(pow10((i + 1) as nat) == 10 * p);
            assert((dd as int) * p + c2 * (10 * p) == (dd + 10 * c2) * p) by (nonlinear_arith);
            assert((d * b@[i as int] + carry) * p == d * (b@[i as int] * p) + carry * p)
                by (nonlinear_arith);
            assert((d as int) * (pval(b@, i as int) + b@[i as int] * p) == d * pval(b@, i as int)
                + d * (b@[i as int] * p)) by (nonlinear_arith);
        }
        r.push(dd);
        carry = c2;
        i = i + 1;
    }
    proof {
        lemma_pval_all(b@, i as int);
    }
    if carry > 0 {
        let ch: u8 = (carry % 10) as u8;
        proof {
            assert(r@.push(ch).drop_last() =~= r@);
            assert(big_val(r@.push(ch)) == big_val(r@) + (ch as nat) * pow10(r@.len()));
            assert(carry % 10 == carry);
        }
        r.push(ch);
    }
    r
}

/// Multiplies two digit sequences.
pub fn big_mul(a: &Vec<u8>, b: &Vec<u8>) -> (r: Vec<u8>)
    requires
        digits_ok(a@),
        digits_ok(b@),
        a@.len() + b@.len() + 1 <= usize::MAX,
    ensures
        digits_ok(r@),
        big_val(r@) == big_val(a@) * big_val(b@),
        r@.len() <= a@.len() + b@.len() + 1,
{
    let mut acc: Vec<u8> = Vec::new();
    let mut i: usize = 0;
    proof {
        assert(big_val(b@) * pval(a@, 0) == 0) by (nonlinear_arith)
            requires
                pval(a@, 0) == 0,
        ;
    }
    while i < a.len()
        invariant
            digits_ok(a@),
            digits_ok(b@),
            digits_ok(acc@),
            i <= a@.len(),
            a@.len() + b@.len() + 1 <= usize::MAX,
            acc@.len() <= b@.len() + 1 + i,
            big_val(acc@) == big_val(b@) * pval(a@, i as int),
        decreases a@.len() - i,
    {
        let part = big_mul_digit(b, a[i]);
        let shifted = big_shl(part, i);
        proof {
            let p = pow10(i as nat);
            let bb = big_val(b@);
            let ai = a@[i as int];
            lemma_pval_succ(a@, i as int);
            assert(big_val(shifted@) == p * ((ai as nat) * bb));
            assert(bb * pval(a@, i as int) + p * ((ai as nat) * bb) == bb * (pval(a@, i as int)
                + (ai as nat) * p)) by (nonlinear_arith);
        }
        acc = big_add(&acc, &shifted);
        i = i + 1;
    }
    proof {
        lemma_pval_all(a@, i as int);
        assert(big_val(b@) * big_val(a@) == big_val(a@) * big_val(b@)) by (nonlinear_arith);
    }
    acc
}

/// Copies the digits from position `k` upward.
pub fn big_skip(a: &Vec<u8>, k: usize) -> (r: Vec<u8>)
    requires
        k <= a@.len(),
    ensures
        r@ == a@.skip(k as int),
{
    let mut r: Vec<u8> = Vec::new();
    let mut i: usize = k;
    proof {
        assert(r@ =~= a@.subrange(k as int, k as int));
    }
    while i < a.len()
        invariant
            k <= i <= a@.len(),
            r@ == a@.subrange(k as int, i as int),
        decreases a@.len() - i,
    {
        proof {
            assert(a@.subrange(k as int, i + 1) =~= a@.subrange(k as int, i as int).push(
                a@[i as int],
            ));
        }
        r.push(a[i]);
        i = i + 1;
    }
    proof {
        assert(a@.subrange(k as int, a@.len() as int) =~= a@.skip(k as int));
    }
    r
}

/// Whether any of the low `k` digits (clipped to the length) is nonzero.
pub fn big_low_nonzero(a: &Vec<u8>, k: usize) -> (r: bool)
    requires
        digits_ok(a@),
    ensures
        r <==> pval(a@, k as int) != 0,
{
    let m = if k < a.len() {
        k
    } else {
        a.len()
    };
    let mut i: usize = 0;
    let mut found = false;
    while i < m
        invariant
            m <= a@.len(),
            i <= m,
            found <==> (exists|j: int| 0 <= j < i && a@[j] != 0),
        decreases m - i,
    {
        if a[i] != 0 {
            found = true;
        }
        i = i + 1;
    }
    proof {
        let t = if k <= a@.len() {
            a@.take(k as int)
        } else {
            a@
        };
        lemma_all_zero(t);
        if k > a@.len() {
            lemma_pval_all(a@, k as int);
        }
        assert(forall|j: int| 0 <= j < m ==> t[j] == a@[j]);
        assert(t.len() == m);
        if found {
            let j = choose|j: int| 0 <= j < m && a@[j] != 0;
            assert(t[j] != 0);
            assert(big_val(t) != 0);
        } else {
            assert(forall|j: int| 0 <= j < t.len() ==> t[j] == 0);
            assert(big_val(t) == 0);
        }
    }
    found
}

/// Long division: quotient and remainder of `a` by a nonzero `b`.
#[verifier::rlimit(100)]
pub fn big_divmod(a: &Vec<u8>, b: &Vec<u8>) -> (qr: (Vec<u8>, Vec<u8>))
    requires
        digits_ok(a@),
        digits_ok(b@),
        big_val(b@) > 0,
    ensures
        digits_ok(qr.0@),
        digits_ok(qr.1@),
        big_val(a@) == big_val(qr.0@) * big_val(b@) + big_val(qr.1@),
        big_val(qr.1@) < big_val(b@),
        qr.0@.len() == a@.len(),
{
    let ghost bb = big_val(b@);
    let mut q: Vec<u8> = Vec::new();
    let mut z: usize = 0;
    while z < a.len()
        invariant
            z <= a@.len(),
            q@.len() == z,
            forall|j: int| 0 <= j < z ==> q@[j] == 0,
        decreases a@.len() - z,
    {
        q.push(0);
        z = z + 1;
    }
    let mut rem: Vec<u8> = Vec::new();
    let mut i: usize = a.len();
    proof {
        assert(hval(a@, i as int) == 0);
        assert(hval(q@, i as int) == 0);
        assert(digits_ok(q@));
        assert(hval(q@, i as int) * bb == 0) by (nonlinear_arith)
            requires
                hval(q@, i as int) == 0,
        ;
    }
    while i > 0
        invariant
            digits_ok(a@),
            digits_ok(b@),
            digits_ok(q@),
            digits_ok(rem@),
            bb == big_val(b@),
            bb > 0,
            i <= a@.len(),
            q@.len() == a@.len(),
            forall|j: int| 0 <= j < i ==> q@[j] == 0,
            big_val(rem@) < bb,
            hval(a@, i as int) == hval(q@, i as int) * bb + big_val(rem@),
        decreases i,
    {
        let ghost r_old = big_val(rem@);
        let da: u8 = a[i - 1];
        proof {
            let t = rem@.insert(0, da);
            assert(t[0] == da);
            assert(t.skip(1) =~= rem@);
            lemma_skip_index(t, 0);
            assert(t.skip(0) =~= t);
            assert(big_val(t) == da + 10 * big_val(rem@));
        }
        rem.insert(0, da);
        let ghost r0 = big_val(rem@);
        proof {
            assert(r0 == da + 10 * r_old);
            assert(r0 < 10 * bb) by (nonlinear_arith)
                requires
                    r0 == da + 10 * r_old,
                    da < 10,
                    r_old < bb,
                    bb >= 1,
            ;
        }
        let mut dq: u8 = 0;
        let mut j: u8 = 0;
        while j < 9
            invariant
                digits_ok(b@),
                digits_ok(rem@),
                bb == big_val(b@),
                bb > 0,
                j <= 9,
                dq <= j,
                r0 < 10 * bb,
                r0 == big_val(rem@) + (dq as nat) * bb,
                dq == j || big_val(rem@) < bb,
            decreases 9 - j,
        {
            let c = big_cmp(&rem, b);
            if c >= 0 {
                proof {
                    assert(dq == j);
                    assert((dq + 1) as nat * bb == (dq as nat) * bb + bb) by (nonlinear_arith);
                }
                rem = big_sub(&rem, b);
                dq = dq + 1;
            }
            j = j + 1;
        }
        proof {
            if big_val(rem@) >= bb {
                assert(dq == 9);
                assert((9 as nat) * bb + bb == 10 * bb) by (nonlinear_arith);
                assert(false);
            }
        }
        let ghost q_old = q@;
        q[i - 1] = dq;
        proof {
            assert(q@ == q_old.update(i - 1, dq));
            assert(q@.skip(i as int) =~= q_old.skip(i as int));
            assert(hval(q@, i as int) == hval(q_old, i as int));
            lemma_hval_step(q@, i - 1);
            lemma_hval_step(a@, i - 1);
            assert(dig(q@, i - 1) == dq);
            let hq = hval(q_old, i as int);
            assert(hval(a@, i - 1) == da + 10 * (hq * bb + r_old));
            assert(r0 == da + 10 * r_old);
            assert(hval(q@, i - 1) == dq + 10 * hq);
            assert((dq + 10 * hq) * bb == (dq as nat) * bb + 10 * (hq * bb)) by (nonlinear_arith);
            assert(hval(a@, i - 1) == hval(q@, i - 1) * bb + big_val(rem@));
        }
        i = i - 1;
    }
    proof {
        if a@.len() > 0 {
            assert(a@.skip(0) =~= a@);
        }
        if q@.len() > 0 {
            assert(q@.skip(0) =~= q@);
        }
        if q@.len() == 0 {
            assert(hval(q@, 0) * bb == 0) by (nonlinear_arith)
                requires
                    hval(q@, 0) == 0,
            ;
        }
    }
    (q, rem)
}

/// Whether the sequence is worth zero.
pub fn big_is_zero(a: &Vec<u8>) -> (r: bool)
    requires
        digits_ok(a@),
    ensures
        r <==> big_val(a@) == 0,
{
    let mut i: usize = 0;
    let mut all_zero = true;
    while i < a.len()
        invariant
            i <= a@.len(),
            all_zero <==> (forall|j: int| 0 <= j < i ==> a@[j] == 0),
        decreases a@.len() - i,
    {
        if a[i] != 0 {
            all_zero = false;
        }
        i = i + 1;
    }
    proof {
        lemma_all_zero(a@);
    }
    all_zero
}

} // verus!
