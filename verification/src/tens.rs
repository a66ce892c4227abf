//! Powers of ten and decimal digit counts, with the lemmas the rest of the
//! engine relies on.

use vstd::arithmetic::div_mod::{lemma_fundamental_div_mod, lemma_multiply_divide_lt};
use vstd::arithmetic::mul::{lemma_mul_inequality, lemma_mul_is_associative};
use vstd::prelude::*;

verus! {

/// `10^n` as a mathematical natural.
pub open spec fn pow10(n: nat) -> nat
    decreases n,
{
    if n == 0 {
        1
    } else {
        10 * pow10((n - 1) as nat)
    }
}

/// Number of decimal digits of `c`; zero has no digits.
pub open spec fn ndigits(c: nat) -> nat
    decreases c,
{
    if c == 0 {
        0
    } else {
        1 + ndigits(c / 10)
    }
}

pub proof fn lemma_pow10_pos(n: nat)
    ensures
        pow10(n) >= 1,
    decreases n,
{
    if n > 0 {
        lemma_pow10_pos((n - 1) as nat);
    }
}

pub proof fn lemma_pow10_adds(a: nat, b: nat)
    ensures
        pow10(a + b) == pow10(a) * pow10(b),
    decreases a,
{
    if a == 0 {
    } else {
        lemma_pow10_adds((a - 1) as nat, b);
        assert(a + b == ((a - 1) as nat + b) + 1);
        assert(pow10(a + b) == 10 * pow10((a - 1) as nat + b));
        lemma_mul_is_associative(10, pow10((a - 1) as nat) as int, pow10(b) as int);
    }
}

pub proof fn lemma_pow10_increases(a: nat, b: nat)
    requires
        a <= b,
    ensures
        pow10(a) <= pow10(b),
    decreases b,
{
    if a < b {
        lemma_pow10_increases(a, (b - 1) as nat);
        lemma_pow10_pos((b - 1) as nat);
    }
}

pub proof fn lemma_pow10_strictly_increases(a: nat, b: nat)
    requires
        a < b,
    ensures
        pow10(a) < pow10(b),
{
    lemma_pow10_increases(a, (b - 1) as nat);
    lemma_pow10_pos((b - 1) as nat);
}

/// A value is bracketed by the powers of ten at its digit count.
pub proof fn lemma_ndigits_bound(c: nat)
    ensures
        c < pow10(ndigits(c)),
        c > 0 ==> pow10((ndigits(c) - 1) as nat) <= c,
    decreases c,
{
    if c > 0 {
        lemma_ndigits_bound(c / 10);
        let m = ndigits(c / 10);
        lemma_fundamental_div_mod(c as int, 10);
        assert(c == 10 * (c / 10) + c % 10);
        lemma_mul_inequality((c / 10) as int, (pow10(m) - 1) as int, 10);
        assert((c / 10) * 10 <= (pow10(m) - 1) * 10);
        assert(c < 10 * pow10(m));
        if c / 10 > 0 {
            lemma_mul_inequality(pow10((m - 1) as nat) as int, (c / 10) as int, 10);
            assert(pow10((m - 1) as nat) * 10 <= (c / 10) * 10);
            assert(pow10(m) <= 10 * (c / 10));
        } else {
            assert(m == 0);
        }
    }
}

/// The digit count is determined by the bracketing powers of ten.
pub proof fn lemma_ndigits_unique(c: nat, n: nat)
    requires
        c < pow10(n),
        n > 0 ==> pow10((n - 1) as nat) <= c,
    ensures
        ndigits(c) == n,
    decreases n,
{
    if n == 0 {
        assert(c == 0);
    } else {
        lemma_pow10_pos((n - 1) as nat);
        assert(c > 0);
        if n == 1 {
            assert(c < 10);
            assert(c / 10 == 0);
            assert(ndigits(0nat) == 0);
            assert(ndigits(c) == 1);
        } else {
            assert(pow10(n) == 10 * pow10((n - 1) as nat));
            assert(pow10((n - 1) as nat) == 10 * pow10((n - 2) as nat));
            lemma_multiply_divide_lt(c as int, pow10((n - 1) as nat) as int, 10);
            assert(c / 10 < pow10((n - 1) as nat));
            lemma_fundamental_div_mod(c as int, 10);
            assert(10 * pow10((n - 2) as nat) <= 10 * (c / 10) + c % 10);
            assert(pow10((n - 2) as nat) <= c / 10) by {
                if c / 10 < pow10((n - 2) as nat) {
                    lemma_mul_inequality((c / 10 + 1) as int, pow10((n - 2) as nat) as int, 10);
                    assert((c / 10 + 1) * 10 <= pow10((n - 2) as nat) * 10);
                }
            }
            lemma_ndigits_unique(c / 10, (n - 1) as nat);
        }
    }
}

/// A bound on the value bounds the digit count.
pub proof fn lemma_ndigits_le(c: nat, m: nat)
    requires
        c < pow10(m),
    ensures
        ndigits(c) <= m,
{
    lemma_ndigits_bound(c);
    if ndigits(c) > m {
        lemma_pow10_increases(m, (ndigits(c) - 1) as nat);
    }
}

/// Multiplying by `10^z` adds `z` digits.
pub proof fn lemma_ndigits_mul_pow10(c: nat, z: nat)
    requires
        c > 0,
    ensures
        ndigits(c * pow10(z)) == ndigits(c) + z,
{
    let n = ndigits(c);
    lemma_ndigits_bound(c);
    lemma_pow10_pos(z);
    lemma_pow10_adds((n - 1) as nat, z);
    lemma_pow10_adds(n, z);
    vstd::arithmetic::mul::lemma_mul_inequality(
        pow10((n - 1) as nat) as int,
        c as int,
        pow10(z) as int,
    );
    vstd::arithmetic::mul::lemma_mul_strict_inequality(c as int, pow10(n) as int, pow10(z) as int);
    lemma_ndigits_unique(c * pow10(z), n + z);
}

/// Useful concrete powers of ten.
pub proof fn lemma_pow10_values()
    ensures
        pow10(0) == 1,
        pow10(1) == 10,
        pow10(2) == 100,
        pow10(17) == 0x16345785d8a0000,
        pow10(19) == 10000000000000000000,
        pow10(20) == 100000000000000000000,
        pow10(33) == 1000000000000000000000000000000000,
        pow10(34) == 10000000000000000000000000000000000,
        pow10(35) == 100000000000000000000000000000000000,
        pow10(38) == 100000000000000000000000000000000000000,
        pow10(38) < 0x100000000000000000000000000000000,
{
    reveal_with_fuel(pow10, 40);
}

/// `10^n` as a `u128`, for exponents where it fits.
pub fn pow10_u128(n: u32) -> (r: u128)
    requires
        n <= 38,
    ensures
        r == pow10(n as nat),
{
    let mut r: u128 = 1;
    let mut i: u32 = 0;
    while i < n
        invariant
            i <= n <= 38,
            r == pow10(i as nat),
        decreases n - i,
    {
        proof {
            lemma_pow10_increases((i + 1) as nat, 38);
            lemma_pow10_values();
        }
        r = r * 10;
        i = i + 1;
    }
    r
}

/// The number of decimal digits of a `u128`.
pub fn ndigits_u128(c: u128) -> (n: u32)
    ensures
        n == ndigits(c as nat),
        n <= 39,
{
    proof {
        if ndigits(c as nat) > 39 {
            lemma_ndigits_bound(c as nat);
            lemma_pow10_increases(39, (ndigits(c as nat) - 1) as nat);
            reveal_with_fuel(pow10, 40);
        }
    }
    let mut x: u128 = c;
    let mut n: u32 = 0;
    while x > 0
        invariant
            n + ndigits(x as nat) == ndigits(c as nat),
            ndigits(c as nat) <= 39,
            x <= c,
        decreases x,
    {
        x = x / 10;
        n = n + 1;
    }
    n
}

} // verus!
