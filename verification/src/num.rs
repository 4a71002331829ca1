//! Shared numeric helpers: powers of two, the bit length of a 16-bit value,
//! and a few division facts the coder's proofs lean on.

use vstd::prelude::*;
use vstd::arithmetic::power2::{
    pow2, lemma_pow2_adds, lemma_pow2_pos, lemma_pow2_strictly_increases, lemma2_to64,
};
use vstd::arithmetic::div_mod::lemma_fundamental_div_mod;
use vstd::bits::lemma_u32_shl_is_mul;

verus! {

/// `2^n` as an `int`: the scale factor that a left shift by `n` applies.
pub open spec fn p2(n: int) -> int {
    pow2(n as nat) as int
}

pub broadcast proof fn lemma_p2_pos(n: int)
    ensures
        #[trigger] p2(n) >= 1,
{
    lemma_pow2_pos(n as nat);
}

/// `2^a * 2^b == 2^(a+b)` for non-negative exponents.
pub proof fn lemma_p2_adds(a: int, b: int)
    requires
        0 <= a,
        0 <= b,
    ensures
        p2(a + b) == p2(a) * p2(b),
{
    lemma_pow2_adds(a as nat, b as nat);
}

/// Powers of two are monotone in the exponent.
pub proof fn lemma_p2_le(a: int, b: int)
    requires
        0 <= a <= b,
    ensures
        p2(a) <= p2(b),
{
    if a < b {
        lemma_pow2_strictly_increases(a as nat, b as nat);
    }
}

/// The concrete powers of two that the coder's window arithmetic touches.
pub proof fn lemma_p2_vals()
    ensures
        p2(0) == 1,
        p2(1) == 2,
        p2(7) == 0x80,
        p2(8) == 0x100,
        p2(9) == 0x200,
        p2(15) == 0x8000,
        p2(16) == 0x10000,
        p2(23) == 0x800000,
        p2(24) == 0x1000000,
        p2(25) == 0x2000000,
        p2(31) == 0x80000000,
        p2(32) == 0x100000000,
{
    lemma2_to64();
}

/// The bit length of `x`: 0 for 0, otherwise the unique `k` with
/// `2^(k-1) <= x < 2^k`.  Mirrors `16 - x.leading_zeros()` on a `u16`.
pub open spec fn ilog16(x: int) -> int
    decreases x,
{
    if x <= 0 {
        0
    } else {
        1 + ilog16(x / 2)
    }
}

pub proof fn lemma_ilog16_nonneg(x: int)
    ensures
        ilog16(x) >= 0,
    decreases x,
{
    if x > 0 {
        lemma_ilog16_nonneg(x / 2);
    }
}

/// For positive `x`, the bit length brackets `x` between two powers of two.
pub proof fn lemma_ilog16_bounds(x: int)
    requires
        1 <= x,
    ensures
        1 <= ilog16(x),
        p2(ilog16(x) - 1) <= x < p2(ilog16(x)),
    decreases x,
{
    lemma_ilog16_nonneg(x / 2);
    if x == 1 {
        lemma_p2_vals();
    } else {
        lemma_ilog16_bounds(x / 2);
        let k = ilog16(x / 2);
        lemma_p2_adds(k - 1, 1);
        lemma_p2_adds(k, 1);
        lemma_p2_vals();
        assert(x == 2 * (x / 2) + (x % 2)) by {
            lemma_fundamental_div_mod(x, 2);
        }
    }
}

/// A value below `2^k` has bit length at most `k`.
pub proof fn lemma_ilog16_le(x: int, k: int)
    requires
        1 <= x,
        0 <= k,
        x < p2(k),
    ensures
        ilog16(x) <= k,
{
    lemma_ilog16_bounds(x);
    if ilog16(x) > k {
        lemma_p2_le(k, ilog16(x) - 1);
    }
}

/// `16 - x.leading_zeros()`: index of the highest set bit of `x`, plus one.
pub fn od_ilog_nz(x: u16) -> (r: u16)
    requires
        1 <= x,
    ensures
        r == ilog16(x as int),
        1 <= r <= 16,
{
    proof {
        lemma_p2_vals();
        lemma_p2_le(16, 16);
        assert(p2(16) == 0x10000);
        lemma_ilog16_le(x as int, 16);
        lemma_ilog16_bounds(x as int);
    }
    let mut v: u16 = x;
    let mut n: u16 = 0;
    while v > 0
        invariant
            n + ilog16(v as int) == ilog16(x as int),
            0 <= n,
            ilog16(x as int) <= 16,
            ilog16(v as int) >= 0,
        decreases v,
    {
        proof {
            lemma_ilog16_nonneg((v / 2) as int);
        }
        v = v / 2;
        n = n + 1;
    }
    n
}

/// `2^d` as a `u32`, computed by a left shift.
pub fn pow2_u32(d: u32) -> (r: u32)
    requires
        d <= 31,
    ensures
        r as int == p2(d as int),
        r >= 1,
{
    proof {
        lemma_p2_vals();
        lemma_p2_le(d as int, 31);
        lemma_pow2_pos(d as nat);
        lemma_u32_shl_is_mul(1u32, d);
    }
    1u32 << d
}

/// If `x < a * b` then `x / b < a`.
pub proof fn lemma_div_lt(x: int, a: int, b: int)
    requires
        0 <= x,
        1 <= b,
        x < a * b,
    ensures
        x / b < a,
{
    lemma_fundamental_div_mod(x, b);
    assert((x / b) * b <= x) by (nonlinear_arith)
        requires
            1 <= b,
            x == b * (x / b) + (x % b),
            0 <= x % b,
    ;
    assert(x / b < a) by (nonlinear_arith)
        requires
            (x / b) * b <= x,
            x < a * b,
            1 <= b,
    ;
}

/// If `x >= a * b` then `x / b >= a`.
pub proof fn lemma_div_ge(x: int, a: int, b: int)
    requires
        1 <= b,
        0 <= a,
        a * b <= x,
    ensures
        a <= x / b,
{
    lemma_fundamental_div_mod(x, b);
    assert(a <= x / b) by (nonlinear_arith)
        requires
            1 <= b,
            0 <= a,
            a * b <= x,
            x == b * (x / b) + (x % b),
            x % b < b,
    ;
}

/// Rounding `x` down to a multiple of `k` never grows it.
pub proof fn lemma_div_mul_le(x: int, k: int)
    requires
        0 <= x,
        1 <= k,
    ensures
        0 <= (x / k) * k <= x,
{
    lemma_fundamental_div_mod(x, k);
    assert(0 <= (x / k) * k <= x) by (nonlinear_arith)
        requires
            1 <= k,
            0 <= x,
            x == k * (x / k) + (x % k),
            0 <= x % k < k,
    ;
}

/// Two multiples of `p` that differ, differ by at least `p`.
pub proof fn lemma_mod_gap(x: int, y: int, p: int)
    requires
        1 <= p,
        0 <= x < y,
        x % p == 0,
        y % p == 0,
    ensures
        x + p <= y,
{
    lemma_fundamental_div_mod(x, p);
    lemma_fundamental_div_mod(y, p);
    assert(x + p <= y) by (nonlinear_arith)
        requires
            1 <= p,
            0 <= x < y,
            x == p * (x / p),
            y == p * (y / p),
    ;
}

/// A multiple of `2^a` is a multiple of every smaller power of two.
pub proof fn lemma_mod_p2_le(x: int, a: int, b: int)
    requires
        0 <= b <= a,
        0 <= x,
        x % p2(a) == 0,
    ensures
        x % p2(b) == 0,
{
    lemma_p2_adds(b, a - b);
    lemma_p2_pos(a);
    lemma_p2_pos(b);
    lemma_p2_pos(a - b);
    lemma_fundamental_div_mod(x, p2(a));
    let q = x / p2(a);
    assert(x == (q * p2(a - b)) * p2(b)) by (nonlinear_arith)
        requires
            x == p2(a) * q,
            p2(a) == p2(b) * p2(a - b),
    ;
    lemma_mod_of_multiple(q * p2(a - b), p2(b));
}

/// The sum of two multiples of `p` is a multiple of `p`.
pub proof fn lemma_mod_add_zero(x: int, y: int, p: int)
    requires
        1 <= p,
        x % p == 0,
        y % p == 0,
    ensures
        (x + y) % p == 0,
{
    lemma_fundamental_div_mod(x, p);
    lemma_fundamental_div_mod(y, p);
    assert(x + y == (x / p + y / p) * p) by (nonlinear_arith)
        requires
            x == p * (x / p),
            y == p * (y / p),
    ;
    lemma_mod_of_multiple(x / p + y / p, p);
}

/// The difference of two multiples of `p` is a multiple of `p`.
pub proof fn lemma_mod_diff_zero(x: int, y: int, p: int)
    requires
        1 <= p,
        x % p == 0,
        y % p == 0,
    ensures
        (x - y) % p == 0,
{
    lemma_fundamental_div_mod(x, p);
    lemma_fundamental_div_mod(y, p);
    assert(x - y == (x / p - y / p) * p) by (nonlinear_arith)
        requires
            x == p * (x / p),
            y == p * (y / p),
    ;
    lemma_mod_of_multiple(x / p - y / p, p);
}

/// A multiple of `p` leaves no remainder.
pub proof fn lemma_mod_of_multiple(k: int, p: int)
    requires
        1 <= p,
    ensures
        (k * p) % p == 0,
{
    assert((k * p) % p == 0) by (nonlinear_arith)
        requires
            1 <= p,
    ;
}

} // verus!
