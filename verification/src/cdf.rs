//! The adaptive CDF model: table well-formedness, the in-place update rule,
//! and the proof that an update keeps a table well formed.
//!
//! Tables are stored inverted: entry `i` holds 32768 minus the cumulative
//! frequency of symbols `0..=i`, so a well-formed table is strictly
//! decreasing and ends in 0.  One extra trailing cell holds a usage counter
//! (the adaptation speed), capped at 32.  Encoder and decoder must run this
//! update with identical integer rounding after every adaptive call, or the
//! two sides drift apart; the arithmetic below is therefore part of the wire
//! format and the spec functions state it exactly.

use vstd::prelude::*;
use vstd::arithmetic::div_mod::{lemma_fundamental_div_mod, lemma_mod_division_less_than_divisor};
use crate::num::{p2, lemma_p2_vals, lemma_p2_le, pow2_u32};

verus! {

/// A well-formed inverted CDF over its first `n` entries: strictly
/// decreasing, terminal exactly 0 (forward-CDF terminal exactly 32768),
/// every entry a Q15 value below 1.0.
pub open spec fn valid_icdf_n(t: Seq<u16>, n: int) -> bool {
    &&& 1 <= n <= t.len()
    &&& t[n - 1] == 0
    &&& (forall|i: int| 0 <= i < n - 1 ==> #[trigger] t[i + 1] < t[i])
    &&& (forall|i: int| 0 <= i < n ==> t[i] <= 32767)
}

/// floor(log2 n) for the table sizes the coder admits; equals
/// `31 ^ n.leading_zeros()` for 1 <= n <= 16.
pub open spec fn log2_small(n: int) -> int {
    if n < 2 {
        0
    } else if n < 4 {
        1
    } else if n < 8 {
        2
    } else if n < 16 {
        3
    } else {
        4
    }
}

/// Adaptation rate: adaptation slows as the usage counter grows past 31 and
/// as the table gets larger.
pub open spec fn upd_rate(counter: int, n: int) -> int {
    4 + (if counter > 31 {
        1int
    } else {
        0int
    }) + log2_small(n)
}

/// The fixed step subtracted when passing the coded symbol, rounded down to
/// a multiple of `2^rate`.
pub open spec fn upd_diff(n: int, rate: int) -> int {
    ((32768 - n * 32) / p2(rate)) * p2(rate)
}

/// The target that entry `i` is steered toward after coding `val`.
pub open spec fn upd_tmp(val: int, diff: int, i: int) -> int {
    32736 - 32 * i - (if i >= val {
        diff
    } else {
        0int
    })
}

/// One updated entry: the old value moved toward `tmp` by `2^-rate` of the
/// gap, the quotient rounded toward minus infinity as an arithmetic right
/// shift rounds.
pub open spec fn upd_entry(prev: int, tmp: int, rate: int) -> int {
    prev + (tmp - prev) / p2(rate)
}

/// The whole updated table: entries below `n - 1` move toward the coded
/// symbol, the terminal entry stays 0, the counter cell at `n` climbs to its
/// ceiling of 32, everything beyond is untouched.
pub open spec fn spec_update_cdf(t: Seq<u16>, val: int, n: int) -> Seq<u16> {
    let rate = upd_rate(t[n] as int, n);
    let diff = upd_diff(n, rate);
    Seq::new(
        t.len(),
        |i: int|
            if 0 <= i < n - 1 {
                upd_entry(t[i] as int, upd_tmp(val, diff, i), rate) as u16
            } else if i == n {
                if t[n] < 32 {
                    (t[n] + 1) as u16
                } else {
                    t[n]
                }
            } else {
                t[i]
            },
    )
}

/// Floor division of a negated non-negative value, written with the
/// round-up form that the executable code uses.
proof fn lemma_div_neg(d: int, m: int)
    requires
        0 <= d,
        1 <= m,
    ensures
        (-d) / m == -((d + m - 1) / m),
{
    let q1 = (-d) / m;
    let q2 = (d + m - 1) / m;
    lemma_fundamental_div_mod(-d, m);
    lemma_fundamental_div_mod(d + m - 1, m);
    lemma_mod_division_less_than_divisor(-d, m);
    lemma_mod_division_less_than_divisor(d + m - 1, m);
    assert(q1 == -q2) by (nonlinear_arith)
        requires
            1 <= m,
            -d == m * q1 + ((-d) % m),
            d + m - 1 == m * q2 + ((d + m - 1) % m),
            0 <= (-d) % m < m,
            0 <= (d + m - 1) % m < m,
    ;
}

/// The rounded step `diff` never exceeds what it rounds down.
proof fn lemma_upd_diff_bounds(n: int, rate: int)
    requires
        1 <= n <= 16,
        0 <= rate,
    ensures
        0 <= upd_diff(n, rate) <= 32768 - n * 32,
{
    let m = p2(rate);
    crate::num::lemma_p2_pos(rate);
    let x = 32768 - n * 32;
    lemma_fundamental_div_mod(x, m);
    lemma_mod_division_less_than_divisor(x, m);
    assert(0 <= (x / m) * m <= x) by (nonlinear_arith)
        requires
            1 <= m,
            0 <= x,
            x == m * (x / m) + (x % m),
            0 <= x % m < m,
    ;
}

/// An updated entry stays between the old value and its target.
proof fn lemma_upd_entry_bounds(prev: int, tmp: int, rate: int)
    requires
        0 <= prev,
        0 <= tmp,
        0 <= rate,
    ensures
        prev <= tmp ==> prev <= upd_entry(prev, tmp, rate) <= tmp,
        tmp <= prev ==> tmp <= upd_entry(prev, tmp, rate) <= prev,
{
    let m = p2(rate);
    crate::num::lemma_p2_pos(rate);
    let g = tmp - prev;
    let q = g / m;
    lemma_fundamental_div_mod(g, m);
    lemma_mod_division_less_than_divisor(g, m);
    assert({
        &&& g >= 0 ==> 0 <= q <= g
        &&& g <= 0 ==> g <= q <= 0
    }) by (nonlinear_arith)
        requires
            1 <= m,
            g == m * q + (g % m),
            0 <= g % m < m,
    ;
}

/// Two entries moved toward targets at least 32 apart, by a contraction of
/// at most 1/32 of the gap, keep their strict order.
proof fn lemma_upd_entry_pair(a: int, b: int, ta: int, tb: int, rate: int)
    requires
        b < a,
        tb + 32 <= ta,
        5 <= rate,
    ensures
        upd_entry(b, tb, rate) < upd_entry(a, ta, rate),
{
    let m = p2(rate);
    lemma_p2_vals();
    lemma_p2_le(5, rate);
    assert(p2(5) == 32) by {
        vstd::arithmetic::power2::lemma2_to64();
    }
    let pa = ta - a;
    let pb = tb - b;
    lemma_fundamental_div_mod(pa, m);
    lemma_fundamental_div_mod(pb, m);
    lemma_mod_division_less_than_divisor(pa, m);
    lemma_mod_division_less_than_divisor(pb, m);
    // m * (a' - b') == (m-1) * (a-b-1) + (ta-tb) - (pa % m) + (pb % m) + (m - 1) ... settled nonlinearly
    assert(upd_entry(b, tb, rate) < upd_entry(a, ta, rate)) by (nonlinear_arith)
        requires
            32 <= m,
            b < a,
            tb + 32 <= ta,
            pa == ta - a,
            pb == tb - b,
            pa == m * (pa / m) + (pa % m),
            pb == m * (pb / m) + (pb % m),
            0 <= pa % m < m,
            0 <= pb % m < m,
            upd_entry(a, ta, rate) == a + (pa / m),
            upd_entry(b, tb, rate) == b + (pb / m),
    ;
}

/// After any adaptive update the table keeps its shape: still strictly
/// decreasing in the inverted representation (so the forward CDF is still
/// non-decreasing), terminal entry still 0 (forward terminal still 32768),
/// and the usage counter never passes its ceiling of 32.
pub proof fn lemma_update_cdf_valid(t: Seq<u16>, val: int, n: int)
    requires
        1 <= n <= 16,
        n + 1 <= t.len(),
        0 <= val < n,
        valid_icdf_n(t, n),
    ensures
        valid_icdf_n(spec_update_cdf(t, val, n), n),
        spec_update_cdf(t, val, n).len() == t.len(),
        spec_update_cdf(t, val, n)[n - 1] == 0,
        t[n] <= 32 ==> spec_update_cdf(t, val, n)[n] <= 32,
{
    let rate = upd_rate(t[n] as int, n);
    let diff = upd_diff(n, rate);
    let u = spec_update_cdf(t, val, n);
    lemma_upd_diff_bounds(n, rate);
    assert forall|i: int| 0 <= i < n - 1 implies 32 <= #[trigger] upd_tmp(val, diff, i) <= 32736 by {
        assert(diff <= 32768 - n * 32);
    }
    assert forall|i: int| 0 <= i < n - 1 implies 0 < #[trigger] upd_entry(
        t[i] as int,
        upd_tmp(val, diff, i),
        rate,
    ) <= 32767 by {
        lemma_upd_entry_bounds(t[i] as int, upd_tmp(val, diff, i), rate);
        assert(t[i] >= 1) by {
            assert(t[i + 1] < t[i]);
        }
    }
    assert forall|i: int| 0 <= i < n - 1 implies #[trigger] u[i + 1] < u[i] by {
        if i + 1 < n - 1 {
            let ta = upd_tmp(val, diff, i);
            let tb = upd_tmp(val, diff, i + 1);
            assert(n >= 3);
            assert(rate >= 5);
            assert(tb + 32 <= ta);
            lemma_upd_entry_pair(t[i] as int, t[i + 1] as int, ta, tb, rate);
            lemma_upd_entry_bounds(t[i] as int, ta, rate);
            lemma_upd_entry_bounds(t[i + 1] as int, tb, rate);
        } else {
            // the terminal entry stays 0 and the one before stays positive
            assert(u[i + 1] == 0);
        }
    }
}

/// Moves every threshold of the first `nsymbs` entries of `cdf` toward
/// higher relative frequency for the just-coded symbol `val`, then bumps the
/// usage counter in the cell at index `nsymbs` toward its ceiling of 32.
/// The exact rounding here is load-bearing: the decoder runs the same
/// update, and both sides must land on identical tables.
pub fn update_cdf(cdf: &mut Vec<u16>, val: u32, nsymbs: usize)
    requires
        1 <= nsymbs <= 16,
        nsymbs + 1 <= old(cdf)@.len(),
        (val as int) < nsymbs,
        forall|i: int| 0 <= i < nsymbs ==> old(cdf)@[i] <= 32768,
    ensures
        final(cdf)@ == spec_update_cdf(old(cdf)@, val as int, nsymbs as int),
{
    let ghost t = old(cdf)@;
    let ghost nn = nsymbs as int;
    let log_n: u32 = if nsymbs < 2 {
        0
    } else if nsymbs < 4 {
        1
    } else if nsymbs < 8 {
        2
    } else if nsymbs < 16 {
        3
    } else {
        4
    };
    let counter: u16 = cdf[nsymbs];
    let rate: u32 = 4 + (if counter > 31 {
        1
    } else {
        0
    }) + log_n;
    proof {
        assert(rate as int == upd_rate(t[nn] as int, nn));
        lemma_p2_vals();
        lemma_p2_le(4, rate as int);
        lemma_p2_le(rate as int, 9);
        assert(p2(4) == 16 && p2(9) == 0x200) by {
            vstd::arithmetic::power2::lemma2_to64();
        }
    }
    let m: u32 = pow2_u32(rate);
    let ghost gdiff = upd_diff(nn, rate as int);
    // diff == ((32768 - (nsymbs << 5)) >> rate) << rate
    let x: u32 = 32768 - (nsymbs as u32) * 32;
    proof {
        lemma_upd_diff_bounds(nn, rate as int);
        assert(((x as int) / (m as int)) * (m as int) == gdiff);
    }
    let diff: u32 = (x / m) * m;
    let mut tmp: u32 = 32736;
    let mut i: usize = 0;
    while i < nsymbs - 1
        invariant
            nn == nsymbs as int,
            0 <= i <= nn - 1,
            1 <= nn <= 16,
            nn + 1 <= t.len(),
            rate as int == upd_rate(t[nn] as int, nn),
            16 <= m <= 0x200,
            m as int == p2(rate as int),
            diff == gdiff,
            gdiff == upd_diff(nn, rate as int),
            0 <= gdiff <= 32768 - nn * 32,
            (val as int) < nn,
            tmp as int == 32736 - 32 * i - (if i > val {
                gdiff as int
            } else {
                0int
            }),
            cdf@.len() == t.len(),
            forall|j: int| i <= j < t.len() ==> cdf@[j] == t[j],
            forall|j: int|
                0 <= j < i ==> cdf@[j] == spec_update_cdf(t, val as int, nn)[j],
            forall|j: int| 0 <= j < nn ==> t[j] <= 32768,
        decreases nn - i,
    {
        if (i as u32) == val {
            proof {
                assert(tmp as int - gdiff >= 32);
            }
            tmp = tmp - diff;
        }
        proof {
            assert(tmp as int == upd_tmp(val as int, gdiff, i as int));
            assert(tmp >= 32);
        }
        let prev: u32 = cdf[i] as u32;
        let ghost ge = upd_entry(prev as int, tmp as int, rate as int);
        proof {
            assert(cdf@[i as int] == t[i as int]);
            assert(t[i as int] <= 32768);
            assert(prev <= 32768);
            assert(tmp <= 32736);
            lemma_upd_entry_bounds(prev as int, tmp as int, rate as int);
        }
        let nv: u32 = if tmp >= prev {
            prev + (tmp - prev) / m
        } else {
            proof {
                lemma_div_neg((prev - tmp) as int, m as int);
                let dd = (prev - tmp) as int;
                assert(dd + (m as int) - 1 < (dd + 1) * (m as int)) by (nonlinear_arith)
                    requires
                        1 <= m as int,
                        1 <= dd,
                ;
                crate::num::lemma_div_lt(dd + (m as int) - 1, dd + 1, m as int);
            }
            prev - ((prev - tmp) + (m - 1)) / m
        };
        proof {
            assert(nv as int == ge);
            assert(0 <= ge <= 32768);
        }
        cdf.set(i, nv as u16);
        tmp = tmp - 32;
        i = i + 1;
    }
    let c2: u16 = cdf[nsymbs];
    proof {
        assert(c2 == t[nn]);
    }
    if c2 < 32 {
        cdf.set(nsymbs, c2 + 1);
    }
    proof {
        assert(cdf@ =~= spec_update_cdf(t, val as int, nn));
    }
}

} // verus!
