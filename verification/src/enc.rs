//! The adaptive range encoder.
//!
//! State is an interval `[low, low + rng)` kept at 16 significant bits of
//! width.  Coding a bit or a symbol narrows the interval; renormalization
//! shifts finished bits out of `low` into an append-only pre-carry buffer,
//! because a later carry out of `low` may still increment an already
//! buffered unit.  `done` flushes the minimal number of disambiguating bits
//! and resolves every pending carry in one backward pass.
//!
//! The spec functions in this module state the exact integer arithmetic of
//! every transition: the byte stream is only decodable because the decoder
//! mirrors these computations bit for bit, so the arithmetic itself is the
//! specification.

use vstd::prelude::*;
use vstd::arithmetic::div_mod::lemma_div_plus_one;
use crate::num::{
    p2, ilog16, lemma_p2_vals, lemma_p2_adds, lemma_p2_le, lemma_p2_pos, lemma_ilog16_bounds,
    lemma_ilog16_le, lemma_div_lt, lemma_div_ge, lemma_div_mul_le, od_ilog_nz, pow2_u32,
};
use crate::cdf::{valid_icdf_n, spec_update_cdf, update_cdf, lemma_update_cdf_valid};

verus! {

/// Mathematical model of the encoder state.
#[verifier::ext_equal]
pub ghost struct EncM {
    /// Buffered output units, a carry still able to ripple into them.
    pub pre: Seq<u16>,
    /// Low end of the current interval.
    pub low: int,
    /// Width of the current interval.
    pub rng: int,
    /// Pending-bit counter: crosses zero when a byte and a carry bit are ready.
    pub cnt: int,
}

pub struct od_ec_enc {
    /// A buffer for output bytes with their associated carry flags.
    pub precarry: Vec<u16>,
    /// The low end of the current range.
    pub low: u32,
    /// The number of values in the current range.
    pub rng: u16,
    /// The number of bits of data in the current value.
    pub cnt: i16,
}

impl View for od_ec_enc {
    type V = EncM;

    open spec fn view(&self) -> EncM {
        EncM {
            pre: self.precarry@,
            low: self.low as int,
            rng: self.rng as int,
            cnt: self.cnt as int,
        }
    }
}

/// The state every coding call preserves: a normalized range, the pending
/// counter in its working band, `low` small enough that one more narrowing
/// cannot overflow, and buffered units small enough that a carry ripple
/// adds at most one byte of weight to each.
pub open spec fn enc_inv(m: EncM) -> bool {
    &&& 0x8000 <= m.rng <= 0xFFFF
    &&& -9 <= m.cnt <= -1
    &&& 0 <= m.low
    &&& m.low + m.rng <= 3 * p2(m.cnt + 24)
    &&& forall|i: int| 0 <= i < m.pre.len() ==> m.pre[i] < 0x300
}

/// A fresh encoder: empty buffer, interval `[0, 2^15)`, and nine pending
/// bits to accumulate before the first byte plus carry bit is complete.
pub open spec fn enc_init() -> EncM {
    EncM { pre: Seq::empty(), low: 0, rng: 0x8000, cnt: -9 }
}

/// The Q15 split of a range `r` at frequency `f`:
/// `((r >> 8) * f) >> 7` in the executable code.
pub open spec fn ec_v(r: int, f: int) -> int {
    ((r / 256) * f) / 128
}

/// Renormalization: scale `rng` back into `[2^15, 2^16)` by `d` doublings
/// and move the bits that leave the 24-bit window out of `low` into the
/// pre-carry buffer, one unit per eight bits, once a byte and its carry bit
/// are complete.
pub open spec fn spec_enc_normalize(pre: Seq<u16>, cnt: int, low0: int, rng: int) -> EncM {
    let d = 16 - ilog16(rng);
    if cnt + d >= 8 {
        let b1 = low0 / p2(cnt + 16);
        let l1 = low0 % p2(cnt + 16);
        let b2 = l1 / p2(cnt + 8);
        let l2 = l1 % p2(cnt + 8);
        EncM {
            pre: pre.push(b1 as u16).push(b2 as u16),
            low: l2 * p2(d),
            rng: rng * p2(d),
            cnt: cnt + d - 16,
        }
    } else if cnt + d >= 0 {
        let b1 = low0 / p2(cnt + 16);
        let l1 = low0 % p2(cnt + 16);
        EncM { pre: pre.push(b1 as u16), low: l1 * p2(d), rng: rng * p2(d), cnt: cnt + d - 8 }
    } else {
        EncM { pre, low: low0 * p2(d), rng: rng * p2(d), cnt: cnt + d }
    }
}

/// Coding a bit narrows the interval to the upper part of width
/// `ec_v(rng, f)` for a one, or the lower remainder for a zero.
pub open spec fn spec_encode_bool(m: EncM, val: bool, f: int) -> EncM {
    let v = ec_v(m.rng, f);
    if val {
        spec_enc_normalize(m.pre, m.cnt, m.low + m.rng - v, v)
    } else {
        spec_enc_normalize(m.pre, m.cnt, m.low, m.rng - v)
    }
}

/// Coding a symbol narrows the interval to the band between the scaled
/// inverted frequencies `fl` (above the symbol) and `fh` (through it);
/// `fl == 32768` is the sentinel for the first symbol.
pub open spec fn spec_encode_q15(m: EncM, fl: int, fh: int) -> EncM {
    if fl < 32768 {
        spec_enc_normalize(
            m.pre,
            m.cnt,
            m.low + m.rng - ec_v(m.rng, fl),
            ec_v(m.rng, fl) - ec_v(m.rng, fh),
        )
    } else {
        spec_enc_normalize(m.pre, m.cnt, m.low, m.rng - ec_v(m.rng, fh))
    }
}

/// The inverted cumulative frequency above symbol `s`: the table entry
/// before it, or the 32768 sentinel for the first symbol.
pub open spec fn icdf_fl(t: Seq<u16>, s: int) -> int {
    if s > 0 {
        t[s - 1] as int
    } else {
        32768
    }
}

/// Coding symbol `s` against inverted CDF table `t`.
pub open spec fn spec_encode_cdf(m: EncM, t: Seq<u16>, s: int) -> EncM {
    spec_encode_q15(m, icdf_fl(t, s), t[s] as int)
}

/// Carry flowing into position `i - 1` from the backward resolution pass
/// over positions `i..`.
pub open spec fn carry_from(pre: Seq<u16>, i: int) -> int
    decreases pre.len() - i,
{
    if i < 0 || i >= pre.len() {
        0
    } else {
        (pre[i] + carry_from(pre, i + 1)) / 256
    }
}

pub open spec fn resolved_byte(pre: Seq<u16>, i: int) -> u8 {
    ((pre[i] + carry_from(pre, i + 1)) % 256) as u8
}

/// The finished stream: the pre-carry units with all carries rippled
/// backward and each position truncated to one byte.
pub open spec fn spec_resolve(pre: Seq<u16>) -> Seq<u8> {
    Seq::new(pre.len(), |i: int| resolved_byte(pre, i))
}

/// The pre-carry buffer after `done`: `low` is rounded up to the coarsest
/// bit boundary that still falls inside the interval (one extra halving at
/// most is ever needed, since an aligned half-width block always fits), and
/// the bits of that rounded value still pending are flushed, at most two
/// units.
pub open spec fn spec_done_pre(m: EncM) -> Seq<u16> {
    let l = m.low;
    let e0 = ((l + 0x7FFF) / 0x8000) * 0x8000;
    let h: int = if e0 + 0x7FFF >= l + m.rng {
        1
    } else {
        0
    };
    let e = if h == 1 {
        ((l + 0x3FFF) / 0x4000) * 0x4000
    } else {
        e0
    };
    let s = 9 + h + m.cnt;
    if s <= 0 {
        m.pre
    } else {
        let b1 = (e / p2(m.cnt + 16)) as u16;
        if s <= 8 {
            m.pre.push(b1)
        } else {
            m.pre.push(b1).push(((e % p2(m.cnt + 16)) / p2(m.cnt + 8)) as u16)
        }
    }
}

/// The bytes `done` returns.
pub open spec fn spec_done_bytes(m: EncM) -> Seq<u8> {
    spec_resolve(spec_done_pre(m))
}

/// An empty symbol sequence finalizes to the minimal well-defined output:
/// no bytes at all.  With `low` still 0 the rounded value is 0, the whole
/// aligned half-range block fits, and no bit is pending.
pub proof fn lemma_done_empty()
    ensures
        spec_done_bytes(enc_init()) =~= Seq::<u8>::empty(),
{
    assert(spec_done_pre(enc_init()) =~= Seq::<u16>::empty());
}

/// Whether `done` must fall back to the finer alignment: 1 when no
/// `2^15`-aligned block fits inside the interval, else 0.
pub open spec fn done_h(m: EncM) -> int {
    if ((m.low + 0x7FFF) / 0x8000) * 0x8000 + 0x7FFF >= m.low + m.rng {
        1
    } else {
        0
    }
}

/// Total bits pending in the finished stream: eight per buffered unit plus
/// what the final flush would emit.
pub open spec fn done_bits(m: EncM) -> int {
    8 * m.pre.len() + 9 + done_h(m) + m.cnt
}

/// The finished stream is exactly the pending bits, padded to whole bytes.
pub proof fn lemma_done_len(m: EncM)
    requires
        -9 <= m.cnt <= -1,
    ensures
        spec_done_bytes(m).len() == (done_bits(m) + 7) / 8,
{
    let s = 9 + done_h(m) + m.cnt;
    assert(0 <= s <= 9);
    if s == 0 {
        assert((s + 7) / 8 == 0);
    } else if s <= 8 {
        lemma_div_ge(s + 7, 1, 8);
        lemma_div_lt(s + 7, 2, 8);
    } else {
        assert((s + 7) / 8 == 2);
    }
    let n = m.pre.len() as int;
    vstd::arithmetic::div_mod::lemma_hoist_over_denominator(s + 7, n, 8nat);
    assert(done_bits(m) + 7 == s + 7 + n * 8);
}

/// Renormalizing never loses pending bits: after a narrowing of the
/// interval, the finished stream is at least as long as before.  When no
/// doubling happens the intervals nest, so a flush that needed the finer
/// alignment before still needs it; each doubling adds a full fresh bit,
/// outweighing any change of alignment.
pub proof fn lemma_done_bits_normalize(m: EncM, low0: int, rng0: int)
    requires
        enc_inv(m),
        m.low <= low0,
        low0 + rng0 <= m.low + m.rng,
        1 <= rng0 <= 0xFFFF,
    ensures
        done_bits(spec_enc_normalize(m.pre, m.cnt, low0, rng0)) >= done_bits(m),
        -9 <= spec_enc_normalize(m.pre, m.cnt, low0, rng0).cnt <= -1,
        spec_enc_normalize(m.pre, m.cnt, low0, rng0).pre.len() >= m.pre.len(),
{
    lemma_p2_vals();
    lemma_ilog16_bounds(rng0);
    lemma_ilog16_le(rng0, 16);
    let d = 16 - ilog16(rng0);
    let m2 = spec_enc_normalize(m.pre, m.cnt, low0, rng0);
    assert(8 * m2.pre.len() + m2.cnt == 8 * m.pre.len() + m.cnt + d);
    if d == 0 {
        assert(m2.low == low0 && m2.rng == rng0 && m2.cnt == m.cnt);
        if done_h(m) == 1 {
            vstd::arithmetic::div_mod::lemma_div_is_ordered(
                m.low + 0x7FFF,
                low0 + 0x7FFF,
                0x8000,
            );
            assert(((m.low + 0x7FFF) / 0x8000) * 0x8000 <= ((low0 + 0x7FFF) / 0x8000) * 0x8000)
                by (nonlinear_arith)
                requires
                    (m.low + 0x7FFF) / 0x8000 <= (low0 + 0x7FFF) / 0x8000,
            ;
            assert(done_h(m2) == 1);
        }
    }
}

/// Bounds on the Q15 split: it stays inside the range, strictly so for a
/// frequency below 1.0, and a strictly larger frequency gives a strictly
/// larger split.
proof fn lemma_ec_v_range(r: int, fl: int, fh: int)
    requires
        0x8000 <= r <= 0xFFFF,
        0 <= fh < fl <= 32768,
    ensures
        0 <= ec_v(r, fh),
        ec_v(r, fh) + 1 <= ec_v(r, fl),
        ec_v(r, fl) <= r,
        fl < 32768 ==> ec_v(r, fl) < r,
        1 <= fl ==> 1 <= ec_v(r, fl),
{
    let q = r / 256;
    lemma_div_ge(r, 128, 256);
    lemma_div_lt(r, 256, 256);
    lemma_div_mul_le(r, 256);
    assert((0 <= q * fh) && (q * fh + 128 <= q * fl) && (q * fl <= (q * 256) * 128) && (128 <= q
        * fl) && (fl < 32768 ==> q * fl < (q * 256) * 128)) by (nonlinear_arith)
        requires
            128 <= q <= 255,
            0 <= fh < fl <= 32768,
    ;
    lemma_div_plus_one(q * fh, 128);
    vstd::arithmetic::div_mod::lemma_div_is_ordered(q * fh + 128, q * fl, 128);
    lemma_div_ge(q * fl, 1, 128);
    if fl < 32768 {
        lemma_div_lt(q * fl, q * 256, 128);
    } else {
        assert((q * 256) * 128 < (q * 256 + 1) * 128) by (nonlinear_arith);
        lemma_div_lt(q * fl, q * 256 + 1, 128);
    }
    vstd::arithmetic::div_mod::lemma_div_pos_is_pos(q * fh, 128);
}

/// Finalized output length is non-decreasing as bits are appended: coding
/// one more binary value never shrinks the finished stream.
pub proof fn lemma_output_len_bool(m: EncM, val: bool, f: int)
    requires
        enc_inv(m),
        0 < f < 32768,
    ensures
        spec_done_bytes(spec_encode_bool(m, val, f)).len() >= spec_done_bytes(m).len(),
{
    let v = ec_v(m.rng, f);
    lemma_ec_v_range(m.rng, f, 0);
    let low0 = if val {
        m.low + m.rng - v
    } else {
        m.low
    };
    let rng0 = if val {
        v
    } else {
        m.rng - v
    };
    lemma_done_bits_normalize(m, low0, rng0);
    lemma_done_len(m);
    lemma_done_len(spec_encode_bool(m, val, f));
    vstd::arithmetic::div_mod::lemma_div_is_ordered(
        done_bits(m) + 7,
        done_bits(spec_encode_bool(m, val, f)) + 7,
        8,
    );
}

/// Finalized output length is non-decreasing as symbols are appended:
/// coding one more symbol against any admissible table never shrinks the
/// finished stream.  This covers the adaptive call too: the table update
/// does not touch the encoder.
pub proof fn lemma_output_len_cdf(m: EncM, t: Seq<u16>, s: int)
    requires
        enc_inv(m),
        0 <= s < t.len(),
        (t[s] as int) < icdf_fl(t, s),
        icdf_fl(t, s) <= 32768,
    ensures
        spec_done_bytes(spec_encode_cdf(m, t, s)).len() >= spec_done_bytes(m).len(),
{
    let fl = icdf_fl(t, s);
    let fh = t[s] as int;
    lemma_ec_v_range(m.rng, fl, fh);
    let low0 = if fl < 32768 {
        m.low + m.rng - ec_v(m.rng, fl)
    } else {
        m.low
    };
    let rng0 = if fl < 32768 {
        ec_v(m.rng, fl) - ec_v(m.rng, fh)
    } else {
        m.rng - ec_v(m.rng, fh)
    };
    lemma_done_bits_normalize(m, low0, rng0);
    lemma_done_len(m);
    lemma_done_len(spec_encode_cdf(m, t, s));
    vstd::arithmetic::div_mod::lemma_div_is_ordered(
        done_bits(m) + 7,
        done_bits(spec_encode_cdf(m, t, s)) + 7,
        8,
    );
}

impl od_ec_enc {
    pub fn new() -> (enc: od_ec_enc)
        ensures
            enc@ == enc_init(),
            enc_inv(enc@),
    {
        proof {
            lemma_p2_vals();
        }
        let enc = od_ec_enc {
            precarry: Vec::new(),
            low: 0,
            rng: 0x8000,
            // This is initialized to -9 so that it crosses zero after we've
            // accumulated one byte + one carry bit
            cnt: -9,
        };
        proof {
            assert(enc@ =~= enc_init());
        }
        enc
    }

    /// Takes updated low and range values, renormalizes them so that
    /// `32768 <= rng < 65536` (flushing units from `low` to the pre-carry
    /// buffer if necessary), and stores them back in the encoder context.
    fn od_ec_enc_normalize(&mut self, low0: u32, rng: u16)
        requires
            -9 <= old(self).cnt <= -1,
            1 <= rng,
            forall|i: int| 0 <= i < old(self)@.pre.len() ==> old(self)@.pre[i] < 0x300,
            low0 + rng <= 3 * p2(old(self).cnt + 24),
        ensures
            final(self)@ == spec_enc_normalize(
                old(self)@.pre,
                old(self)@.cnt,
                low0 as int,
                rng as int,
            ),
            enc_inv(final(self)@),
    {
        let ghost cnt0 = old(self)@.cnt;
        let ghost pre0 = old(self)@.pre;
        proof {
            lemma_p2_vals();
            lemma_ilog16_bounds(rng as int);
            assert(p2(16) == 0x10000);
            lemma_ilog16_le(rng as int, 16);
        }
        let il: u16 = od_ilog_nz(rng);
        let d: u16 = 16 - il;
        let ghost dd = d as int;
        proof {
            lemma_p2_adds(il as int - 1, dd);
            lemma_p2_adds(il as int, dd);
            lemma_p2_pos(dd);
            lemma_p2_pos(cnt0 + 24);
            // rng * 2^d lands in [2^15, 2^16)
            assert(p2(il as int - 1) * p2(dd) == p2(15) && p2(il as int) * p2(dd) == p2(16));
            assert(rng as int * p2(dd) < p2(16) && p2(15) <= rng as int * p2(dd))
                by (nonlinear_arith)
                requires
                    p2(il as int - 1) <= rng as int,
                    (rng as int) < p2(il as int),
                    p2(il as int - 1) * p2(dd) == p2(15),
                    p2(il as int) * p2(dd) == p2(16),
                    p2(dd) >= 1,
            ;
        }
        let mut low: u32 = low0;
        let mut c: i16 = self.cnt;
        let mut s: i16 = c + (d as i16);
        if s >= 0 {
            c += 16;
            // 7 <= c <= 15: the unit that leaves carries at most two extra bits
            let m1: u32 = pow2_u32(c as u32);
            proof {
                lemma_p2_adds(cnt0 + 16, 8);
                assert(3 * p2(cnt0 + 24) == 0x300 * (m1 as int)) by (nonlinear_arith)
                    requires
                        p2(cnt0 + 24) == p2(cnt0 + 16) * p2(8),
                        p2(8) == 0x100,
                        m1 as int == p2(cnt0 + 16),
                ;
                lemma_div_lt(low as int, 0x300, m1 as int);
            }
            if s >= 8 {
                let b: u32 = low / m1;
                self.precarry.push(b as u16);
                low = low % m1;
                c -= 8;
                proof {
                    lemma_p2_adds(cnt0 + 8, 8);
                }
            }
            let m2: u32 = pow2_u32(c as u32);
            let b2: u32 = low / m2;
            proof {
                if s >= 8 {
                    assert((low as int) < p2(cnt0 + 16));
                    assert(p2(cnt0 + 16) == 0x100 * (m2 as int)) by (nonlinear_arith)
                        requires
                            p2(cnt0 + 16) == p2(cnt0 + 8) * p2(8),
                            p2(8) == 0x100,
                            m2 as int == p2(cnt0 + 8),
                    ;
                    lemma_div_lt(low as int, 0x100, m2 as int);
                } else {
                    lemma_div_lt(low as int, 0x300, m2 as int);
                }
            }
            self.precarry.push(b2 as u16);
            s = c + (d as i16) - 24;
            low = low % m2;
        }
        let sc: u32 = pow2_u32(d as u32);
        proof {
            // the scaled-up low stays under its window bound in every branch
            if cnt0 + dd >= 8 {
                lemma_p2_adds(cnt0 + 8, dd);
                lemma_p2_le(cnt0 + 8 + dd, 23);
                assert(low as int * (sc as int) < p2(cnt0 + 8 + dd)) by (nonlinear_arith)
                    requires
                        0 <= low as int && (low as int) < p2(cnt0 + 8),
                        sc as int == p2(dd),
                        p2(cnt0 + 8 + dd) == p2(cnt0 + 8) * p2(dd),
                        p2(dd) >= 1,
                ;
            } else if cnt0 + dd >= 0 {
                lemma_p2_adds(cnt0 + 16, dd);
                lemma_p2_le(cnt0 + 16 + dd, 23);
                assert(low as int * (sc as int) < p2(cnt0 + 16 + dd)) by (nonlinear_arith)
                    requires
                        0 <= low as int && (low as int) < p2(cnt0 + 16),
                        sc as int == p2(dd),
                        p2(cnt0 + 16 + dd) == p2(cnt0 + 16) * p2(dd),
                        p2(dd) >= 1,
                ;
            } else {
                lemma_p2_adds(cnt0 + 24, dd);
                lemma_p2_le(cnt0 + 24 + dd, 23);
                assert((low0 as int + rng as int) * (sc as int) <= 3 * p2(cnt0 + 24 + dd))
                    by (nonlinear_arith)
                    requires
                        0 <= low0 as int + rng as int <= 3 * p2(cnt0 + 24),
                        sc as int == p2(dd),
                        p2(cnt0 + 24 + dd) == p2(cnt0 + 24) * p2(dd),
                        p2(dd) >= 1,
                ;
                assert(low as int * (sc as int) + rng as int * (sc as int) == (low0 as int
                    + rng as int) * (sc as int)) by (nonlinear_arith)
                    requires
                        low == low0,
                ;
            }
            lemma_p2_vals();
            lemma_p2_le(0, cnt0 + 15);
            lemma_p2_le(16, cnt0 + 25);
            if cnt0 + dd >= 0 {
                let cnt1 = if cnt0 + dd >= 8 { cnt0 + dd - 16 } else { cnt0 + dd - 8 };
                lemma_p2_le(16, cnt1 + 25);
                lemma_p2_adds(cnt1 + 24, 1);
            }
        }
        self.low = low * sc;
        self.rng = ((rng as u32) * sc) as u16;
        self.cnt = s;
        proof {
            assert forall|i: int| 0 <= i < self@.pre.len() implies self@.pre[i] < 0x300 by {
                if i < pre0.len() {
                    assert(pre0[i] < 0x300);
                }
            }
            assert(0x8000 <= self@.rng <= 0xFFFF);
            assert(-9 <= self@.cnt <= -1);
            assert(self@.low + self@.rng <= 3 * p2(self@.cnt + 24));
            assert(self@ =~= spec_enc_normalize(pre0, cnt0, low0 as int, rng as int));
        }
    }

    /// Encode a single binary value.
    /// `val`: The value to encode (0 or 1).
    /// `f`: The probability that the val is one, scaled by 32768.
    pub fn od_ec_encode_bool_q15(&mut self, val: bool, f: u16)
        requires
            enc_inv(old(self)@),
            0 < f < 32768,
        ensures
            final(self)@ == spec_encode_bool(old(self)@, val, f as int),
            enc_inv(final(self)@),
    {
        let mut l: u32 = self.low;
        let r: u32 = self.rng as u32;
        let q: u32 = r / 256;
        proof {
            lemma_p2_vals();
            lemma_p2_le(old(self)@.cnt + 24, 23);
            lemma_div_ge(r as int, 128, 256);
            lemma_div_lt(r as int, 256, 256);
            lemma_div_mul_le(r as int, 256);
            assert((128 <= (q as int) * (f as int)) && ((q as int) * (f as int) < ((q as int)
                * 256) * 128)) by (nonlinear_arith)
                requires
                    128 <= q <= 255,
                    1 <= f < 32768,
            ;
        }
        let v: u32 = (q * (f as u32)) / 128;
        proof {
            lemma_div_ge(q as int * f as int, 1, 128);
            lemma_div_lt(q as int * f as int, q as int * 256, 128);
            assert(v < r);
        }
        if val {
            l = l + (r - v);
        }
        let r2: u32 = if val {
            v
        } else {
            r - v
        };
        self.od_ec_enc_normalize(l, r2 as u16);
    }

    /// Encodes a symbol given its frequency in Q15.
    /// `fl`: 32768 minus the cumulative frequency of all symbols that come
    ///       before the one to be encoded.
    /// `fh`: 32768 minus the cumulative frequency of all symbols up to and
    ///       including the one to be encoded.
    pub fn od_ec_encode_q15(&mut self, fl: u16, fh: u16)
        requires
            enc_inv(old(self)@),
            fh < fl,
            fl <= 32768,
        ensures
            final(self)@ == spec_encode_q15(old(self)@, fl as int, fh as int),
            enc_inv(final(self)@),
    {
        let mut l: u32 = self.low;
        let r: u32 = self.rng as u32;
        let q: u32 = r / 256;
        proof {
            lemma_p2_vals();
            lemma_p2_le(old(self)@.cnt + 24, 23);
            lemma_div_ge(r as int, 128, 256);
            lemma_div_lt(r as int, 256, 256);
            lemma_div_mul_le(r as int, 256);
            assert(((q as int) * (fl as int) <= ((q as int) * 256) * 128) && ((q as int) * (fh
                as int) + 128 <= (q as int) * (fl as int))) by (nonlinear_arith)
                requires
                    128 <= q <= 255,
                    fh < fl,
                    fl <= 32768,
            ;
        }
        if fl < 32768 {
            let u: u32 = (q * (fl as u32)) / 128;
            let v: u32 = (q * (fh as u32)) / 128;
            proof {
                lemma_div_plus_one((q as int) * (fh as int), 128);
                vstd::arithmetic::div_mod::lemma_div_is_ordered(
                    (q as int) * (fh as int) + 128,
                    (q as int) * (fl as int),
                    128,
                );
                assert(v < u);
                assert((q as int) * (fl as int) < ((q as int) * 256 + 1) * 128)
                    by (nonlinear_arith)
                    requires
                        (q as int) * (fl as int) <= ((q as int) * 256) * 128,
                ;
                lemma_div_lt(q as int * fl as int, q as int * 256 + 1, 128);
                assert(u <= q * 256);
                assert(u <= r);
            }
            l = l + (r - u);
            self.od_ec_enc_normalize(l, (u - v) as u16);
        } else {
            let v: u32 = (q * (fh as u32)) / 128;
            proof {
                assert((q as int) * (fh as int) < ((q as int) * 256) * 128) by (nonlinear_arith)
                    requires
                        128 <= q <= 255,
                        fh < 32768,
                ;
                lemma_div_lt(q as int * fh as int, q as int * 256, 128);
                assert(v < r);
            }
            self.od_ec_enc_normalize(l, (r - v) as u16);
        }
    }

    /// 32768 minus `x`: converts between a cumulative frequency and its
    /// inverted table form.
    pub fn od_icdf(x: u16) -> (r: u16)
        requires
            x <= 32768,
        ensures
            r == 32768 - x,
    {
        32768 - x
    }

    /// Encodes a symbol given a cumulative distribution function (CDF)
    /// table in Q15, inverted, using its first `n` entries.
    /// `s`: The index of the symbol to encode.
    /// The entry above `s` must strictly exceed the entry through `s`, and
    /// the last of the `n` entries must be exactly 0.
    pub fn od_ec_encode_cdf_q15(&mut self, s: usize, cdf: &[u16], n: usize)
        requires
            enc_inv(old(self)@),
            s < n,
            n <= cdf@.len(),
            cdf@[n - 1] == 0,
            s > 0 ==> cdf@[s as int] < cdf@[s - 1] && cdf@[s - 1] <= 32768,
            s == 0 ==> cdf@[0] < 32768,
        ensures
            final(self)@ == spec_encode_cdf(old(self)@, cdf@, s as int),
            enc_inv(final(self)@),
    {
        let fh: u16 = cdf[s];
        let fl: u16 = if s > 0 {
            cdf[s - 1]
        } else {
            od_ec_enc::od_icdf(0)
        };
        self.od_ec_encode_q15(fl, fh);
    }

    /// Indicates that there are no more symbols to encode.
    /// Returns a vector containing the final bitstream.
    ///
    /// We output the minimum number of bits that ensures that the symbols
    /// encoded thus far will be decoded correctly regardless of the bits
    /// that follow.
    pub fn od_ec_enc_done(&mut self) -> (out: Vec<u8>)
        requires
            enc_inv(old(self)@),
        ensures
            out@ == spec_done_bytes(old(self)@),
            final(self)@.pre == spec_done_pre(old(self)@),
            final(self)@.low == old(self)@.low,
            final(self)@.rng == old(self)@.rng,
            final(self)@.cnt == old(self)@.cnt,
    {
        let ghost m0 = old(self)@;
        let l: u32 = self.low;
        let r: u32 = self.rng as u32;
        let c: i16 = self.cnt;
        proof {
            lemma_p2_vals();
            lemma_p2_le(c as int + 24, 23);
            assert(l + r <= 3 * p2(23));
            lemma_div_mul_le(l as int + 0x7FFF, 0x8000);
            lemma_div_ge(l as int + 0x7FFF, (l as int) / 0x8000, 0x8000);
        }
        let mut s: i16 = 9;
        let mut e: u32 = ((l + 0x7FFF) / 0x8000) * 0x8000;
        let ghost mut h: int = 0;
        if e + 0x7FFF >= l + r {
            s = 10;
            proof {
                h = 1;
                lemma_div_mul_le(l as int + 0x3FFF, 0x4000);
            }
            e = ((l + 0x3FFF) / 0x4000) * 0x4000;
        }
        proof {
            assert(e < l + r);
        }
        s = s + c;
        if s > 0 {
            let shift1: u16 = (c + 16) as u16;
            let m1: u32 = pow2_u32(shift1 as u32);
            proof {
                lemma_p2_adds(c as int + 16, 8);
                assert(3 * p2(c as int + 24) == 0x300 * (m1 as int)) by (nonlinear_arith)
                    requires
                        p2(c as int + 24) == p2(c as int + 16) * p2(8),
                        p2(8) == 0x100,
                        m1 as int == p2(c as int + 16),
                ;
                lemma_div_lt(e as int, 0x300, m1 as int);
            }
            let b1: u32 = e / m1;
            self.precarry.push(b1 as u16);
            if s > 8 {
                // reachable only with one pending carry bit left: c == -1
                let e1: u32 = e % m1;
                let m2: u32 = pow2_u32((shift1 - 8) as u32);
                proof {
                    lemma_p2_adds(c as int + 8, 8);
                    assert(p2(c as int + 16) == 0x100 * (m2 as int)) by (nonlinear_arith)
                        requires
                            p2(c as int + 16) == p2(c as int + 8) * p2(8),
                            p2(8) == 0x100,
                            m2 as int == p2(c as int + 8),
                    ;
                    lemma_div_lt(e1 as int, 0x100, m2 as int);
                }
                self.precarry.push((e1 / m2) as u16);
            }
        }
        proof {
            assert(self@.pre =~= spec_done_pre(m0));
        }
        // resolve all carries in a single backward pass
        let n: usize = self.precarry.len();
        let mut out: Vec<u8> = Vec::new();
        let mut i: usize = 0;
        while i < n
            invariant
                out@.len() == i,
                i <= n,
            decreases n - i,
        {
            out.push(0);
            i = i + 1;
        }
        let ghost pre = self.precarry@;
        let mut carry: u16 = 0;
        let mut offs: usize = n;
        while offs > 0
            invariant
                n == pre.len(),
                offs <= n,
                out@.len() == n,
                self@.pre == pre,
                carry == carry_from(pre, offs as int),
                carry <= 3,
                forall|i: int| 0 <= i < pre.len() ==> pre[i] < 0x300,
                forall|j: int| offs <= j < n ==> out@[j] == resolved_byte(pre, j),
            decreases offs,
        {
            offs = offs - 1;
            let t: u16 = self.precarry[offs] + carry;
            out.set(offs, (t % 256) as u8);
            proof {
                lemma_div_lt(t as int, 4, 256);
            }
            carry = t / 256;
        }
        proof {
            assert(out@ =~= spec_resolve(pre));
        }
        out
    }
}

/// The caller-facing encoder.
pub struct Writer {
    enc: od_ec_enc,
}

impl View for Writer {
    type V = EncM;

    closed spec fn view(&self) -> EncM {
        self.enc@
    }
}

impl Writer {
    pub fn new() -> (w: Writer)
        ensures
            w@ == enc_init(),
            enc_inv(w@),
    {
        Writer { enc: od_ec_enc::new() }
    }

    /// Finishes the stream and returns the bytes.  No coding call may
    /// follow: the flushed bits disambiguate only what was coded so far.
    pub fn done(&mut self) -> (out: Vec<u8>)
        requires
            enc_inv(old(self)@),
        ensures
            out@ == spec_done_bytes(old(self)@),
    {
        self.enc.od_ec_enc_done()
    }

    /// Encode a symbol against a caller-owned inverted CDF table, without
    /// adapting the table.
    pub fn cdf(&mut self, s: u32, cdf: &[u16])
        requires
            enc_inv(old(self)@),
            (s as int) < cdf@.len(),
            cdf@[cdf@.len() - 1] == 0,
            s > 0 ==> cdf@[s as int] < cdf@[s as int - 1] && cdf@[s as int - 1] <= 32768,
            s == 0 ==> cdf@[0] < 32768,
        ensures
            final(self)@ == spec_encode_cdf(old(self)@, cdf@, s as int),
            enc_inv(final(self)@),
    {
        self.enc.od_ec_encode_cdf_q15(s as usize, cdf, cdf.len())
    }

    /// Encode one binary value with probability `f / 32768` of being true.
    pub fn bool(&mut self, val: bool, f: u16)
        requires
            enc_inv(old(self)@),
            0 < f < 32768,
        ensures
            final(self)@ == spec_encode_bool(old(self)@, val, f as int),
            enc_inv(final(self)@),
    {
        self.enc.od_ec_encode_bool_q15(val, f)
    }

    /// Encode a symbol against an adaptive table of `nsymbs` entries plus a
    /// trailing usage counter, then adapt the table in place.  The decoder
    /// side runs the identical update, keeping both models in lockstep.
    pub fn symbol(&mut self, s: u32, cdf: &mut Vec<u16>, nsymbs: usize)
        requires
            enc_inv(old(self)@),
            valid_icdf_n(old(cdf)@, nsymbs as int),
            nsymbs + 1 <= old(cdf)@.len(),
            nsymbs <= 16,
            (s as int) < nsymbs,
        ensures
            final(self)@ == spec_encode_cdf(old(self)@, old(cdf)@, s as int),
            enc_inv(final(self)@),
            final(cdf)@ == spec_update_cdf(old(cdf)@, s as int, nsymbs as int),
            valid_icdf_n(final(cdf)@, nsymbs as int),
            final(cdf)@.len() == old(cdf)@.len(),
    {
        proof {
            if s > 0 {
                assert(old(cdf)@[(s - 1) as int + 1] < old(cdf)@[(s - 1) as int]);
            }
        }
        self.enc.od_ec_encode_cdf_q15(s as usize, cdf.as_slice(), nsymbs);
        update_cdf(cdf, s, nsymbs);
        proof {
            lemma_update_cdf_valid(old(cdf)@, s as int, nsymbs as int);
        }
    }
}

} // verus!
