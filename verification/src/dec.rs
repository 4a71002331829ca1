//! The adaptive range decoder: the symmetric half of the encoder.
//!
//! The decoder holds the difference between the stream value and the low end
//! of the current interval in a 32-bit window `dif` whose bits 16..31 carry
//! the active 16-bit value.  Each call splits the interval with exactly the
//! encoder's arithmetic, picks the band containing the window value, and
//! renormalizes, pulling fresh bytes in as valid bits run out.  Once the
//! declared input is exhausted the decoder synthesizes zero bits instead of
//! failing — the encoder's final flush legitimately omits trailing bits —
//! and records that it read past the end, for the caller to query.

use vstd::prelude::*;
use crate::num::{
    p2, ilog16, lemma_p2_vals, lemma_p2_adds, lemma_p2_pos, lemma_ilog16_bounds,
    lemma_ilog16_le, lemma_div_lt, lemma_div_ge, lemma_div_mul_le, lemma_mod_gap,
    lemma_mod_p2_le, lemma_mod_diff_zero, lemma_mod_of_multiple, od_ilog_nz, pow2_u32,
};
use vstd::arithmetic::div_mod::{lemma_fundamental_div_mod, lemma_small_mod};
use crate::cdf::{valid_icdf_n, spec_update_cdf, update_cdf, lemma_update_cdf_valid};
use crate::enc::ec_v;

verus! {

/// Mathematical model of the decoder state.
#[verifier::ext_equal]
pub ghost struct DecM {
    pub buf: Seq<u8>,
    pub bptr: int,
    pub dif: int,
    pub rng: int,
    pub cnt: int,
    pub overread: bool,
}

pub struct od_ec_dec {
    /// The input stream.
    pub buf: Vec<u8>,
    /// Index of the next byte to pull into the window.
    pub bptr: usize,
    /// Stream value minus consumed interval lows, left-aligned: bits 16..31
    /// hold the active value, lower bits are lookahead.
    pub dif: u32,
    /// The number of values in the current range.
    pub rng: u16,
    /// Valid lookahead bits in `dif` below the active 16; 0x4000 once the
    /// stream is exhausted and zero bits are synthesized instead.
    pub cnt: i16,
    /// Whether decoding ever needed a bit beyond the declared end.
    pub overread: bool,
}

impl View for od_ec_dec {
    type V = DecM;

    open spec fn view(&self) -> DecM {
        DecM {
            buf: self.buf@,
            bptr: self.bptr as int,
            dif: self.dif as int,
            rng: self.rng as int,
            cnt: self.cnt as int,
            overread: self.overread,
        }
    }
}

/// The state every decoding call preserves: a normalized range, the window
/// value strictly inside the scaled range with its unknown bits zero, and at
/// least the active 16 bits valid.
pub open spec fn dec_inv(m: DecM) -> bool {
    &&& 0x8000 <= m.rng <= 0xFFFF
    &&& 0 <= m.bptr <= m.buf.len()
    &&& 0 <= m.dif
    &&& if m.cnt == 0x4000 {
        m.dif < m.rng * 0x10000
    } else {
        &&& 0 <= m.cnt <= 16
        &&& m.dif % p2(16 - m.cnt) == 0
        &&& m.dif + p2(16 - m.cnt) <= m.rng * 0x10000
    }
}

/// Refilling the window: pull whole bytes into the zero gap below the valid
/// bits while room remains; when the stream runs out with fewer than 16
/// valid bits, flag the overread and let the zero bits stand in for the
/// stream from then on.
pub open spec fn spec_refill(m: DecM) -> DecM
    decreases m.buf.len() - m.bptr,
{
    if m.cnt <= 8 && m.bptr < m.buf.len() {
        spec_refill(
            DecM {
                dif: m.dif + (m.buf[m.bptr] as int) * p2(8 - m.cnt),
                cnt: m.cnt + 8,
                bptr: m.bptr + 1,
                ..m
            },
        )
    } else if m.cnt < 0 {
        DecM { cnt: 0x4000, overread: true, ..m }
    } else {
        m
    }
}

/// Renormalization: scale window and range by the same doublings the
/// encoder applied, spend that many valid bits, and refill once fewer than
/// 16 remain.
pub open spec fn spec_dec_normalize(m: DecM, dif: int, rng: int) -> DecM {
    let d = 16 - ilog16(rng);
    let c2 = if m.cnt == 0x4000 {
        0x4000int
    } else {
        m.cnt - d
    };
    let m2 = DecM { dif: dif * p2(d), rng: rng * p2(d), cnt: c2, ..m };
    if m2.cnt < 0 {
        spec_refill(m2)
    } else {
        m2
    }
}

/// Decoding a bit: a one occupies the top `ec_v(rng, f)` values of the
/// interval, exactly as the encoder placed it.
pub open spec fn spec_decode_bool(m: DecM, f: int) -> (DecM, bool) {
    let r = m.rng;
    let v = ec_v(r, f);
    let t = (r - v) * 0x10000;
    if m.dif >= t {
        (spec_dec_normalize(m, m.dif - t, v), true)
    } else {
        (spec_dec_normalize(m, m.dif, r - v), false)
    }
}

/// The symbol whose band holds the active window value `c`: the first index
/// whose scaled band top lies strictly above `c`.  A well-formed table ends
/// in 0, whose band top is the whole range, so the scan stops by `n - 1`.
pub open spec fn spec_dec_sym(c: int, r: int, t: Seq<u16>, n: int, i: int) -> int
    decreases n - i,
{
    if i >= n - 1 || c < r - ec_v(r, t[i] as int) {
        i
    } else {
        spec_dec_sym(c, r, t, n, i + 1)
    }
}

/// Decoding a symbol against the first `n` entries of inverted CDF table
/// `t`: pick the band holding the window value, subtract everything below
/// it, renormalize to its width.
pub open spec fn spec_decode_cdf(m: DecM, t: Seq<u16>, n: int) -> (DecM, int) {
    let r = m.rng;
    let c = m.dif / 0x10000;
    let s = spec_dec_sym(c, r, t, n, 0);
    let u = if s == 0 {
        r
    } else {
        ec_v(r, t[s - 1] as int)
    };
    let v = ec_v(r, t[s] as int);
    (spec_dec_normalize(m, m.dif - (r - u) * 0x10000, u - v), s)
}

/// A fresh decoder over `data`: empty window, range `[0, 2^15)`, first
/// refill already performed.
pub open spec fn spec_dec_init(data: Seq<u8>) -> DecM {
    spec_refill(DecM { buf: data, bptr: 0, dif: 0, rng: 0x8000, cnt: -15, overread: false })
}

/// A scaled word is a multiple of every power of two up to 2^16.
proof fn lemma_word_multiple(w: int, k: int)
    requires
        0 <= k <= 16,
    ensures
        (w * 0x10000) % p2(k) == 0,
{
    lemma_p2_adds(k, 16 - k);
    lemma_p2_vals();
    lemma_p2_pos(k);
    assert(w * 0x10000 == (w * p2(16 - k)) * p2(k)) by (nonlinear_arith)
        requires
            p2(16) == 0x10000,
            p2(16) == p2(k) * p2(16 - k),
    ;
    lemma_mod_of_multiple(w * p2(16 - k), p2(k));
}

impl od_ec_dec {
    /// Pull bytes into the window until more than 8 valid lookahead bits
    /// are present or the stream ends; flag and seal the window when it
    /// ends short.
    fn od_ec_dec_refill(&mut self)
        requires
            0x8000 <= old(self)@.rng <= 0xFFFF,
            -15 <= old(self)@.cnt <= 8,
            0 <= old(self)@.bptr <= old(self)@.buf.len(),
            old(self)@.dif % p2(16 - old(self)@.cnt) == 0,
            old(self)@.dif + p2(16 - old(self)@.cnt) <= old(self)@.rng * 0x10000,
        ensures
            final(self)@ == spec_refill(old(self)@),
            dec_inv(final(self)@),
    {
        proof {
            lemma_p2_vals();
        }
        while self.cnt <= 8 && self.bptr < self.buf.len()
            invariant
                self@.buf == old(self)@.buf,
                self@.rng == old(self)@.rng,
                self@.overread == old(self)@.overread,
                0x8000 <= self@.rng <= 0xFFFF,
                -15 <= self@.cnt <= 16,
                0 <= self@.bptr <= self@.buf.len(),
                self@.dif % p2(16 - self@.cnt) == 0,
                self@.dif + p2(16 - self@.cnt) <= self@.rng * 0x10000,
                spec_refill(self@) == spec_refill(old(self)@),
            decreases self@.buf.len() - self@.bptr,
        {
            let ghost prev = self@;
            let b: u8 = self.buf[self.bptr];
            let sh: u32 = (8 - self.cnt) as u32;
            let unit: u32 = pow2_u32(sh);
            proof {
                lemma_p2_vals();
                lemma_p2_adds(8 - prev.cnt, 8);
                lemma_p2_pos(8 - prev.cnt);
                lemma_p2_pos(16 - prev.cnt);
                assert((b as int) * (unit as int) + (unit as int) <= p2(16 - prev.cnt))
                    by (nonlinear_arith)
                    requires
                        b < 256,
                        unit as int == p2(8 - prev.cnt),
                        p2(16 - prev.cnt) == p2(8 - prev.cnt) * p2(8),
                        p2(8) == 256,
                ;
                lemma_mod_p2_le(prev.dif, 16 - prev.cnt, 8 - prev.cnt);
                lemma_mod_of_multiple(b as int, p2(8 - prev.cnt));
                crate::num::lemma_mod_add_zero(
                    prev.dif,
                    (b as int) * p2(8 - prev.cnt),
                    p2(8 - prev.cnt),
                );
            }
            self.dif = self.dif + (b as u32) * unit;
            self.cnt = self.cnt + 8;
            self.bptr = self.bptr + 1;
            proof {
                assert(self@ =~= DecM {
                    dif: prev.dif + (prev.buf[prev.bptr] as int) * p2(8 - prev.cnt),
                    cnt: prev.cnt + 8,
                    bptr: prev.bptr + 1,
                    ..prev
                });
                assert(spec_refill(prev) == spec_refill(self@));
            }
        }
        let ghost atexit = self@;
        if self.cnt < 0 {
            self.cnt = 0x4000;
            self.overread = true;
            proof {
                lemma_p2_pos(16 - atexit.cnt);
                assert(self@ =~= DecM { cnt: 0x4000, overread: true, ..atexit });
            }
        }
        proof {
            lemma_p2_pos(16 - atexit.cnt);
            assert(final(self)@ == spec_refill(old(self)@));
        }
    }

    /// Takes an updated window and range, renormalizes so that
    /// `32768 <= rng < 65536`, reading more of the stream as needed, and
    /// stores them back in the decoder context.
    fn od_ec_dec_normalize(&mut self, dif: u32, rng: u32)
        requires
            1 <= rng <= 0xFFFF,
            0 <= old(self)@.bptr <= old(self)@.buf.len(),
            0x8000 <= old(self)@.rng <= 0xFFFF,
            if old(self)@.cnt == 0x4000 {
                (dif as int) < rng * 0x10000
            } else {
                &&& 0 <= old(self)@.cnt <= 16
                &&& (dif as int) % p2(16 - old(self)@.cnt) == 0
                &&& dif + p2(16 - old(self)@.cnt) <= rng * 0x10000
            },
        ensures
            final(self)@ == spec_dec_normalize(old(self)@, dif as int, rng as int),
            dec_inv(final(self)@),
    {
        let ghost m0 = old(self)@;
        proof {
            lemma_p2_vals();
            lemma_ilog16_bounds(rng as int);
            lemma_ilog16_le(rng as int, 16);
        }
        let il: u16 = od_ilog_nz(rng as u16);
        let d: u16 = 16 - il;
        let ghost dd = d as int;
        let sc: u32 = pow2_u32(d as u32);
        proof {
            lemma_p2_adds(il as int - 1, dd);
            lemma_p2_adds(il as int, dd);
            lemma_p2_pos(dd);
            assert(p2(il as int - 1) * p2(dd) == p2(15) && p2(il as int) * p2(dd) == p2(16));
            assert((rng as int) * p2(dd) < p2(16) && p2(15) <= (rng as int) * p2(dd))
                by (nonlinear_arith)
                requires
                    p2(il as int - 1) <= rng as int,
                    (rng as int) < p2(il as int),
                    p2(il as int - 1) * p2(dd) == p2(15),
                    p2(il as int) * p2(dd) == p2(16),
                    p2(dd) >= 1,
            ;
            if m0.cnt == 0x4000 {
                assert((dif as int) * (sc as int) < ((rng as int) * (sc as int)) * 0x10000)
                    by (nonlinear_arith)
                    requires
                        (dif as int) < (rng as int) * 0x10000,
                        sc as int == p2(dd),
                        p2(dd) >= 1,
                ;
                assert(((rng as int) * (sc as int)) * 0x10000 < 0x100000000) by (nonlinear_arith)
                    requires
                        (rng as int) * (sc as int) < p2(16),
                        p2(16) == 0x10000,
                ;
            } else {
                lemma_p2_adds(16 - m0.cnt, dd);
                assert((dif as int) * (sc as int) + p2(16 - m0.cnt + dd) <= ((rng as int) * (
                sc as int)) * 0x10000) by (nonlinear_arith)
                    requires
                        dif + p2(16 - m0.cnt) <= rng * 0x10000,
                        sc as int == p2(dd),
                        p2(16 - m0.cnt + dd) == p2(16 - m0.cnt) * p2(dd),
                        p2(dd) >= 1,
                ;
                assert(((rng as int) * (sc as int)) * 0x10000 < 0x100000000) by (nonlinear_arith)
                    requires
                        (rng as int) * (sc as int) < p2(16),
                        p2(16) == 0x10000,
                ;
                lemma_p2_pos(16 - m0.cnt + dd);
                // the scaled window keeps its zero gap
                lemma_p2_pos(16 - m0.cnt);
                lemma_fundamental_div_mod(dif as int, p2(16 - m0.cnt));
                assert((dif as int) * (sc as int) == ((dif as int) / p2(16 - m0.cnt)) * p2(
                16 - m0.cnt + dd)) by (nonlinear_arith)
                    requires
                        dif as int == p2(16 - m0.cnt) * ((dif as int) / p2(16 - m0.cnt)),
                        p2(16 - m0.cnt + dd) == p2(16 - m0.cnt) * p2(dd),
                        sc as int == p2(dd),
                ;
                lemma_mod_of_multiple((dif as int) / p2(16 - m0.cnt), p2(16 - m0.cnt + dd));
            }
        }
        self.dif = dif * sc;
        self.rng = ((rng as u32) * sc) as u16;
        if self.cnt != 0x4000 {
            self.cnt = self.cnt - (d as i16);
        }
        let ghost mid = self@;
        proof {
            assert(mid =~= DecM {
                dif: (dif as int) * p2(dd),
                rng: (rng as int) * p2(dd),
                cnt: if m0.cnt == 0x4000 {
                    0x4000int
                } else {
                    m0.cnt - dd
                },
                ..m0
            });
            if m0.cnt != 0x4000 && mid.cnt >= 0 {
                assert(16 - mid.cnt == 16 - m0.cnt + dd);
            }
        }
        if self.cnt < 0 {
            self.od_ec_dec_refill();
        }
        proof {
            assert(final(self)@ == spec_dec_normalize(m0, dif as int, rng as int));
        }
    }

    /// Decode a single binary value with probability `f / 32768` of truth.
    pub fn od_ec_decode_bool_q15(&mut self, f: u16) -> (ret: bool)
        requires
            dec_inv(old(self)@),
            0 < f < 32768,
        ensures
            final(self)@ == spec_decode_bool(old(self)@, f as int).0,
            ret == spec_decode_bool(old(self)@, f as int).1,
            dec_inv(final(self)@),
    {
        let ghost m0 = old(self)@;
        let dif: u32 = self.dif;
        let r: u32 = self.rng as u32;
        let q: u32 = r / 256;
        proof {
            lemma_p2_vals();
            lemma_div_ge(r as int, 128, 256);
            lemma_div_lt(r as int, 256, 256);
            lemma_div_mul_le(r as int, 256);
            assert((128 <= (q as int) * (f as int)) && ((q as int) * (f as int) < ((q as int)
                * 256) * 128)) by (nonlinear_arith)
                requires
                    128 <= q <= 255,
                    1 <= f < 32768,
            ;
        }
        let v: u32 = (q * (f as u32)) / 128;
        proof {
            lemma_div_ge(q as int * f as int, 1, 128);
            lemma_div_lt(q as int * f as int, q as int * 256, 128);
            assert(v < r);
            assert((dif as int) < (r as int) * 0x10000) by {
                if m0.cnt != 0x4000 {
                    lemma_p2_pos(16 - m0.cnt);
                }
            }
        }
        let t: u32 = (r - v) * 0x10000;
        proof {
            if m0.cnt != 0x4000 {
                lemma_p2_pos(16 - m0.cnt);
                lemma_word_multiple((r - v) as int, 16 - m0.cnt);
                if dif < t {
                    lemma_mod_gap(dif as int, t as int, p2(16 - m0.cnt));
                } else {
                    lemma_mod_diff_zero(dif as int, t as int, p2(16 - m0.cnt));
                }
            }
        }
        if dif >= t {
            self.od_ec_dec_normalize(dif - t, v);
            true
        } else {
            self.od_ec_dec_normalize(dif, r - v);
            false
        }
    }

    /// Decode one symbol against the first `n` entries of an inverted CDF
    /// table whose last entry is 0: scan for the band holding the window
    /// value, exactly mirroring the encoder's band layout.
    pub fn od_ec_decode_cdf_q15(&mut self, icdf: &[u16], n: usize) -> (ret: usize)
        requires
            dec_inv(old(self)@),
            1 <= n <= icdf@.len(),
            icdf@[n - 1] == 0,
            forall|i: int| 0 <= i < n ==> icdf@[i] <= 32768,
        ensures
            final(self)@ == spec_decode_cdf(old(self)@, icdf@, n as int).0,
            ret == spec_decode_cdf(old(self)@, icdf@, n as int).1,
            ret < n,
            dec_inv(final(self)@),
    {
        let ghost m0 = old(self)@;
        let ghost tt = icdf@;
        let dif: u32 = self.dif;
        let r: u32 = self.rng as u32;
        let q: u32 = r / 256;
        proof {
            lemma_p2_vals();
            lemma_div_ge(r as int, 128, 256);
            lemma_div_lt(r as int, 256, 256);
            lemma_div_mul_le(r as int, 256);
            assert((dif as int) < (r as int) * 0x10000) by {
                if m0.cnt != 0x4000 {
                    lemma_p2_pos(16 - m0.cnt);
                }
            }
            lemma_div_lt(dif as int, r as int, 0x10000);
            lemma_div_mul_le(dif as int, 0x10000);
            assert((q as int) * (tt[0] as int) <= ((q as int) * 256) * 128) by (nonlinear_arith)
                requires
                    128 <= q <= 255,
                    tt[0] <= 32768,
            ;
            assert(((q as int) * 256) * 128 < ((q as int) * 256 + 1) * 128) by (nonlinear_arith);
            lemma_div_lt((q as int) * (tt[0] as int), (q as int) * 256 + 1, 128);
        }
        let c: u32 = dif / 0x10000;
        let mut s: usize = 0;
        let mut u: u32 = r;
        let mut v: u32 = (q * (icdf[0] as u32)) / 128;
        while c >= r - v
            invariant
                0 <= s < n,
                n <= tt.len(),
                tt == icdf@,
                tt[n - 1] == 0,
                forall|i: int| 0 <= i < n ==> tt[i] <= 32768,
                128 <= q <= 255,
                q == r / 256,
                (q as int) * 256 <= r,
                0x8000 <= r <= 0xFFFF,
                c == dif / 0x10000,
                c < r,
                v as int == ec_v(r as int, tt[s as int] as int),
                v <= q * 256,
                u as int == if s == 0 {
                    r as int
                } else {
                    ec_v(r as int, tt[s - 1] as int)
                },
                u <= r,
                s > 0 ==> c >= r - u,
                spec_dec_sym(c as int, r as int, tt, n as int, 0) == spec_dec_sym(
                    c as int,
                    r as int,
                    tt,
                    n as int,
                    s as int,
                ),
            decreases n - s,
        {
            proof {
                // a zero entry's band top is the whole range, above c
                assert(v >= 1);
                assert(tt[s as int] != 0) by {
                    if tt[s as int] == 0 {
                        assert(ec_v(r as int, 0) == 0);
                    }
                }
                assert(s != n - 1);
                assert(spec_dec_sym(c as int, r as int, tt, n as int, s as int) == spec_dec_sym(
                    c as int,
                    r as int,
                    tt,
                    n as int,
                    s as int + 1,
                ));
                assert((q as int) * (tt[s as int + 1] as int) <= ((q as int) * 256) * 128)
                    by (nonlinear_arith)
                    requires
                        128 <= q <= 255,
                        tt[s as int + 1] <= 32768,
                ;
                assert(((q as int) * 256) * 128 < ((q as int) * 256 + 1) * 128)
                    by (nonlinear_arith);
                lemma_div_lt((q as int) * (tt[s as int + 1] as int), (q as int) * 256 + 1, 128);
            }
            s = s + 1;
            u = v;
            v = (q * (icdf[s] as u32)) / 128;
        }
        proof {
            assert(spec_dec_sym(c as int, r as int, tt, n as int, s as int) == s);
            assert(u >= v + 1) by {
                if s > 0 {
                    assert(c >= r - u && c < r - v);
                }
            }
            // the window lies inside the chosen band
            assert(dif >= (r - u) * 0x10000) by {
                if s > 0 {
                    assert((c as int) * 0x10000 <= dif);
                    assert(((r - u) as int) * 0x10000 <= (c as int) * 0x10000)
                        by (nonlinear_arith)
                        requires
                            (r - u) as int <= c as int,
                    ;
                }
            }
            lemma_fundamental_div_mod(dif as int, 0x10000);
            vstd::arithmetic::div_mod::lemma_mod_division_less_than_divisor(dif as int, 0x10000);
            assert((dif as int) < ((c + 1) as int) * 0x10000);
            assert(((c + 1) as int) * 0x10000 <= ((r - v) as int) * 0x10000) by (nonlinear_arith)
                requires
                    (c + 1) as int <= (r - v) as int,
            ;
            if m0.cnt != 0x4000 {
                lemma_p2_pos(16 - m0.cnt);
                lemma_word_multiple((r - u) as int, 16 - m0.cnt);
                lemma_word_multiple((r - v) as int, 16 - m0.cnt);
                lemma_mod_diff_zero(dif as int, ((r - u) as int) * 0x10000, p2(16 - m0.cnt));
                if (dif as int) < ((r - v) as int) * 0x10000 {
                    lemma_mod_gap(dif as int, ((r - v) as int) * 0x10000, p2(16 - m0.cnt));
                }
            }
        }
        let t32: u32 = (r - u) * 0x10000;
        self.od_ec_dec_normalize(dif - t32, u - v);
        s
    }

    /// Whether decoding has needed any bit past the declared end of the
    /// input.  Reading a little past the end is legitimate — the encoder's
    /// final flush omits implied trailing bits — so the caller judges.
    pub fn od_ec_dec_overread(&self) -> (r: bool)
        ensures
            r == self@.overread,
    {
        self.overread
    }
}

/// The caller-facing decoder.
pub struct Reader {
    dec: od_ec_dec,
}

impl View for Reader {
    type V = DecM;

    closed spec fn view(&self) -> DecM {
        self.dec@
    }
}

impl Reader {
    /// A decoder over a finished byte stream; the length is the one the
    /// encoder's `done` reported, conveyed out of band.
    pub fn new(data: &[u8]) -> (r: Reader)
        ensures
            r@ == spec_dec_init(data@),
            dec_inv(r@),
    {
        let mut buf: Vec<u8> = Vec::new();
        let mut i: usize = 0;
        while i < data.len()
            invariant
                i <= data@.len(),
                buf@ == data@.subrange(0, i as int),
            decreases data@.len() - i,
        {
            buf.push(data[i]);
            proof {
                assert(buf@ =~= data@.subrange(0, i + 1));
            }
            i = i + 1;
        }
        proof {
            assert(buf@ =~= data@);
        }
        let mut dec = od_ec_dec { buf, bptr: 0, dif: 0, rng: 0x8000, cnt: -15, overread: false };
        proof {
            lemma_p2_vals();
            lemma_p2_pos(31);
            lemma_small_mod(0nat, p2(31) as nat);
            assert(dec@ =~= DecM {
                buf: data@,
                bptr: 0,
                dif: 0,
                rng: 0x8000,
                cnt: -15,
                overread: false,
            });
        }
        dec.od_ec_dec_refill();
        Reader { dec }
    }

    /// Decode one binary value with probability `f / 32768` of truth.
    pub fn bool(&mut self, f: u16) -> (ret: bool)
        requires
            dec_inv(old(self)@),
            0 < f < 32768,
        ensures
            final(self)@ == spec_decode_bool(old(self)@, f as int).0,
            ret == spec_decode_bool(old(self)@, f as int).1,
            dec_inv(final(self)@),
    {
        self.dec.od_ec_decode_bool_q15(f)
    }

    /// Decode one symbol against a caller-owned inverted CDF table, without
    /// adapting it.  As in the encoder, the table carries one cell past its
    /// terminal 0, so the symbol count is one less than the slice length.
    pub fn cdf(&mut self, icdf: &[u16]) -> (ret: usize)
        requires
            dec_inv(old(self)@),
            2 <= icdf@.len(),
            icdf@[icdf@.len() - 2] == 0,
            forall|i: int| 0 <= i < icdf@.len() - 1 ==> icdf@[i] <= 32768,
        ensures
            final(self)@ == spec_decode_cdf(old(self)@, icdf@, icdf@.len() - 1).0,
            ret == spec_decode_cdf(old(self)@, icdf@, icdf@.len() - 1).1,
            ret < icdf@.len() - 1,
            dec_inv(final(self)@),
    {
        let n: usize = icdf.len() - 1;
        self.dec.od_ec_decode_cdf_q15(icdf, n)
    }

    /// Decode one symbol against an adaptive table of `nsymbs` entries plus
    /// a trailing usage counter, then adapt the table in place with the
    /// update the encoder also runs.
    pub fn symbol(&mut self, cdf: &mut Vec<u16>, nsymbs: usize) -> (ret: usize)
        requires
            dec_inv(old(self)@),
            valid_icdf_n(old(cdf)@, nsymbs as int),
            nsymbs + 1 <= old(cdf)@.len(),
            nsymbs <= 16,
        ensures
            final(self)@ == spec_decode_cdf(old(self)@, old(cdf)@, nsymbs as int).0,
            ret == spec_decode_cdf(old(self)@, old(cdf)@, nsymbs as int).1,
            ret < nsymbs,
            dec_inv(final(self)@),
            final(cdf)@ == spec_update_cdf(old(cdf)@, ret as int, nsymbs as int),
            valid_icdf_n(final(cdf)@, nsymbs as int),
            final(cdf)@.len() == old(cdf)@.len(),
    {
        let s: usize = self.dec.od_ec_decode_cdf_q15(cdf.as_slice(), nsymbs);
        update_cdf(cdf, s as u32, nsymbs);
        proof {
            lemma_update_cdf_valid(old(cdf)@, s as int, nsymbs as int);
        }
        s
    }

    /// Whether decoding has read past the declared end of the input.
    pub fn overread(&self) -> (r: bool)
        ensures
            r == self@.overread,
    {
        self.dec.od_ec_dec_overread()
    }
}

} // verus!
