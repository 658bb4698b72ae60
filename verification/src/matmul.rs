//! The bucket accumulate: `y[s,o] = Σ_i x[s,i] · W[o,i]` — exact.
//!
//! Every term is the exact product of two cells: signs xor, odd cores multiply (≤ 255·255,
//! 16 bits), rungs add. The bucket is one 256-bit integer per output cell at a fixed scale
//! 2^-F; a term enters by a shift and an add, and there is no truncation anywhere before the
//! single collapse to bf16 at the gather (round-to-nearest-even, sticky for the bits below
//! the significand). The one declared floor is on the activation: a pattern with rung below
//! −ACT_FLOOR is dropped with sticky. Above the lane's top a term is refused, never wrapped.

use vstd::arithmetic::div_mod::*;
use vstd::arithmetic::mul::*;
use vstd::arithmetic::power2::*;
use vstd::bits::*;
use vstd::math::abs;
use vstd::prelude::*;

use crate::cells::{
    cell_m, cell_n, decompose, finite, is_finite, lemma_cell_bounds, lemma_log2_bounds, lemma_log2_unique,
    log2, sheet_of,
};
use crate::surfaces::{Atoms, Grid};
use crate::lanes::{
    lemma_i128_as_u128, lemma_pair_range, lemma_pow2_128, lemma_pow2_256, lemma_shl_exact, lemma_shl_mod,
    lemma_shl_split, lemma_u128_as_i128, lemma_wrap_add, lemma_wrap_congruent, lemma_wrap_range,
    lemma_wrap_small, lemma_wrap_sub, mag_val, rne_up, lemma_mag_div_low, lemma_mag_div_high,
    lemma_window, lemma_round_bits, lemma_wrap_add_right, lemma_wrap_unique, p128, p255, p256, wrap256, in_lane, lemma_wrap_in_lane,
};

verus! {

/// Activations below 2^-ACT_FLOOR are dropped (sticky). The same floor in every kernel.
pub const ACT_FLOOR: i32 = 90;

/// Fractional bits for activation × activation products (both operands ≥ 2^-ACT_FLOOR).
pub const FRAC_DENSE: i32 = 180;

/// Fractional bits for a weight tensor with lowest rung `rmin`: every term is exact.
pub fn frac_for(rmin: i32) -> (f: i32)
    requires
        rmin > i32::MIN + ACT_FLOOR,
    ensures
        f == ACT_FLOOR - rmin,
{
    ACT_FLOOR - rmin
}

// ── 256-bit signed integer: value = hi·2^128 + lo ────────────────────────────

#[derive(Clone, Copy, Debug, PartialEq, Eq, Structural)]
pub struct Wide {
    pub hi: i128,
    pub lo: u128,
}

impl Wide {
    /// The integer the two words hold.
    pub open spec fn val(self) -> int {
        self.hi * p128() + self.lo
    }

    pub fn zero() -> (w: Wide)
        ensures
            w.val() == 0,
    {
        Wide { hi: 0, lo: 0 }
    }

    pub fn from_i128(v: i128) -> (w: Wide)
        ensures
            w.val() == v,
    {
        proof {
            lemma_i128_as_u128(v);
        }
        Wide { hi: if v < 0 { -1 } else { 0 }, lo: v as u128 }
    }

    pub fn add(&mut self, o: Wide)
        ensures
            final(self).val() == wrap256(old(self).val() + o.val()),
    {
        let lo = self.lo.wrapping_add(o.lo);
        let c = lo < self.lo;
        let hi1 = self.hi.wrapping_add(o.hi);
        let hi = hi1.wrapping_add(if c { 1 } else { 0 });
        proof {
            let ci: int = if c { 1 } else { 0 };
            let k1: int = if self.hi + o.hi > i128::MAX { 1 } else if self.hi + o.hi < i128::MIN { -1 } else { 0 };
            let k2: int = if hi1 + ci > i128::MAX { 1 } else { 0 };
            assert(lo == self.lo + o.lo - ci * p128());
            assert(hi1 == self.hi + o.hi - k1 * p128());
            assert(hi == hi1 + ci - k2 * p128());
            lemma_pair_range(hi, lo);
            assert(hi * p128() + lo == (self.val() + o.val()) + (-k1 - k2) * p256())
                by (nonlinear_arith)
                requires
                    lo == self.lo + o.lo - ci * p128(),
                    hi1 == self.hi + o.hi - k1 * p128(),
                    hi == hi1 + ci - k2 * p128(),
                    self.val() == self.hi * p128() + self.lo,
                    o.val() == o.hi * p128() + o.lo,
                    p256() == p128() * p128(),
            ;
            lemma_wrap_unique(hi * p128() + lo, self.val() + o.val(), -k1 - k2);
        }
        self.lo = lo;
        self.hi = hi;
    }

    pub fn sub(&mut self, o: Wide)
        ensures
            final(self).val() == wrap256(old(self).val() - o.val()),
    {
        let lo = self.lo.wrapping_sub(o.lo);
        let b = lo > self.lo;
        let hi1 = self.hi.wrapping_sub(o.hi);
        let hi = hi1.wrapping_sub(if b { 1 } else { 0 });
        proof {
            let bi: int = if b { 1 } else { 0 };
            let k1: int = if self.hi - o.hi > i128::MAX { 1 } else if self.hi - o.hi < i128::MIN { -1 } else { 0 };
            let k2: int = if hi1 - bi < i128::MIN { -1 } else { 0 };
            assert(lo == self.lo - o.lo + bi * p128());
            assert(hi1 == self.hi - o.hi - k1 * p128());
            assert(hi == hi1 - bi - k2 * p128());
            lemma_pair_range(hi, lo);
            assert(hi * p128() + lo == (self.val() - o.val()) + (-k1 - k2) * p256())
                by (nonlinear_arith)
                requires
                    lo == self.lo - o.lo + bi * p128(),
                    hi1 == self.hi - o.hi - k1 * p128(),
                    hi == hi1 - bi - k2 * p128(),
                    self.val() == self.hi * p128() + self.lo,
                    o.val() == o.hi * p128() + o.lo,
                    p256() == p128() * p128(),
            ;
            lemma_wrap_unique(hi * p128() + lo, self.val() - o.val(), -k1 - k2);
        }
        self.lo = lo;
        self.hi = hi;
    }

    /// Left shift by k < 256: multiplication by 2^k in the 256-bit lane.
    pub fn shl(self, k: u32) -> (r: Wide)
        requires
            k < 256,
        ensures
            r.val() == wrap256(self.val() * pow2(k as nat)),
    {
        proof {
            lemma_pair_range(self.hi, self.lo);
            lemma_i128_as_u128(self.hi);
        }
        if k == 0 {
            proof {
                lemma2_to64();
                assert(pow2(k as nat) == 1);
                lemma_wrap_small(self.val());
            }
            self
        } else if k < 128 {
            let hu = self.hi as u128;
            let kk = k as u128;
            let top = self.lo >> (128 - kk);
            let y = hu << kk;
            proof {
                lemma_shl_split(hu, kk);
                lemma_shl_split(self.lo, kk);
                lemma_pow2_128();
                lemma_pow2_strictly_increases(k as nat, 128);
                lemma_shl_exact(1u128, kk);
                assert((1u128 << kk) as int == pow2(k as nat));
                assert((hu << kk) | top == (hu << kk) + top) by (bit_vector)
                    requires 0 < kk < 128, top < (1u128 << kk);
            }
            let nh = y | top;
            let r = Wide { hi: nh as i128, lo: self.lo << kk };
            proof {
                lemma_u128_as_i128(nh);
                let sh: int = if self.hi < 0 { 1 } else { 0 };
                let sn: int = if nh > i128::MAX { 1 } else { 0 };
                let a_hi = (hu >> ((128 - kk) as u128)) as int;
                let p2k = pow2(k as nat) as int;
                lemma_pair_range(r.hi, r.lo);
                assert(r.val() == self.val() * p2k + (sh * p2k - a_hi - sn) * p256())
                    by (nonlinear_arith)
                    requires
                        hu as int == self.hi + sh * p128(),
                        hu as int * p2k == a_hi * p128() + y as int,
                        self.lo as int * p2k == top as int * p128() + (self.lo << kk) as int,
                        nh as int == y as int + top as int,
                        r.hi as int == nh as int - sn * p128(),
                        r.lo == self.lo << kk,
                        r.val() == r.hi * p128() + r.lo,
                        self.val() == self.hi * p128() + self.lo,
                        p256() == p128() * p128(),
                ;
                lemma_wrap_unique(r.val(), self.val() * p2k, sh * p2k - a_hi - sn);
            }
            r
        } else {
            let j = (k - 128) as u128;
            assert(j < 128);
            let y = self.lo << j;
            let r = Wide { hi: y as i128, lo: 0 };
            proof {
                lemma_u128_as_i128(y);
                lemma_pow2_128();
                lemma_pow2_adds(j as nat, 128);
                let p2j = pow2(j as nat) as int;
                let a: int = if j == 0 { 0 } else { (self.lo >> ((128 - j) as u128)) as int };
                if j == 0 {
                    let l = self.lo;
                    assert(l << 0u128 == l) by (bit_vector);
                    lemma2_to64();
                } else {
                    lemma_shl_split(self.lo, j);
                }
                assert(self.lo as int * p2j == a * p128() + y as int);
                let sn: int = if y > i128::MAX { 1 } else { 0 };
                let p2k = pow2(k as nat) as int;
                assert(p2k == p2j * p128());
                lemma_pair_range(r.hi, r.lo);
                assert(r.val() == self.val() * p2k + (-self.hi * p2j - a - sn) * p256())
                    by (nonlinear_arith)
                    requires
                        self.lo as int * p2j == a * p128() + y as int,
                        r.hi as int == y as int - sn * p128(),
                        r.val() == r.hi * p128(),
                        self.val() == self.hi * p128() + self.lo,
                        p2k == p2j * p128(),
                        p256() == p128() * p128(),
                ;
                lemma_wrap_unique(r.val(), self.val() * p2k, -self.hi * p2j - a - sn);
            }
            r
        }
    }

    pub fn is_zero(&self) -> (b: bool)
        ensures
            b == (self.val() == 0),
    {
        proof {
            assert(self.val() == 0 ==> self.hi == 0) by (nonlinear_arith)
                requires
                    self.val() == self.hi * p128() + self.lo,
                    0 <= self.lo < p128(),
            ;
        }
        self.hi == 0 && self.lo == 0
    }

    pub fn is_neg(&self) -> (b: bool)
        ensures
            b == (self.val() < 0),
    {
        proof {
            assert((self.val() < 0) == (self.hi < 0)) by (nonlinear_arith)
                requires
                    self.val() == self.hi * p128() + self.lo,
                    0 <= self.lo < p128(),
            ;
        }
        self.hi < 0
    }

    pub fn neg(self) -> (r: Wide)
        ensures
            r.val() == wrap256(-self.val()),
    {
        let mut z = Wide::zero();
        z.sub(self);
        z
    }

    /// Magnitude as (hi, lo) unsigned: hi·2^128 + lo = |value|.
    pub fn mag(self) -> (r: (u128, u128))
        ensures
            r.0 * p128() + r.1 == abs(self.val()),
    {
        let m = if self.is_neg() { self.neg() } else { self };
        proof {
            lemma_pair_range(self.hi, self.lo);
            lemma_pair_range(m.hi, m.lo);
            lemma_i128_as_u128(m.hi);
            if self.val() < 0 {
                if self.val() > -p255() {
                    lemma_wrap_small(-self.val());
                    assert(m.hi >= 0) by (nonlinear_arith)
                        requires m.val() == m.hi * p128() + m.lo, m.val() >= 0, 0 <= m.lo < p128();
                } else {
                    lemma_wrap_unique(-p255(), -self.val(), -1);
                    assert(m.hi == i128::MIN) by (nonlinear_arith)
                        requires
                            m.val() == m.hi * p128() + m.lo,
                            m.val() == -p255(),
                            0 <= m.lo < p128(),
                            p255() == 0x8000_0000_0000_0000_0000_0000_0000_0000 * p128(),
                    ;
                }
            } else {
                assert(m.hi >= 0) by (nonlinear_arith)
                    requires m.val() == m.hi * p128() + m.lo, m.val() >= 0, 0 <= m.lo < p128();
            }
        }
        (m.hi as u128, m.lo)
    }
}


/// ⌊log₂ x⌋ of a nonzero word.
fn top_bit128(x: u128) -> (h: i32)
    requires
        x > 0,
    ensures
        h == log2(x as nat),
        0 <= h < 128,
{
    let mut v = x;
    let mut h: i32 = 0;
    proof {
        lemma_log2_bounds(x as nat);
        lemma_pow2_128();
        if log2(x as nat) >= 128 {
            if log2(x as nat) > 128 {
                lemma_pow2_strictly_increases(128, log2(x as nat));
            }
        }
    }
    while v > 1
        invariant
            v >= 1,
            h >= 0,
            h + log2(v as nat) == log2(x as nat),
            log2(x as nat) < 128,
        decreases v,
    {
        proof {
            lemma_u128_shr_is_div(v, 1);
            lemma2_to64();
        }
        v = v >> 1;
        h = h + 1;
    }
    h
}

/// ⌊log₂⌋ of a nonzero 256-bit magnitude (hi, lo).
fn top_bit(hi: u128, lo: u128) -> (h: i32)
    requires
        hi != 0 || lo != 0,
    ensures
        h == log2(mag_val(hi, lo) as nat),
        0 <= h < 256,
{
    if hi != 0 {
        let t = top_bit128(hi);
        proof {
            lemma_log2_bounds(hi as nat);
            lemma_pow2_128();
            lemma_pow2_adds(t as nat, 128);
            lemma_pow2_adds((t + 1) as nat, 128);
            assert(pow2(t as nat) * p128() <= mag_val(hi, lo) < pow2((t + 1) as nat) * p128())
                by (nonlinear_arith)
                requires
                    pow2(t as nat) <= hi < pow2((t + 1) as nat),
                    0 <= lo < p128(),
                    mag_val(hi, lo) == hi * p128() + lo,
            ;
            lemma_log2_unique(mag_val(hi, lo) as nat, (t + 128) as nat);
        }
        128 + t
    } else {
        top_bit128(lo)
    }
}

/// 2^k as a word, k < 128.
fn pow2_word(k: u32) -> (r: u128)
    requires
        k < 128,
    ensures
        r == pow2(k as nat),
{
    proof {
        lemma_pow2_128();
        lemma_pow2_strictly_increases(k as nat, 128);
        lemma_shl_exact(1u128, k as u128);
    }
    1u128 << k
}

/// Bits [lo_bit, lo_bit + n) of the 256-bit magnitude as u32 (n ≤ 32).
fn bits(hi: u128, lo: u128, lo_bit: i32, n: u32) -> (r: u32)
    requires
        0 <= lo_bit < 256,
        1 <= n <= 32,
    ensures
        r == (mag_val(hi, lo) / (pow2(lo_bit as nat) as int)) % (pow2(n as nat) as int),
{
    let ghost b = lo_bit as nat;
    let ghost q = mag_val(hi, lo) / (pow2(b) as int);
    let pn = pow2_word(n);
    proof {
        lemma_pow2_pos(n as nat);
        lemma_pow2_128();
        lemma_pow2_strictly_increases(n as nat, 33);
        lemma2_to64();
    }
    let v: u128 = if lo_bit >= 128 {
        let s = (lo_bit - 128) as u128;
        proof {
            lemma_mag_div_high(hi, lo, b);
            lemma_u128_shr_is_div(hi, s);
        }
        let v = hi >> s;
        assert(v as int == q);
        v
    } else if lo_bit + n as i32 <= 128 {
        let s = lo_bit as u128;
        proof {
            lemma_mag_div_low(hi, lo, b);
            lemma_u128_shr_is_div(lo, s);
            let k = (128 - b - n) as nat;
            lemma_pow2_adds(k, n as nat);
            assert(hi * pow2((128 - b) as nat) == pow2(n as nat) * (hi * pow2(k)))
                by (nonlinear_arith)
                requires pow2((128 - b) as nat) == pow2(k) * pow2(n as nat);
            lemma_mod_multiples_vanish(hi * pow2(k), lo as int / (pow2(b) as int), pow2(n as nat) as int);
        }
        let v = lo >> s;
        assert(v as int % (pow2(n as nat) as int) == q % (pow2(n as nat) as int));
        v
    } else {
        let s = lo_bit as u128;
        let k = (128 - lo_bit) as u128;
        let t = lo >> s;
        proof {
            lemma_mag_div_low(hi, lo, b);
            lemma_u128_shr_is_div(lo, s);
            lemma_pow2_adds(b, k as nat);
            lemma_pow2_pos(b);
            let d = pow2(b) as int;
            assert(lo as int / d < pow2(k as nat)) by (nonlinear_arith)
                requires 0 <= lo < p128(), d * pow2(k as nat) == p128(), d > 0;
            lemma_pow2_strictly_increases(k as nat, 128);
            lemma_shl_exact(1u128, k);
            assert(t | (hi << k) == (hi << k) + t) by (bit_vector)
                requires 0 < k < 128, t < (1u128 << k);
            lemma_shl_mod(hi, k);
            lemma_pow2_adds(n as nat, (128 - n) as nat);
            let hk = hi * pow2(k as nat);
            // reducing hk mod 2^128 does not change anything mod 2^n, since 2^n divides 2^128
            lemma_fundamental_div_mod(hk, p128());
            let j = hk / p128();
            assert(hk + t == pow2(n as nat) * (j * pow2((128 - n) as nat)) + (hk % p128() + t))
                by (nonlinear_arith)
                requires
                    hk == p128() * j + hk % p128(),
                    p128() == pow2(n as nat) * pow2((128 - n) as nat),
            ;
            lemma_mod_multiples_vanish(j * pow2((128 - n) as nat), hk % p128() + t, pow2(n as nat) as int);
            assert(hk + t == q);
        }
        let v = t | (hi << k);
        assert(v as int % (pow2(n as nat) as int) == q % (pow2(n as nat) as int));
        v
    };
    proof {
        lemma_mod_bound(v as int, pn as int);
        assert(v as int % pn as int == q % (pow2(n as nat) as int));
    }
    (v % pn) as u32
}

/// True if any bit below `bit` of the magnitude is set.
#[verifier::spinoff_prover]
fn any_below(hi: u128, lo: u128, bit: i32) -> (r: bool)
    requires
        bit < 256,
    ensures
        r == (bit > 0 && mag_val(hi, lo) % (pow2(bit as nat) as int) != 0),
{
    proof {
        lemma_pow2_128();
    }
    if bit <= 0 {
        false
    } else if bit >= 128 {
        let dw = pow2_word((bit - 128) as u32);
        proof {
            lemma_pow2_adds(128, (bit - 128) as nat);
            lemma_pow2_pos((bit - 128) as nat);
            lemma_mod_breakdown(mag_val(hi, lo) as int, p128(), dw as int);
            lemma_mag_div_low(hi, lo, 128);
            lemma2_to64();
            assert(pow2(0) == 1);
            lemma_basic_div(lo as int, p128());
            lemma_mod_multiples_vanish(hi as int, lo as int, p128());
            lemma_small_mod(lo as nat, p128() as nat);
            lemma_mod_bound(hi as int, dw as int);
            assert(mag_val(hi, lo) % (pow2(bit as nat) as int) == p128() * (hi as int % dw as int) + lo);
            assert((p128() * (hi as int % dw as int) + lo == 0) == (lo == 0 && hi as int % dw as int == 0))
                by (nonlinear_arith)
                requires hi as int % dw as int >= 0, lo >= 0, p128() > 0;
        }
        lo != 0 || (hi % dw) != 0
    } else {
        let d = pow2_word(bit as u32);
        proof {
            let k = (128 - bit) as nat;
            lemma_pow2_adds(bit as nat, k);
            assert(mag_val(hi, lo) == (hi * pow2(k)) * d + lo) by (nonlinear_arith)
                requires
                    mag_val(hi, lo) == hi * p128() + lo,
                    pow2(bit as nat) * pow2(k) == p128(),
                    d == pow2(bit as nat),
            ;
            lemma_mod_multiples_vanish(hi * pow2(k), lo as int, d as int);
        }
        (lo % d) != 0
    }
}

// ── the collapse: exact integer → bf16, round to nearest even ────────────────

/// The 8-bit significand of a nonzero magnitude after rounding (256 when it carries out).
pub open spec fn rounded_sig(mag: int, sticky: bool) -> int {
    let hb = log2(mag as nat);
    if hb >= 8 {
        mag / (pow2((hb - 7) as nat) as int) + (if rne_up(mag, (hb - 7) as nat, sticky) {
            1int
        } else {
            0int
        })
    } else {
        mag * pow2((7 - hb) as nat)
    }
}

/// The biased bf16 exponent of v·2^-frac after rounding.
pub open spec fn collapse_exp(v: int, sticky: bool, frac: int) -> int {
    let mag = abs(v) as int;
    log2(mag as nat) - frac + 127 + (if rounded_sig(mag, sticky) == 256 {
        1int
    } else {
        0int
    })
}

/// The bf16 pattern of v·2^-frac, rounded to nearest even; values under bf16's normal
/// floor flush to a signed zero, and an exact zero is +0.
pub open spec fn collapse_spec(v: int, sticky: bool, frac: int) -> int {
    if v == 0 {
        0
    } else {
        let sign: int = if v < 0 { 32768 } else { 0 };
        let s = rounded_sig(abs(v) as int, sticky);
        let sig = if s == 256 { 128 } else { s };
        let exp = collapse_exp(v, sticky, frac);
        if exp < 1 {
            sign
        } else {
            sign + exp * 128 + (sig - 128)
        }
    }
}

/// The collapse of v·2^-frac does not overflow bf16's finite range.
pub open spec fn collapse_fits(v: int, sticky: bool, frac: int) -> bool {
    v != 0 ==> collapse_exp(v, sticky, frac) < 255
}

/// The exact bucket for one output cell at scale 2^-frac.
#[derive(Clone, Copy)]
pub struct Bucket {
    pub acc: Wide,
    pub sticky: bool,
    pub frac: i32,
}

impl Bucket {
    pub fn new(frac: i32) -> (b: Bucket)
        ensures
            b.acc.val() == 0,
            !b.sticky,
            b.frac == frac,
    {
        Bucket { acc: Wide::zero(), sticky: false, frac }
    }

    /// The single collapse: exact integer → bf16 pattern, round-to-nearest-even.
    pub fn collapse(&self) -> (r: u16)
        requires
            collapse_fits(self.acc.val(), self.sticky, self.frac as int),
        ensures
            r == collapse_spec(self.acc.val(), self.sticky, self.frac as int),
    {
        if self.acc.is_zero() {
            return 0;
        }
        let ghost v = self.acc.val();
        let sign: u16 = if self.acc.is_neg() { 0x8000 } else { 0 };
        let (hi, lo) = self.acc.mag();
        let ghost mag = abs(v) as int;
        assert(mag_val(hi, lo) == mag);
        let hb = top_bit(hi, lo);
        proof {
            lemma_log2_bounds(mag as nat);
        }
        let ghost hbn = hb as nat;
        let (mut sig, round, low_sticky) = if hb >= 8 {
            let sg = bits(hi, lo, hb - 7, 8);
            let rd = bits(hi, lo, hb - 8, 1);
            let lw = any_below(hi, lo, hb - 8);
            proof {
                lemma_window(mag, hbn, (hbn - 7) as nat);
                lemma2_to64();
                lemma_small_mod((mag / (pow2((hbn - 7) as nat) as int)) as nat, 256);
                lemma_round_bits(mag, (hbn - 7) as nat, self.sticky);
                assert(sg == mag / (pow2((hbn - 7) as nat) as int));
                if hb == 8 {
                    assert(!lw);
                    assert(mag % (pow2(0) as int) == 0);
                }
            }
            (sg, rd, lw)
        } else {
            proof {
                lemma_pow2_128();
                lemma2_to64();
                lemma_pow2_strictly_increases((hbn + 1) as nat, 128);
                assert(hi == 0) by (nonlinear_arith)
                    requires mag_val(hi, lo) == hi * p128() + lo, mag_val(hi, lo) < p128(), lo >= 0, hi >= 0;
                lemma_pow2_adds(hbn, (7 - hbn) as nat);
                lemma_pow2_adds((hbn + 1) as nat, (7 - hbn) as nat);
                lemma_pow2_pos((7 - hbn) as nat);
                assert(mag * pow2((7 - hbn) as nat) < 256) by (nonlinear_arith)
                    requires mag < pow2((hbn + 1) as nat), pow2((hbn + 1) as nat) * pow2((7 - hbn) as nat) == 256,
                        pow2((7 - hbn) as nat) > 0;
                assert(mag * pow2((7 - hbn) as nat) >= 128) by (nonlinear_arith)
                    requires mag >= pow2(hbn), pow2(hbn) * pow2((7 - hbn) as nat) == 128;
                lemma_shl_exact(lo, (7 - hb) as u128);
            }
            (((lo << ((7 - hb) as u128)) as u32), 0u32, false)
        };
        let ghost s0 = sig;
        assert(128 <= s0 < 256);
        let sticky = low_sticky || self.sticky;
        let mut exp = hb - self.frac + 127;
        assert(sig & 1 == sig % 2) by (bit_vector);
        if round == 1 && (sticky || (sig & 1) == 1) {
            sig += 1;
            if sig == 0x100 {
                assert(sig >> 1 == 128) by (bit_vector) requires sig == 0x100;
                sig >>= 1;
                exp += 1;
            }
        }
        proof {
            assert(0x100u32 >> 1 == 128) by (bit_vector);
            assert(rounded_sig(mag, self.sticky) == s0 + (if round == 1 && (sticky || s0 % 2 == 1) { 1int } else { 0int }));
            assert(exp == collapse_exp(v, self.sticky, self.frac as int));
        }
        assert(exp < 0xFF);
        assert(sig == (if rounded_sig(mag, self.sticky) == 256 { 128 } else { rounded_sig(mag, self.sticky) }));
        if exp < 1 {
            return sign;
        }
        let e16 = exp as u16;
        let m7 = (sig & 0x7F) as u16;
        assert(sig & 0x7F == sig - 128) by (bit_vector)
            requires 128 <= sig < 256;
        assert(sign | (e16 << 7) | m7 == sign + e16 * 128 + m7) by (bit_vector)
            requires sign == 0 || sign == 0x8000, e16 < 255, m7 < 128;
        sign | (e16 << 7) | m7
    }
}

/// The signed value of one exact product term at scale 2^-frac: cores multiply, rungs add,
/// sheets differ → negative. A zero core contributes nothing.
pub open spec fn term(sx: int, mx: int, nx: int, sw: int, mw: int, nw: int, frac: int) -> int {
    if mx == 0 || mw == 0 {
        0
    } else {
        let t = mx * mw * pow2((nx + nw + frac) as nat);
        if sx != sw {
            -t
        } else {
            t
        }
    }
}

/// The lane accepts the term: its scale is at or above the bucket's floor and under the top.
pub open spec fn term_fits(mx: int, nx: int, mw: int, nw: int, frac: int) -> bool {
    (mx != 0 && mw != 0) ==> 0 <= nx + nw + frac <= 236
}

impl Bucket {
    /// Add the exact product (sx, mx, nx)·(sw, mw, nw). Both operands already above the floor.
    pub fn add(&mut self, sx: u8, mx: u32, nx: i32, sw: u8, mw: u32, nw: i32)
        requires
            mx * mw <= u32::MAX,
            (mx != 0 && mw != 0) ==> i32::MIN <= nx + nw <= i32::MAX,
            term_fits(mx as int, nx as int, mw as int, nw as int, old(self).frac as int),
        ensures
            final(self).acc.val() == wrap256(
                old(self).acc.val() + term(sx as int, mx as int, nx as int, sw as int, mw as int, nw as int, old(self).frac as int),
            ),
            final(self).sticky == old(self).sticky,
            final(self).frac == old(self).frac,
    {
        if mx == 0 || mw == 0 {
            proof {
                lemma_wrap_small(self.acc.val());
                lemma_pair_range(self.acc.hi, self.acc.lo);
            }
            return;
        }
        let sh = nx + nw + self.frac;
        let t = Wide::from_i128((mx * mw) as i128).shl(sh as u32);
        assert((sx ^ sw) != 0 <==> sx != sw) by (bit_vector);
        if (sx ^ sw) != 0 {
            self.acc.sub(t);
            proof {
                lemma_wrap_sub(old(self).acc.val(), (mx * mw) * pow2(sh as nat));
            }
        } else {
            self.acc.add(t);
            proof {
                lemma_wrap_add_right(old(self).acc.val(), (mx * mw) * pow2(sh as nat));
            }
        }
    }

    /// Add a term whose odd product was selected: `prod` = m_x·m_w, `nsum` = n_x + n_w.
    pub fn add_product(&mut self, sign: u8, prod: u32, nsum: i32)
        requires
            0 <= nsum + old(self).frac <= 236,
        ensures
            sign != 0 ==> final(self).acc.val() == wrap256(
                old(self).acc.val() - prod * pow2((nsum + old(self).frac) as nat),
            ),
            sign == 0 ==> final(self).acc.val() == wrap256(
                old(self).acc.val() + prod * pow2((nsum + old(self).frac) as nat),
            ),
            final(self).sticky == old(self).sticky,
            final(self).frac == old(self).frac,
    {
        let sh = nsum + self.frac;
        let term = Wide::from_i128(prod as i128).shl(sh as u32);
        if sign != 0 {
            self.acc.sub(term);
            proof {
                lemma_wrap_sub(old(self).acc.val(), prod * pow2(sh as nat));
            }
        } else {
            self.acc.add(term);
            proof {
                lemma_wrap_add_right(old(self).acc.val(), prod * pow2(sh as nat));
            }
        }
    }

    /// Add an already-scaled wide value (the radix chain's lane total), same scale.
    pub fn add_wide(&mut self, w: Wide)
        ensures
            final(self).acc.val() == wrap256(old(self).acc.val() + w.val()),
            final(self).sticky == old(self).sticky,
            final(self).frac == old(self).frac,
    {
        self.acc.add(w);
    }
}

// ── activations ──────────────────────────────────────────────────────────────

/// An activation under the floor: a nonzero core whose rung is below −ACT_FLOOR.
pub open spec fn dropped(p: u16) -> bool {
    cell_m(p) != 0 && cell_n(p) < -90
}

/// The core an activation enters the bucket with (0 when dropped under the floor).
pub open spec fn act_m(p: u16) -> int {
    if dropped(p) {
        0
    } else {
        cell_m(p)
    }
}

/// The rung an activation enters the bucket with (0 when dropped under the floor).
pub open spec fn act_n(p: u16) -> int {
    if dropped(p) {
        0
    } else {
        cell_n(p)
    }
}

/// Some activation of the row was dropped under the floor.
pub open spec fn row_sticky(x: Seq<u16>) -> bool {
    exists|i: int| 0 <= i < x.len() && dropped(#[trigger] x[i])
}

/// One activation row, decomposed once; activations under the floor dropped (sticky).
pub struct XRow {
    pub sheet: Vec<u8>,
    pub m: Vec<u32>,
    pub n: Vec<i32>,
    pub sticky: bool,
}

impl XRow {
    /// The row holds the bucket's view of the patterns `x`.
    pub open spec fn reads(&self, x: Seq<u16>) -> bool {
        &&& self.sheet.len() == x.len()
        &&& self.m.len() == x.len()
        &&& self.n.len() == x.len()
        &&& forall|i: int|
            0 <= i < x.len() ==> {
                &&& #[trigger] self.sheet[i] == sheet_of(x[i])
                &&& self.m[i] == act_m(x[i])
                &&& self.n[i] == act_n(x[i])
            }
        &&& self.sticky == row_sticky(x)
    }

    pub fn new(x: &[u16]) -> (r: XRow)
        requires
            forall|i: int| 0 <= i < x.len() ==> finite(#[trigger] x[i]),
        ensures
            r.reads(x@),
    {
        let mut r = XRow { sheet: Vec::new(), m: Vec::new(), n: Vec::new(), sticky: false };
        let mut i: usize = 0;
        while i < x.len()
            invariant
                0 <= i <= x.len(),
                r.sheet.len() == i,
                r.m.len() == i,
                r.n.len() == i,
                forall|j: int|
                    0 <= j < i ==> {
                        &&& #[trigger] r.sheet[j] == sheet_of(x[j])
                        &&& r.m[j] == act_m(x[j])
                        &&& r.n[j] == act_n(x[j])
                    },
                r.sticky == exists|j: int| 0 <= j < i && dropped(#[trigger] x@[j]),
            decreases x.len() - i,
        {
            let p = x[i];
            let (s, m, n) = decompose(p);
            if m != 0 && (n as i32) < -ACT_FLOOR {
                r.sticky = true;
                r.sheet.push(s);
                r.m.push(0);
                r.n.push(0);
            } else {
                r.sheet.push(s);
                r.m.push(m as u32);
                r.n.push(n as i32);
            }
            i += 1;
        }
        r
    }
}

// ── matmul over dense pattern rows ───────────────────────────────────────────

/// Σ_{i<k} of the exact terms of activation row x against row w at scale 2^-frac.
pub open spec fn dot(x: Seq<u16>, w: Seq<u16>, k: int, frac: int) -> int
    decreases k,
{
    if k <= 0 {
        0
    } else {
        dot(x, w, k - 1, frac) + term(
            sheet_of(x[k - 1]),
            act_m(x[k - 1]),
            act_n(x[k - 1]),
            sheet_of(w[k - 1]),
            act_m(w[k - 1]),
            act_n(w[k - 1]),
            frac,
        )
    }
}

/// Every term of the two rows fits the lane.
pub open spec fn dot_fits(x: Seq<u16>, w: Seq<u16>, frac: int) -> bool {
    forall|i: int|
        0 <= i < x.len() ==> term_fits(act_m(#[trigger] x[i]), act_n(x[i]), act_m(w[i]), act_n(w[i]), frac)
}

/// Row r of a row-major matrix with `cols` columns.
pub open spec fn row(x: Seq<u16>, r: int, cols: int) -> Seq<u16> {
    x.subrange(r * cols, (r + 1) * cols)
}

/// The pattern one output cell collapses to: the exact dot product of the two rows, rounded
/// once.
pub open spec fn cell_out(x: Seq<u16>, w: Seq<u16>, frac: int) -> int {
    collapse_spec(dot(x, w, x.len() as int, frac), row_sticky(x) || row_sticky(w), frac)
}

/// The cell can be computed: every term fits the lane, the exact sum fits the 256-bit lane
/// (so nothing wraps), and the result fits bf16.
pub open spec fn cell_ok(x: Seq<u16>, w: Seq<u16>, frac: int) -> bool {
    &&& x.len() == w.len()
    &&& dot_fits(x, w, frac)
    &&& in_lane(dot(x, w, x.len() as int, frac))
    &&& collapse_fits(dot(x, w, x.len() as int, frac), row_sticky(x) || row_sticky(w), frac)
}

proof fn lemma_act_bounds(p: u16)
    ensures
        0 <= act_m(p) < 256,
        -133 <= act_n(p) <= 128,
{
    lemma_cell_bounds(p);
}

/// One output cell: the bucket over two decomposed rows, one collapse.
fn dot_cell(a: &XRow, c: &XRow, frac: i32, Ghost(x): Ghost<Seq<u16>>, Ghost(w): Ghost<Seq<u16>>) -> (r: u16)
    requires
        a.reads(x),
        c.reads(w),
        -0x2000_0000 < frac < 0x2000_0000,
        cell_ok(x, w, frac as int),
    ensures
        r == cell_out(x, w, frac as int),
{
    let mut b = Bucket::new(frac);
    b.sticky = a.sticky || c.sticky;
    let len = a.m.len();
    proof {
        lemma_wrap_small(0);
    }
    let mut i: usize = 0;
    while i < len
        invariant
            0 <= i <= len,
            len == x.len(),
            a.reads(x),
            c.reads(w),
            cell_ok(x, w, frac as int),
            b.frac == frac,
            -0x2000_0000 < frac < 0x2000_0000,
            b.sticky == (row_sticky(x) || row_sticky(w)),
            b.acc.val() == wrap256(dot(x, w, i as int, frac as int)),
        decreases len - i,
    {
        proof {
            lemma_act_bounds(x[i as int]);
            lemma_act_bounds(w[i as int]);
            assert(term_fits(act_m(x[i as int]), act_n(x[i as int]), act_m(w[i as int]), act_n(w[i as int]), frac as int));
            assert(a.sheet[i as int] == sheet_of(x[i as int]));
            assert(c.sheet[i as int] == sheet_of(w[i as int]));
            assert(a.m[i as int] * c.m[i as int] <= 255 * 255) by (nonlinear_arith)
                requires 0 <= a.m[i as int] < 256, 0 <= c.m[i as int] < 256;
        }
        b.add(a.sheet[i], a.m[i], a.n[i], c.sheet[i], c.m[i], c.n[i]);
        proof {
            lemma_wrap_add(
                dot(x, w, i as int, frac as int),
                term(
                    sheet_of(x[i as int]),
                    act_m(x[i as int]),
                    act_n(x[i as int]),
                    sheet_of(w[i as int]),
                    act_m(w[i as int]),
                    act_n(w[i as int]),
                    frac as int,
                ),
            );
        }
        i += 1;
    }
    proof {
        lemma_wrap_in_lane(dot(x, w, len as int, frac as int));
    }
    b.collapse()
}

pub proof fn lemma_row_bounds(r: int, n: int, cols: int)
    requires
        0 <= r < n,
        cols >= 0,
    ensures
        0 <= r * cols,
        r * cols + cols == (r + 1) * cols,
        (r + 1) * cols <= n * cols,
{
    assert(0 <= r * cols) by (nonlinear_arith) requires r >= 0, cols >= 0;
    assert((r + 1) * cols <= n * cols) by (nonlinear_arith) requires r + 1 <= n, cols >= 0;
    assert(r * cols + cols == (r + 1) * cols) by (nonlinear_arith);
}

pub proof fn lemma_flat_index(s2: int, o2: int, s: int, cols: int)
    requires
        0 <= s2 < s,
        0 <= o2 < cols,
    ensures
        0 <= s2 * cols + o2 < s * cols,
{
    assert(0 <= s2 * cols + o2 < s * cols) by (nonlinear_arith)
        requires 0 <= s2 < s, 0 <= o2 < cols;
}

/// Decompose every row of a row-major pattern matrix.
fn rows_of(x: &[u16], rows: usize, cols: usize) -> (r: Vec<XRow>)
    requires
        x.len() == rows * cols,
        forall|i: int| 0 <= i < x.len() ==> finite(#[trigger] x[i]),
    ensures
        r.len() == rows,
        forall|s: int| 0 <= s < rows ==> (#[trigger] r[s]).reads(row(x@, s, cols as int)),
{
    let mut out: Vec<XRow> = Vec::new();
    let mut s: usize = 0;
    while s < rows
        invariant
            0 <= s <= rows,
            x.len() == rows * cols,
            forall|i: int| 0 <= i < x.len() ==> finite(#[trigger] x[i]),
            out.len() == s,
            forall|t: int| 0 <= t < s ==> (#[trigger] out[t]).reads(row(x@, t, cols as int)),
        decreases rows - s,
    {
        proof {
            lemma_row_bounds(s as int, rows as int, cols as int);
        }
        let xr = XRow::new(&x[s * cols..(s + 1) * cols]);
        out.push(xr);
        s += 1;
    }
    out
}

/// `y = x · Wᵀ` with both operands dense pattern matrices (activation × activation, e.g. Q·Kᵀ).
pub fn matmul_dense(x: &[u16], w: &[u16], seq: usize, in_f: usize, out_f: usize) -> (y: Vec<u16>)
    requires
        x.len() == seq * in_f,
        w.len() == out_f * in_f,
        seq * out_f <= usize::MAX,
        forall|i: int| 0 <= i < x.len() ==> finite(#[trigger] x[i]),
        forall|i: int| 0 <= i < w.len() ==> finite(#[trigger] w[i]),
        forall|s: int, o: int|
            0 <= s < seq && 0 <= o < out_f ==> cell_ok(
                #[trigger] row(x@, s, in_f as int),
                #[trigger] row(w@, o, in_f as int),
                FRAC_DENSE as int,
            ),
    ensures
        y.len() == seq * out_f,
        forall|s: int, o: int|
            0 <= s < seq && 0 <= o < out_f ==> y[s * out_f + o] == cell_out(
                #[trigger] row(x@, s, in_f as int),
                #[trigger] row(w@, o, in_f as int),
                FRAC_DENSE as int,
            ),
{
    let xs = rows_of(x, seq, in_f);
    let ws = rows_of(w, out_f, in_f);
    let mut y: Vec<u16> = Vec::new();
    let mut s: usize = 0;
    while s < seq
        invariant
            0 <= s <= seq,
            xs.len() == seq,
            ws.len() == out_f,
            seq * out_f <= usize::MAX,
            forall|t: int| 0 <= t < seq ==> (#[trigger] xs[t]).reads(row(x@, t, in_f as int)),
            forall|t: int| 0 <= t < out_f ==> (#[trigger] ws[t]).reads(row(w@, t, in_f as int)),
            forall|s2: int, o: int|
                0 <= s2 < seq && 0 <= o < out_f ==> cell_ok(
                    #[trigger] row(x@, s2, in_f as int),
                    #[trigger] row(w@, o, in_f as int),
                    FRAC_DENSE as int,
                ),
            y.len() == s * out_f,
            forall|s2: int, o: int|
                0 <= s2 < s && 0 <= o < out_f ==> y[s2 * out_f + o] == cell_out(
                    #[trigger] row(x@, s2, in_f as int),
                    #[trigger] row(w@, o, in_f as int),
                    FRAC_DENSE as int,
                ),
        decreases seq - s,
    {
        let mut o: usize = 0;
        proof {
            lemma_row_bounds(s as int, seq as int, out_f as int);
        }
        while o < out_f
            invariant
                0 <= s < seq,
                0 <= o <= out_f,
                xs.len() == seq,
                ws.len() == out_f,
                seq * out_f <= usize::MAX,
                (s + 1) * out_f <= seq * out_f,
                s * out_f + out_f == (s + 1) * out_f,
                forall|t: int| 0 <= t < seq ==> (#[trigger] xs[t]).reads(row(x@, t, in_f as int)),
                forall|t: int| 0 <= t < out_f ==> (#[trigger] ws[t]).reads(row(w@, t, in_f as int)),
                forall|s2: int, o2: int|
                    0 <= s2 < seq && 0 <= o2 < out_f ==> cell_ok(
                        #[trigger] row(x@, s2, in_f as int),
                        #[trigger] row(w@, o2, in_f as int),
                        FRAC_DENSE as int,
                    ),
                y.len() == s * out_f + o,
                forall|s2: int, o2: int|
                    0 <= s2 < s && 0 <= o2 < out_f ==> y[s2 * out_f + o2] == cell_out(
                        #[trigger] row(x@, s2, in_f as int),
                        #[trigger] row(w@, o2, in_f as int),
                        FRAC_DENSE as int,
                    ),
                forall|o2: int|
                    0 <= o2 < o ==> y[s * out_f + o2] == cell_out(
                        row(x@, s as int, in_f as int),
                        #[trigger] row(w@, o2, in_f as int),
                        FRAC_DENSE as int,
                    ),
            decreases out_f - o,
        {
            let v = dot_cell(
                &xs[s],
                &ws[o],
                FRAC_DENSE,
                Ghost(row(x@, s as int, in_f as int)),
                Ghost(row(w@, o as int, in_f as int)),
            );
            let ghost y0 = y@;
            y.push(v);
            proof {
                assert forall|s2: int, o2: int|
                    0 <= s2 < s && 0 <= o2 < out_f implies y[s2 * out_f + o2] == cell_out(
                        #[trigger] row(x@, s2, in_f as int),
                        #[trigger] row(w@, o2, in_f as int),
                        FRAC_DENSE as int,
                    ) by {
                    lemma_flat_index(s2, o2, s as int, out_f as int);
                    assert(y[s2 * out_f + o2] == y0[s2 * out_f + o2]);
                }
            }
            o += 1;
        }
        proof {
            assert forall|s2: int, o2: int|
                0 <= s2 < s + 1 && 0 <= o2 < out_f implies y[s2 * out_f + o2] == cell_out(
                    #[trigger] row(x@, s2, in_f as int),
                    #[trigger] row(w@, o2, in_f as int),
                    FRAC_DENSE as int,
                ) by {
                if s2 < s {
                } else {
                    assert(s2 == s);
                }
            }
        }
        s += 1;
    }
    y
}

// ── elementwise add ──────────────────────────────────────────────────────────

/// A single activation as a bucket term at scale 2^-ACT_FLOOR (its value times 2^90).
pub open spec fn act_term(p: u16) -> int {
    term(sheet_of(p), act_m(p), act_n(p), 0, 1, 0, 90)
}

/// The pattern of the exact sum p + q, rounded once.
pub open spec fn add_out(p: u16, q: u16) -> int {
    collapse_spec(act_term(p) + act_term(q), dropped(p) || dropped(q), 90)
}

proof fn lemma_act_term_small(p: u16)
    ensures
        -0x100_0000_0000_0000_0000_0000_0000_0000_0000_0000_0000_0000_0000_0000_0000_0000int <= act_term(p)
            <= 0x100_0000_0000_0000_0000_0000_0000_0000_0000_0000_0000_0000_0000_0000_0000_0000int,
{
    lemma_act_bounds(p);
    if act_m(p) != 0 {
        let sh = (act_n(p) + 90) as nat;
        lemma_pow2_256();
        if sh < 240 {
            lemma_pow2_strictly_increases(sh, 240);
        }
        lemma_pow2_adds(240, 8);
        lemma_pow2_adds(248, 8);
        lemma2_to64();
        assert(256 * pow2(240) == 0x100_0000_0000_0000_0000_0000_0000_0000_0000_0000_0000_0000_0000_0000_0000_0000int)
            by (nonlinear_arith)
            requires
                pow2(248) == pow2(240) * 256,
                pow2(256) == pow2(248) * 256,
                pow2(256) == 0x1_0000_0000_0000_0000_0000_0000_0000_0000_0000_0000_0000_0000_0000_0000_0000_0000int,
        ;
        assert(act_m(p) * 1 * pow2(sh) <= 256 * pow2(240)) by (nonlinear_arith)
            requires 0 <= act_m(p) < 256, pow2(sh) <= pow2(240), pow2(sh) >= 0;
    }
}

/// Elementwise bf16 add of two pattern vectors through the bucket (exact sum, one collapse).
pub fn add(a: &[u16], b: &[u16]) -> (r: Vec<u16>)
    requires
        a.len() == b.len(),
        forall|i: int|
            0 <= i < a.len() ==> collapse_fits(
                act_term(#[trigger] a[i]) + act_term(b[i]),
                dropped(a[i]) || dropped(b[i]),
                90,
            ),
    ensures
        r.len() == a.len(),
        forall|i: int| 0 <= i < a.len() ==> r[i] == add_out(#[trigger] a[i], b[i]),
{
    let mut out: Vec<u16> = Vec::new();
    let mut i: usize = 0;
    while i < a.len()
        invariant
            0 <= i <= a.len(),
            a.len() == b.len(),
            out.len() == i,
            forall|j: int|
                0 <= j < a.len() ==> collapse_fits(
                    act_term(#[trigger] a[j]) + act_term(b[j]),
                    dropped(a[j]) || dropped(b[j]),
                    90,
                ),
            forall|j: int| 0 <= j < i ==> out[j] == add_out(#[trigger] a[j], b[j]),
        decreases a.len() - i,
    {
        let p = a[i];
        let q = b[i];
        let (sp, mp, np) = decompose(p);
        let (sq, mq, nq) = decompose(q);
        proof {
            lemma_cell_bounds(p);
            lemma_cell_bounds(q);
            lemma_act_term_small(p);
            lemma_act_term_small(q);
            lemma_wrap_small(0);
        }
        let mut k = Bucket::new(ACT_FLOOR);
        if mp != 0 && (np as i32) < -ACT_FLOOR {
            k.sticky = true;
        } else {
            k.add(sp, mp as u32, np as i32, 0, 1, 0);
        }
        proof {
            lemma_wrap_small(act_term(p));
        }
        if mq != 0 && (nq as i32) < -ACT_FLOOR {
            k.sticky = true;
        } else {
            k.add(sq, mq as u32, nq as i32, 0, 1, 0);
        }
        proof {
            lemma_wrap_small(act_term(p) + act_term(q));
        }
        let v = k.collapse();
        out.push(v);
        i += 1;
    }
    out
}


// ── matmul against a tiled weight grid ──────────────────────────────────────

/// The weight patterns of output row `o` of a grid, read through the dictionary.
pub open spec fn grid_row(w: Grid, atoms: Atoms, o: int) -> Seq<u16> {
    Seq::new(w.cols as nat, |i: int| atoms.pattern[w.at(o, i) as int])
}

/// Σ_{i<k} of the exact terms of activation row x against weight patterns p at scale 2^-frac.
/// Weights enter whole; only the activation side has a floor.
pub open spec fn wdot(x: Seq<u16>, p: Seq<u16>, k: int, frac: int) -> int
    decreases k,
{
    if k <= 0 {
        0
    } else {
        wdot(x, p, k - 1, frac) + term(
            sheet_of(x[k - 1]),
            act_m(x[k - 1]),
            act_n(x[k - 1]),
            sheet_of(p[k - 1]),
            cell_m(p[k - 1]),
            cell_n(p[k - 1]),
            frac,
        )
    }
}

/// Every term of the activation row against the weight patterns fits the lane, the exact sum
/// fits the 256-bit lane (so nothing wraps), and it fits bf16.
pub open spec fn wcell_ok(x: Seq<u16>, p: Seq<u16>, frac: int) -> bool {
    &&& x.len() == p.len()
    &&& forall|i: int|
        0 <= i < x.len() ==> term_fits(act_m(#[trigger] x[i]), act_n(x[i]), cell_m(p[i]), cell_n(p[i]), frac)
    &&& in_lane(wdot(x, p, x.len() as int, frac))
    &&& collapse_fits(wdot(x, p, x.len() as int, frac), row_sticky(x), frac)
}

/// The pattern one output cell of an activation × weight product collapses to: the exact sum,
/// rounded once.
pub open spec fn wcell_out(x: Seq<u16>, p: Seq<u16>, frac: int) -> int {
    collapse_spec(wdot(x, p, x.len() as int, frac), row_sticky(x), frac)
}

/// The grid addresses the dictionary: every id it holds names an atom.
pub open spec fn ids_in(w: Grid, atoms: Atoms) -> bool {
    forall|k: int| 0 <= k < w.ids.len() ==> (#[trigger] w.ids[k] as int) < atoms.pattern.len()
}

pub proof fn lemma_at_in(w: Grid, atoms: Atoms, r: int, c: int)
    requires
        w.wf(),
        ids_in(w, atoms),
        0 <= r < w.rows,
        0 <= c < w.cols,
    ensures
        0 <= w.offset(r, c) < w.ids.len(),
        (w.at(r, c) as int) < atoms.pattern.len(),
{
    let th = w.th as int;
    let tw = w.tw as int;
    let tr_ = w.place.tile_rows as int;
    let tcs = w.place.tile_cols as int;
    let tr = r / th;
    let tc = c / tw;
    assert(0 <= tr < tr_) by (nonlinear_arith)
        requires 0 <= r < w.rows, w.rows == tr_ * th, th > 0, tr == r / th;
    assert(0 <= tc < tcs) by (nonlinear_arith)
        requires 0 <= c < w.cols, w.cols == tcs * tw, tw > 0, tc == c / tw;
    assert(0 <= tr * tcs + tc < tr_ * tcs) by (nonlinear_arith)
        requires 0 <= tr < tr_, 0 <= tc < tcs;
    let t = w.place.rank[tr * tcs + tc] as int;
    assert(t < tr_ * tcs);
    let ln = r % th;
    let cn = c % tw;
    assert(0 <= w.offset(r, c) < w.ids.len()) by (nonlinear_arith)
        requires
            w.offset(r, c) == t * th * tw + ln * tw + cn,
            0 <= t < tr_ * tcs,
            0 <= ln < th,
            0 <= cn < tw,
            w.ids.len() == w.rows * w.cols,
            w.rows == tr_ * th,
            w.cols == tcs * tw,
    ;
}

/// One output cell against grid row `o`: the activation row's bucket walks the tile
/// columns' lines in order.
fn grid_cell(xr: &XRow, w: &Grid, atoms: &Atoms, o: usize, frac: i32, Ghost(x): Ghost<Seq<u16>>) -> (r: u16)
    requires
        xr.reads(x),
        w.wf(),
        atoms.wf(),
        ids_in(*w, *atoms),
        o < w.rows,
        x.len() == w.cols,
        -0x2000_0000 < frac < 0x2000_0000,
        wcell_ok(x, grid_row(*w, *atoms, o as int), frac as int),
    ensures
        r == wcell_out(x, grid_row(*w, *atoms, o as int), frac as int),
{
    let ghost p = grid_row(*w, *atoms, o as int);
    let mut b = Bucket::new(frac);
    b.sticky = xr.sticky;
    let tcs = w.tile_cols();
    let tw = w.tw;
    proof {
        lemma_wrap_small(0);
        assert(tcs == w.place.tile_cols) by (nonlinear_arith)
            requires tcs == w.cols / w.tw, w.cols == w.place.tile_cols * w.tw, w.tw > 0;
    }
    let mut tc: usize = 0;
    while tc < tcs
        invariant
            0 <= tc <= tcs,
            tcs == w.place.tile_cols,
            tw == w.tw,
            xr.reads(x),
            w.wf(),
            atoms.wf(),
            ids_in(*w, *atoms),
            o < w.rows,
            x.len() == w.cols,
            p == grid_row(*w, *atoms, o as int),
            -0x2000_0000 < frac < 0x2000_0000,
            wcell_ok(x, p, frac as int),
            b.frac == frac,
            b.sticky == row_sticky(x),
            b.acc.val() == wrap256(wdot(x, p, tc * tw, frac as int)),
        decreases tcs - tc,
    {
        let line = w.line(o, tc);
        proof {
            assert(tc * tw + tw <= w.cols) by (nonlinear_arith)
                requires tc < tcs, w.cols == tcs * tw;
        }
        let base = tc * tw;
        let mut j: usize = 0;
        while j < tw
            invariant
                0 <= j <= tw,
                tc < tcs,
                tcs == w.place.tile_cols,
                tw == w.tw,
                base == tc * tw,
                base + tw <= w.cols,
                line.len() == tw,
                forall|k: int| 0 <= k < tw ==> #[trigger] line[k] == w.at(o as int, tc * tw + k),
                xr.reads(x),
                w.wf(),
                atoms.wf(),
                ids_in(*w, *atoms),
                o < w.rows,
                x.len() == w.cols,
                p == grid_row(*w, *atoms, o as int),
                -0x2000_0000 < frac < 0x2000_0000,
                wcell_ok(x, p, frac as int),
                b.frac == frac,
                b.sticky == row_sticky(x),
                b.acc.val() == wrap256(wdot(x, p, base + j, frac as int)),
            decreases tw - j,
        {
            let id = line[j] as usize;
            let i = base + j;
            proof {
                lemma_at_in(*w, *atoms, o as int, i as int);
                assert(p[i as int] == atoms.pattern[id as int]);
                lemma_act_bounds(x[i as int]);
                lemma_cell_bounds(p[i as int]);
                assert(term_fits(act_m(x[i as int]), act_n(x[i as int]), cell_m(p[i as int]), cell_n(p[i as int]), frac as int));
                assert(xr.sheet[i as int] == sheet_of(x[i as int]));
                assert(atoms.sheet[id as int] == sheet_of(atoms.pattern[id as int]));
                assert(xr.m[i as int] * (atoms.m[id as int] as u32) <= 255 * 255) by (nonlinear_arith)
                    requires 0 <= xr.m[i as int] < 256, 0 <= atoms.m[id as int] < 256;
            }
            b.add(xr.sheet[i], xr.m[i], xr.n[i], atoms.sheet[id], atoms.m[id] as u32, atoms.n[id] as i32);
            proof {
                lemma_wrap_add(
                    wdot(x, p, i as int, frac as int),
                    term(
                        sheet_of(x[i as int]),
                        act_m(x[i as int]),
                        act_n(x[i as int]),
                        sheet_of(p[i as int]),
                        cell_m(p[i as int]),
                        cell_n(p[i as int]),
                        frac as int,
                    ),
                );
            }
            j += 1;
        }
        proof {
            assert(base + tw == (tc + 1) * tw) by (nonlinear_arith)
                requires base == tc * tw;
        }
        tc += 1;
    }
    proof {
        assert(tcs * tw == x.len()) by (nonlinear_arith)
            requires tcs == w.place.tile_cols, tw == w.tw, x.len() == w.cols, w.cols == w.place.tile_cols * w.tw;
        lemma_wrap_in_lane(wdot(x, p, x.len() as int, frac as int));
    }
    b.collapse()
}

/// `y = x · Wᵀ`: activations `x` [seq, in_f] against the tiled weight grid `w` [out_f, in_f]
/// read through the dictionary `atoms`. Every cell is the exact sum, rounded once.
pub fn matmul_grid(x: &[u16], seq: usize, in_f: usize, w: &Grid, atoms: &Atoms) -> (y: Vec<u16>)
    requires
        x.len() == seq * in_f,
        w.cols == in_f,
        w.wf(),
        atoms.wf(),
        ids_in(*w, *atoms),
        seq * w.rows <= usize::MAX,
        -0x1000_0000 < w.rmin < 0x1000_0000,
        forall|i: int| 0 <= i < x.len() ==> finite(#[trigger] x[i]),
        forall|s: int, o: int|
            0 <= s < seq && 0 <= o < w.rows ==> wcell_ok(
                #[trigger] row(x@, s, in_f as int),
                #[trigger] grid_row(*w, *atoms, o),
                ACT_FLOOR - w.rmin,
            ),
    ensures
        y.len() == seq * w.rows,
        forall|s: int, o: int|
            0 <= s < seq && 0 <= o < w.rows ==> y[s * w.rows + o] == wcell_out(
                #[trigger] row(x@, s, in_f as int),
                #[trigger] grid_row(*w, *atoms, o),
                ACT_FLOOR - w.rmin,
            ),
{
    let out_f = w.rows;
    let frac = frac_for(w.rmin);
    let rows = rows_of(x, seq, in_f);
    let mut y: Vec<u16> = Vec::new();
    let mut s: usize = 0;
    while s < seq
        invariant
            0 <= s <= seq,
            out_f == w.rows,
            rows.len() == seq,
            x.len() == seq * in_f,
            w.cols == in_f,
            w.wf(),
            atoms.wf(),
            ids_in(*w, *atoms),
            seq * out_f <= usize::MAX,
            frac == ACT_FLOOR - w.rmin,
            -0x2000_0000 < frac < 0x2000_0000,
            forall|t: int| 0 <= t < seq ==> (#[trigger] rows[t]).reads(row(x@, t, in_f as int)),
            forall|s2: int, o: int|
                0 <= s2 < seq && 0 <= o < out_f ==> wcell_ok(
                    #[trigger] row(x@, s2, in_f as int),
                    #[trigger] grid_row(*w, *atoms, o),
                    frac as int,
                ),
            y.len() == s * out_f,
            forall|s2: int, o: int|
                0 <= s2 < s && 0 <= o < out_f ==> y[s2 * out_f + o] == wcell_out(
                    #[trigger] row(x@, s2, in_f as int),
                    #[trigger] grid_row(*w, *atoms, o),
                    frac as int,
                ),
        decreases seq - s,
    {
        proof {
            lemma_row_bounds(s as int, seq as int, out_f as int);
            lemma_row_bounds(s as int, seq as int, in_f as int);
        }
        let mut o: usize = 0;
        while o < out_f
            invariant
                0 <= s < seq,
                0 <= o <= out_f,
                out_f == w.rows,
                rows.len() == seq,
                x.len() == seq * in_f,
                w.cols == in_f,
                w.wf(),
                atoms.wf(),
                ids_in(*w, *atoms),
                seq * out_f <= usize::MAX,
                (s + 1) * out_f <= seq * out_f,
                s * out_f + out_f == (s + 1) * out_f,
                0 <= s * in_f,
                (s + 1) * in_f <= seq * in_f,
                s * in_f + in_f == (s + 1) * in_f,
                -0x2000_0000 < frac < 0x2000_0000,
                forall|t: int| 0 <= t < seq ==> (#[trigger] rows[t]).reads(row(x@, t, in_f as int)),
                forall|s2: int, o2: int|
                    0 <= s2 < seq && 0 <= o2 < out_f ==> wcell_ok(
                        #[trigger] row(x@, s2, in_f as int),
                        #[trigger] grid_row(*w, *atoms, o2),
                        frac as int,
                    ),
                y.len() == s * out_f + o,
                forall|s2: int, o2: int|
                    0 <= s2 < s && 0 <= o2 < out_f ==> y[s2 * out_f + o2] == wcell_out(
                        #[trigger] row(x@, s2, in_f as int),
                        #[trigger] grid_row(*w, *atoms, o2),
                        frac as int,
                    ),
                forall|o2: int|
                    0 <= o2 < o ==> y[s * out_f + o2] == wcell_out(
                        row(x@, s as int, in_f as int),
                        #[trigger] grid_row(*w, *atoms, o2),
                        frac as int,
                    ),
            decreases out_f - o,
        {
            proof {
                assert(row(x@, s as int, in_f as int).len() == in_f);
            }
            let v = grid_cell(&rows[s], w, atoms, o, frac, Ghost(row(x@, s as int, in_f as int)));
            let ghost y0 = y@;
            y.push(v);
            proof {
                assert forall|s2: int, o2: int|
                    0 <= s2 < s && 0 <= o2 < out_f implies y[s2 * out_f + o2] == wcell_out(
                        #[trigger] row(x@, s2, in_f as int),
                        #[trigger] grid_row(*w, *atoms, o2),
                        frac as int,
                    ) by {
                    lemma_flat_index(s2, o2, s as int, out_f as int);
                    assert(y[s2 * out_f + o2] == y0[s2 * out_f + o2]);
                }
            }
            o += 1;
        }
        proof {
            assert forall|s2: int, o2: int|
                0 <= s2 < s + 1 && 0 <= o2 < out_f implies y[s2 * out_f + o2] == wcell_out(
                    #[trigger] row(x@, s2, in_f as int),
                    #[trigger] grid_row(*w, *atoms, o2),
                    frac as int,
                ) by {
                if s2 < s {
                } else {
                    assert(s2 == s);
                }
            }
        }
        s += 1;
    }
    y
}


/// Adding a lane value and taking it away again gives back what was there: for any two
/// 256-bit values a and b, (a + b) − b is a, each step wrapped as the lane wraps.
pub proof fn lemma_wide_add_sub(a: Wide, b: Wide)
    ensures
        wrap256(wrap256(a.val() + b.val()) - b.val()) == a.val(),
{
    crate::lanes::lemma_wrap_add(a.val() + b.val(), -b.val());
    assert(a.val() + b.val() + (-b.val()) == a.val());
    crate::lanes::lemma_pair_range(a.hi, a.lo);
    crate::lanes::lemma_wrap_in_lane(a.val());
}
} // verus!
