//! The bmant7 pattern as a cell ⟨m|n⟩ on its sheet.
//!
//! pattern = sheet(1) | exp(8) | mant(7). Normals carry the implicit 1: sig = 128|mant;
//! subnormals sig = mant. m = the odd part of sig (0 for zero), n = (exp − 134) + tz for
//! normals and (1 − 134) + tz for subnormals, tz the number of trailing zeros of sig, so
//! value = ±m·2^n. Both names of zero (±0) are kept as (sheet, 0, 0).

use vstd::arithmetic::power2::*;
use vstd::bits::*;
use vstd::prelude::*;

verus! {

/// Number of finite bmant7 patterns: 65,536 − 256 (exp == 255).
pub const FINITE: usize = 65_280;

/// The sheet (sign bit) of a pattern.
pub open spec fn sheet_of(p: u16) -> int {
    p as int / 32768
}

/// The 8-bit exponent field of a pattern.
pub open spec fn exp_field(p: u16) -> int {
    (p as int / 128) % 256
}

/// The 7-bit mantissa field of a pattern.
pub open spec fn mant_field(p: u16) -> int {
    p as int % 128
}

/// A pattern is finite when its exponent field is not all ones.
pub open spec fn finite(p: u16) -> bool {
    exp_field(p) != 255
}

/// The integer significand: the implicit leading one is present for normals.
pub open spec fn significand(p: u16) -> int {
    if exp_field(p) != 0 {
        mant_field(p) + 128
    } else {
        mant_field(p)
    }
}

/// The rung of the significand's last bit: |value| = significand · 2^base_rung.
pub open spec fn base_rung(p: u16) -> int {
    if exp_field(p) != 0 {
        exp_field(p) - 134
    } else {
        -133
    }
}

/// (s, m, n) names the value of pattern `p`: s is its sheet, and m·2^n is its magnitude
/// with m odd (or m = n = 0 for the two zeros).
pub open spec fn is_cell_of(p: u16, s: int, m: int, n: int) -> bool {
    &&& s == sheet_of(p)
    &&& significand(p) == 0 ==> m == 0 && n == 0
    &&& significand(p) != 0 ==> {
        &&& m % 2 == 1
        &&& n >= base_rung(p)
        &&& m * pow2((n - base_rung(p)) as nat) == significand(p)
    }
}

pub proof fn lemma_fields(p: u16)
    ensures
        p >> 15 == sheet_of(p),
        (p >> 7) & 0xFF == exp_field(p),
        p & 0x7F == mant_field(p),
        0 <= sheet_of(p) <= 1,
        0 <= exp_field(p) < 256,
        0 <= mant_field(p) < 128,
        p == sheet_of(p) * 32768 + exp_field(p) * 128 + mant_field(p),
{
    assert(p >> 15 == p / 32768) by (bit_vector);
    assert((p >> 7) & 0xFF == (p / 128) % 256) by (bit_vector);
    assert(p & 0x7F == p % 128) by (bit_vector);
}

pub fn is_finite(p: u16) -> (r: bool)
    ensures
        r == finite(p),
{
    proof {
        lemma_fields(p);
    }
    ((p >> 7) & 0xFF) != 0xFF
}

/// The number of factors of two in x (0 for x = 0).
pub open spec fn twos(x: nat) -> nat
    decreases x,
{
    if x == 0 || x % 2 == 1 {
        0
    } else {
        1 + twos(x / 2)
    }
}

/// The odd part of x (0 for x = 0).
pub open spec fn odd_core(x: nat) -> nat
    decreases x,
{
    if x == 0 || x % 2 == 1 {
        x
    } else {
        odd_core(x / 2)
    }
}

pub proof fn lemma_odd_core(x: nat)
    requires
        x > 0,
    ensures
        odd_core(x) % 2 == 1,
        odd_core(x) * pow2(twos(x)) == x,
        odd_core(x) <= x,
    decreases x,
{
    reveal(pow2);
    if x % 2 == 0 {
        lemma_odd_core(x / 2);
        lemma_pow2_pos(twos(x / 2));
        lemma_pow2_unfold(twos(x));
        assert(odd_core(x / 2) * pow2(twos(x / 2)) * 2 == odd_core(x) * pow2(twos(x)))
            by (nonlinear_arith)
            requires
                odd_core(x) == odd_core(x / 2),
                twos(x) == twos(x / 2) + 1,
                pow2(twos(x)) == 2 * pow2(twos(x / 2)),
        ;
        assert((x / 2) * 2 == x);
        assert(odd_core(x / 2) * pow2(twos(x / 2)) == x / 2);
        assert(odd_core(x) * pow2(twos(x)) == x);
        assert(odd_core(x) % 2 == 1);
        assert(odd_core(x) <= x);
    } else {
        lemma2_to64();
        assert(pow2(twos(x)) == 1);
    }
}

/// The core of a pattern's cell: the odd part of its significand.
pub open spec fn cell_m(p: u16) -> int {
    odd_core(significand(p) as nat) as int
}

/// The rung of a pattern's cell (0 for the two zeros).
pub open spec fn cell_n(p: u16) -> int {
    if significand(p) == 0 {
        0
    } else {
        base_rung(p) + twos(significand(p) as nat)
    }
}

/// A cell's core is a byte and its rung lies in [−133, 128].
pub proof fn lemma_cell_bounds(p: u16)
    ensures
        0 <= cell_m(p) < 256,
        -133 <= cell_n(p) <= 128,
        significand(p) != 0 ==> cell_m(p) % 2 == 1,
{
    lemma_fields(p);
    let sig = significand(p);
    if sig != 0 {
        lemma_odd_core(sig as nat);
        lemma2_to64();
        let t = twos(sig as nat);
        if t >= 8 {
            if t > 8 {
                lemma_pow2_strictly_increases(8, t);
            }
            assert(odd_core(sig as nat) * pow2(t) >= pow2(t)) by (nonlinear_arith)
                requires odd_core(sig as nat) >= 1;
        }
        if exp_field(p) == 0 && t >= 7 {
            if t > 7 {
                lemma_pow2_strictly_increases(7, t);
            }
            assert(odd_core(sig as nat) * pow2(t) >= pow2(t)) by (nonlinear_arith)
                requires odd_core(sig as nat) >= 1;
        }
    }
}

/// The odd part of a nonzero significand and the number of trailing zeros stripped.
fn odd_part(sig: u32) -> (r: (u32, u32))
    requires
        0 < sig < 256,
    ensures
        r.0 == odd_core(sig as nat),
        r.1 == twos(sig as nat),
        r.1 < 8,
{
    let mut m = sig;
    let mut tz: u32 = 0;
    proof {
        lemma_odd_core(sig as nat);
        lemma2_to64();
        if twos(sig as nat) >= 8 {
            if twos(sig as nat) > 8 {
                lemma_pow2_strictly_increases(8, twos(sig as nat));
            }
            assert(odd_core(sig as nat) * pow2(twos(sig as nat)) >= pow2(twos(sig as nat)))
                by (nonlinear_arith)
                requires odd_core(sig as nat) >= 1;
        }
    }
    while m % 2 == 0
        invariant
            0 < m <= sig < 256,
            odd_core(m as nat) == odd_core(sig as nat),
            tz + twos(m as nat) == twos(sig as nat),
            twos(sig as nat) < 8,
        decreases m,
    {
        m = m / 2;
        tz = tz + 1;
    }
    (m, tz)
}

/// pattern → (sheet, odd core m, rung n). Meaningful for finite patterns.
pub fn decompose(p: u16) -> (r: (u8, u8, i16))
    ensures
        r.0 == sheet_of(p),
        r.1 == cell_m(p),
        r.2 == cell_n(p),
        is_cell_of(p, r.0 as int, r.1 as int, r.2 as int),
{
    proof {
        lemma_fields(p);
    }
    let sheet = (p >> 15) as u8;
    let exp = ((p >> 7) & 0xFF) as i32;
    let mant = (p & 0x7F) as i32;
    let (sig, base) = if exp != 0 {
        (mant + 0x80, exp - 127 - 7)
    } else {
        (mant, 1 - 127 - 7)
    };
    if sig == 0 {
        return (sheet, 0, 0);
    }
    let (m, tz) = odd_part(sig as u32);
    proof {
        lemma_odd_core(sig as nat);
    }
    (sheet, m as u8, (base + tz as i32) as i16)
}

/// ⌊log₂ x⌋ for x ≥ 1 (and 0 below).
pub open spec fn log2(x: nat) -> nat
    decreases x,
{
    if x < 2 {
        0
    } else {
        1 + log2(x / 2)
    }
}

pub proof fn lemma_log2_bounds(x: nat)
    requires
        x >= 1,
    ensures
        pow2(log2(x)) <= x < pow2(log2(x) + 1),
    decreases x,
{
    reveal(pow2);
    lemma_pow2_unfold(log2(x) + 1);
    if x >= 2 {
        lemma_log2_bounds(x / 2);
        lemma_pow2_unfold(log2(x));
    } else {
        lemma2_to64();
    }
}

/// The top bit is unique: pow2(h) ≤ x < pow2(h+1) pins h = log2(x).
pub proof fn lemma_log2_unique(x: nat, h: nat)
    requires
        pow2(h) <= x < pow2(h + 1),
    ensures
        log2(x) == h,
    decreases h,
{
    lemma_pow2_pos(h);
    lemma_pow2_unfold(h + 1);
    if h == 0 {
        lemma2_to64();
    } else {
        lemma_pow2_unfold(h);
        lemma_log2_unique(x / 2, (h - 1) as nat);
    }
}

/// Scaling by a power of two moves the top bit by the same amount.
pub proof fn lemma_log2_scale(m: nat, t: nat)
    requires
        m >= 1,
    ensures
        log2(m * pow2(t)) == log2(m) + t,
{
    lemma_log2_bounds(m);
    let h = log2(m);
    lemma_pow2_adds(h, t);
    lemma_pow2_adds(h + 1, t);
    lemma_pow2_pos(t);
    assert(pow2(h) * pow2(t) <= m * pow2(t)) by (nonlinear_arith)
        requires pow2(h) <= m, pow2(t) > 0;
    assert(m * pow2(t) < pow2(h + 1) * pow2(t)) by (nonlinear_arith)
        requires m < pow2(h + 1), pow2(t) > 0;
    lemma_log2_unique(m * pow2(t), h + t);
}

/// ⌊log₂ m⌋ of a nonzero core, and −1 for zero (as `7 − leading_zeros`).
fn hibit(m: u8) -> (h: i32)
    ensures
        m == 0 ==> h == -1,
        m != 0 ==> h == log2(m as nat) && 0 <= h <= 7,
{
    if m == 0 {
        return -1;
    }
    let mut x = m;
    let mut h: i32 = 0;
    proof {
        lemma2_to64();
        assert(x * pow2(h as nat) == x * 1);
    }
    while x >= 2
        invariant
            1 <= x <= m,
            0 <= h <= 7,
            h + log2(x as nat) == log2(m as nat),
            x * pow2(h as nat) <= m,
        decreases x,
    {
        proof {
            lemma_pow2_unfold((h + 1) as nat);
            assert((x / 2) * pow2((h + 1) as nat) <= x * pow2(h as nat)) by (nonlinear_arith)
                requires pow2((h + 1) as nat) == 2 * pow2(h as nat);
            if h + 1 > 7 {
                lemma2_to64();
                assert((x / 2) * pow2((h + 1) as nat) >= pow2((h + 1) as nat)) by (nonlinear_arith)
                    requires x / 2 >= 1;
            }
        }
        x = x / 2;
        h = h + 1;
    }
    h
}

/// The pattern that writes the cell (s, m, n): the core is normalized to an 8-bit
/// significand `sig` in [128, 256); at or above the normal floor the exponent field holds
/// the binade, below it the significand is shifted into the subnormal mantissa.
pub open spec fn pattern_of(s: int, m: int, n: int) -> int {
    if m == 0 {
        s * 32768
    } else {
        let h = log2(m as nat);
        let sig = m * pow2((7 - h) as nat);
        let exp = n - (7 - h) + 134;
        if exp >= 1 {
            s * 32768 + exp * 128 + (sig - 128)
        } else {
            s * 32768 + sig / (pow2(if 1 - exp < 8 { (1 - exp) as nat } else { 8 }) as int)
        }
    }
}

/// (sheet, m, n) → pattern, for a cell whose binade fits bmant7 (top rung ≤ 127).
/// Normal results carry the exponent field; results under the normal floor are shifted
/// into the subnormal mantissa.
pub fn recompose(sheet: u8, m: u8, n: i16) -> (r: u16)
    requires
        sheet <= 1,
        m != 0 ==> n + log2(m as nat) <= 127,
    ensures
        r == pattern_of(sheet as int, m as int, n as int),
{
    let s16 = sheet as u16;
    assert(s16 << 15 == s16 * 32768) by (bit_vector)
        requires s16 <= 1;
    if m == 0 {
        return s16 << 15;
    }
    let hb = hibit(m);
    proof {
        lemma_log2_bounds(m as nat);
        lemma2_to64();
        lemma_pow2_adds(hb as nat, (7 - hb) as nat);
        lemma_pow2_pos((7 - hb) as nat);
        assert(pow2(hb as nat) * pow2((7 - hb) as nat) <= (m as nat) * pow2((7 - hb) as nat))
            by (nonlinear_arith) requires pow2(hb as nat) <= m;
        assert((m as nat) * pow2((7 - hb) as nat) < pow2((hb + 1) as nat) * pow2((7 - hb) as nat))
            by (nonlinear_arith) requires m < pow2((hb + 1) as nat), pow2((7 - hb) as nat) > 0;
        lemma_pow2_adds((hb + 1) as nat, (7 - hb) as nat);
        assert(pow2(7) * pow2(1) == pow2(8)) by { lemma_pow2_adds(7, 1); }
        lemma_u32_shl_is_mul(m as u32, (7 - hb) as u32);
    }
    let sig: u32 = (m as u32) << ((7 - hb) as u32);
    assert(128 <= sig < 256);
    let rung_sig = n as i32 - (7 - hb);
    let exp = rung_sig + 7 + 127;
    if exp >= 1 {
        let e16 = exp as u16;
        let mant7 = (sig & 0x7F) as u16;
        assert(sig & 0x7F == sig - 128) by (bit_vector)
            requires 128 <= sig < 256;
        assert((s16 << 15) | (e16 << 7) | mant7 == s16 * 32768 + e16 * 128 + mant7) by (bit_vector)
            requires s16 <= 1, e16 < 256, mant7 < 128;
        (s16 << 15) | (e16 << 7) | mant7
    } else {
        let shift: u32 = if 1 - exp < 8 { (1 - exp) as u32 } else { 8 };
        proof {
            lemma_u32_shr_is_div(sig, shift);
        }
        let low = (sig >> shift) as u16;
        assert((s16 << 15) | low == s16 * 32768 + low) by (bit_vector)
            requires s16 <= 1, low < 256;
        (s16 << 15) | low
    }
}

/// The binade of a cell: ⌊log₂ |value|⌋ = n + ⌊log₂ m⌋. Meaningless for m = 0 (n − 1).
pub fn binade(m: u8, n: i16) -> (b: i16)
    requires
        m != 0 ==> n + log2(m as nat) <= i16::MAX,
        m == 0 ==> n > i16::MIN,
    ensures
        m != 0 ==> b == n + log2(m as nat),
        m == 0 ==> b == n - 1,
{
    let h = hibit(m);
    (n as i32 + h) as i16
}

/// Every finite pattern goes through its cell and back unchanged: `recompose ∘ decompose`
/// is the identity on the 65,280 finite patterns, and the cell meets `recompose`'s domain.
pub proof fn lemma_round_trip(p: u16, s: int, m: int, n: int)
    requires
        finite(p),
        is_cell_of(p, s, m, n),
        0 <= m < 256,
    ensures
        s <= 1,
        m != 0 ==> n + log2(m as nat) <= 127,
        pattern_of(s, m, n) == p,
{
    lemma_fields(p);
    lemma2_to64();
    if m != 0 {
        let t = (n - base_rung(p)) as nat;
        let sig = significand(p);
        lemma_log2_scale(m as nat, t);
        lemma_log2_bounds(m as nat);
        let h = log2(m as nat);
        if exp_field(p) != 0 {
            lemma_log2_unique(sig as nat, 7);
            assert(h + t == 7);
            assert(m * pow2((7 - h) as nat) == sig);
        } else {
            let hs = log2(sig as nat);
            lemma_log2_bounds(sig as nat);
            if hs >= 7 {
                lemma_pow2_strictly_increases(7, hs);
            }
            assert(hs <= 6);
            assert(h + t == hs);
            let k = (7 - hs) as nat;
            assert(m * pow2((7 - h) as nat) == sig * pow2(k)) by {
                lemma_pow2_adds(t, k);
                assert((7 - h) as nat == t + k);
                assert(m * (pow2(t) * pow2(k)) == (m * pow2(t)) * pow2(k)) by (nonlinear_arith);
            }
            lemma_pow2_pos(k);
            assert((sig * pow2(k)) / (pow2(k) as int) == sig) by (nonlinear_arith)
                requires pow2(k) > 0;
        }
    }
}

/// How many patterns below `q` are finite: all but the two all-ones exponent blocks.
pub open spec fn finite_below(q: int) -> int {
    let lo = if q <= 0x7F80 { 0 } else if q >= 0x8000 { 128 } else { q - 0x7F80 };
    let hi = if q <= 0xFF80 { 0 } else { q - 0xFF80 };
    q - lo - hi
}

/// Gate 2: every finite pattern round-trips. Returns (checked, exact); both are `FINITE`.
pub fn census() -> (r: (usize, usize))
    ensures
        r.0 == FINITE,
        r.1 == FINITE,
{
    let mut checked: usize = 0;
    let mut exact: usize = 0;
    let mut q: u32 = 0;
    while q <= 0xFFFF
        invariant
            q <= 0x10000,
            checked == finite_below(q as int),
            exact == checked,
        decreases 0x10000 - q,
    {
        let p = q as u16;
        assert(((p >> 7) & 0xFF == 0xFF) == ((0x7F80 <= p && p < 0x8000) || p >= 0xFF80)) by (bit_vector);
        proof {
            lemma_fields(p);
        }
        if is_finite(p) {
            checked += 1;
            let (s, m, n) = decompose(p);
            proof {
                lemma_round_trip(p, s as int, m as int, n as int);
            }
            if recompose(s, m, n) == p {
                exact += 1;
            }
        }
        q += 1;
    }
    (checked, exact)
}

} // verus!
