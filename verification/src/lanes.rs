//! Facts about 128-bit words and the 256-bit two's-complement lane built from two of them.

use vstd::arithmetic::div_mod::*;
use vstd::arithmetic::mul::*;
use vstd::arithmetic::power2::*;
use vstd::bits::*;
use vstd::prelude::*;

verus! {

pub open spec fn p128() -> int {
    0x1_0000_0000_0000_0000_0000_0000_0000_0000int
}

pub open spec fn p255() -> int {
    0x8000_0000_0000_0000_0000_0000_0000_0000_0000_0000_0000_0000_0000_0000_0000_0000int
}

pub open spec fn p256() -> int {
    0x1_0000_0000_0000_0000_0000_0000_0000_0000_0000_0000_0000_0000_0000_0000_0000_0000int
}

/// The representative of x modulo 2^256 in [−2^255, 2^255): what a 256-bit
/// two's-complement register holds after computing x.
pub open spec fn wrap256(x: int) -> int {
    let r = x % p256();
    if r >= p255() {
        r - p256()
    } else {
        r
    }
}

/// x fits the 256-bit two's-complement lane.
pub open spec fn in_lane(x: int) -> bool {
    -p255() <= x < p255()
}

/// Within the lane nothing wraps: the lane holds x itself.
pub proof fn lemma_wrap_in_lane(x: int)
    requires
        in_lane(x),
    ensures
        wrap256(x) == x,
{
    lemma_wrap_unique(x, x, 0);
}

pub proof fn lemma_pow2_128()
    ensures
        pow2(128) == p128(),
{
    lemma2_to64();
    lemma2_to64_rest();
    lemma_pow2_adds(64, 64);
}

pub proof fn lemma_pow2_256()
    ensures
        pow2(256) == p256(),
        pow2(255) == p255(),
{
    lemma_pow2_128();
    lemma_pow2_adds(128, 128);
    lemma2_to64_rest();
    lemma_pow2_adds(127, 128);
    lemma_pow2_adds(63, 64);
    lemma2_to64();
}

/// A value in the lane's range congruent to x is x's wrapped representative.
pub proof fn lemma_wrap_unique(v: int, x: int, k: int)
    requires
        -p255() <= v < p255(),
        v == x + k * p256(),
    ensures
        v == wrap256(x),
{
    lemma_mod_multiples_vanish(k, x, p256());
    assert(x + k * p256() == k * p256() + x) by (nonlinear_arith);
    if v >= 0 {
        lemma_small_mod(v as nat, p256() as nat);
    } else {
        lemma_mod_multiples_vanish(1, v, p256());
        assert(p256() + v == 1 * p256() + v);
        lemma_small_mod((v + p256()) as nat, p256() as nat);
    }
}

/// Congruent inputs wrap to the same lane value.
pub proof fn lemma_wrap_congruent(x: int, k: int)
    ensures
        wrap256(x + k * p256()) == wrap256(x),
{
    lemma_mod_multiples_vanish(k, x, p256());
    assert(x + k * p256() == k * p256() + x) by (nonlinear_arith);
}

pub proof fn lemma_wrap_range(x: int) -> (k: int)
    ensures
        -p255() <= wrap256(x) < p255(),
        wrap256(x) == x + k * p256(),
{
    lemma_mod_bound(x, p256());
    lemma_fundamental_div_mod(x, p256());
    let q = x / p256();
    if x % p256() >= p255() {
        assert(wrap256(x) == x + (-q - 1) * p256()) by (nonlinear_arith)
            requires x == p256() * q + x % p256(), wrap256(x) == x % p256() - p256();
        -q - 1
    } else {
        assert(wrap256(x) == x + (-q) * p256()) by (nonlinear_arith)
            requires x == p256() * q + x % p256(), wrap256(x) == x % p256();
        -q
    }
}

/// Wrapping then adding, or adding then wrapping, gives the same lane value.
pub proof fn lemma_wrap_add(x: int, y: int)
    ensures
        wrap256(wrap256(x) + y) == wrap256(x + y),
{
    let k = lemma_wrap_range(x);
    assert(wrap256(x) + y == (x + y) + k * p256());
    lemma_wrap_congruent(x + y, k);
}

pub proof fn lemma_wrap_sub(x: int, y: int)
    ensures
        wrap256(x - wrap256(y)) == wrap256(x - y),
{
    let k = lemma_wrap_range(y);
    assert(x - wrap256(y) == (x - y) + (-k) * p256());
    lemma_wrap_congruent(x - y, -k);
}

pub proof fn lemma_wrap_add_right(x: int, y: int)
    ensures
        wrap256(x + wrap256(y)) == wrap256(x + y),
{
    let k = lemma_wrap_range(y);
    assert(x + wrap256(y) == (x + y) + k * p256());
    lemma_wrap_congruent(x + y, k);
}

pub proof fn lemma_wrap_small(x: int)
    requires
        -p255() <= x < p255(),
    ensures
        wrap256(x) == x,
{
    lemma_wrap_unique(x, x, 0);
}

proof fn lemma_shl1(y: u128)
    ensures
        (y << 1u128) as int == (y as int * 2) % p128(),
{
    assert(y < 0x8000_0000_0000_0000_0000_0000_0000_0000u128 ==> y << 1u128 == y * 2)
        by (bit_vector);
    assert(y >= 0x8000_0000_0000_0000_0000_0000_0000_0000u128 ==> (y << 1u128) == ((y
        - 0x8000_0000_0000_0000_0000_0000_0000_0000u128) * 2) as u128) by (bit_vector);
}

proof fn lemma_shl_step(x: u128, k: u128)
    by (bit_vector)
    requires
        k < 127,
    ensures
        (x << k) << 1u128 == x << ((k + 1) as u128),
{
}

/// Left shift of a 128-bit word is multiplication by 2^k modulo 2^128.
pub proof fn lemma_shl_mod(x: u128, k: u128)
    requires
        k < 128,
    ensures
        (x << k) as int == (x as int * pow2(k as nat)) % p128(),
    decreases k,
{
    if k == 0 {
        assert(x << 0u128 == x) by (bit_vector);
        lemma2_to64();
        lemma_small_mod(x as nat, p128() as nat);
    } else {
        lemma_shl_mod(x, (k - 1) as u128);
        lemma_shl_step(x, (k - 1) as u128);
        let y = x << ((k - 1) as u128);
        lemma_shl1(y);
        lemma_pow2_unfold(k as nat);
        lemma_mul_mod_noop_left(x as int * pow2((k - 1) as nat), 2, p128());
        assert(x as int * pow2((k - 1) as nat) * 2 == x as int * pow2(k as nat))
            by (nonlinear_arith)
            requires
                pow2(k as nat) == 2 * pow2((k - 1) as nat),
        ;
    }
}

/// A left shift that loses no bit is an exact multiplication.
pub proof fn lemma_shl_exact(x: u128, k: u128)
    requires
        k < 128,
        x as int * pow2(k as nat) < p128(),
    ensures
        (x << k) as int == x as int * pow2(k as nat),
{
    lemma_shl_mod(x, k);
    lemma_pow2_pos(k as nat);
    lemma_small_mod((x as int * pow2(k as nat)) as nat, p128() as nat);
}

/// x·2^k split at bit 128: the high part is x >> (128 − k), the low part is x << k.
pub proof fn lemma_shl_split(x: u128, k: u128)
    requires
        0 < k < 128,
    ensures
        x as int * pow2(k as nat) == (x >> ((128 - k) as u128)) as int * p128() + (x << k) as int,
        (x >> ((128 - k) as u128)) as int * pow2((128 - k) as nat) <= x,
        (x >> ((128 - k) as u128)) < pow2(k as nat),
{
    let s = (128 - k) as nat;
    lemma_shl_mod(x, k);
    lemma_u128_shr_is_div(x, s as u128);
    lemma_pow2_pos(k as nat);
    lemma_pow2_pos(s);
    lemma_pow2_128();
    lemma_pow2_adds(s, k as nat);
    let a = x as int / pow2(s) as int;
    let b = x as int % pow2(s) as int;
    lemma_fundamental_div_mod(x as int, pow2(s) as int);
    lemma_mod_bound(x as int, pow2(s) as int);
    // x·2^k = a·2^128 + b·2^k with b·2^k < 2^128
    assert(x as int * pow2(k as nat) == a * p128() + b * pow2(k as nat)) by (nonlinear_arith)
        requires
            x as int == pow2(s) * a + b,
            pow2(s) * pow2(k as nat) == p128(),
    ;
    assert(b * pow2(k as nat) < p128()) by (nonlinear_arith)
        requires
            0 <= b < pow2(s),
            pow2(s) * pow2(k as nat) == p128(),
            pow2(k as nat) > 0,
    ;
    assert(b * pow2(k as nat) >= 0) by (nonlinear_arith)
        requires b >= 0, pow2(k as nat) > 0;
    lemma_mod_multiples_vanish(a, b * pow2(k as nat), p128());
    lemma_small_mod((b * pow2(k as nat)) as nat, p128() as nat);
    assert(a * pow2(s) <= x) by (nonlinear_arith)
        requires x as int == pow2(s) * a + b, b >= 0;
    assert(a < pow2(k as nat)) by (nonlinear_arith)
        requires
            x < p128(),
            a * pow2(s) <= x,
            pow2(s) * pow2(k as nat) == p128(),
            pow2(s) > 0,
    ;
}

/// A u128 word read as i128 is the same bits: the top half of the range wraps down by 2^128.
pub proof fn lemma_u128_as_i128(x: u128)
    ensures
        (x as i128) as int == (if x > i128::MAX { x - p128() } else { x as int }),
{
    assert(x > 0x7fff_ffff_ffff_ffff_ffff_ffff_ffff_ffffu128 ==> (x as i128) == ((x
        - 0x8000_0000_0000_0000_0000_0000_0000_0000u128) as i128) + i128::MIN) by (bit_vector);
}

/// An i128 read as u128 is the same bits: negatives wrap up by 2^128.
pub proof fn lemma_i128_as_u128(v: i128)
    ensures
        (v as u128) as int == (if v < 0 { v + p128() } else { v as int }),
{
    assert(v < 0 ==> (v as u128) == ((v - i128::MIN) as i128) as u128
        + 0x8000_0000_0000_0000_0000_0000_0000_0000u128) by (bit_vector);
}

/// Any (hi, lo) pair names a value in the lane's range.
pub proof fn lemma_pair_range(hi: i128, lo: u128)
    ensures
        -p255() <= hi * p128() + lo < p255(),
{
    assert(-p255() <= hi * p128() + lo < p255()) by (nonlinear_arith)
        requires
            i128::MIN <= hi <= i128::MAX,
            0 <= lo < p128(),
            p128() == 0x1_0000_0000_0000_0000_0000_0000_0000_0000int,
            p255() == 0x8000_0000_0000_0000_0000_0000_0000_0000_0000_0000_0000_0000_0000_0000_0000_0000int,
    ;
}

/// The unsigned 256-bit magnitude held by two words.
pub open spec fn mag_val(hi: u128, lo: u128) -> int {
    hi * p128() + lo
}

/// Round to nearest even at bit s: the kept quotient goes up when the dropped remainder is
/// over half, or exactly half with nonzero bits dropped before (sticky) or an odd quotient.
pub open spec fn rne_up(mag: int, s: nat, sticky: bool) -> bool {
    let d = pow2(s) as int;
    let q = mag / d;
    let rem = mag % d;
    let half = d / 2;
    rem > half || (rem == half && (sticky || q % 2 == 1))
}

/// M / 2^b for M = hi·2^128 + lo and b ≤ 128: hi·2^(128−b) + lo / 2^b.
pub proof fn lemma_mag_div_low(hi: u128, lo: u128, b: nat)
    requires
        b <= 128,
    ensures
        mag_val(hi, lo) / (pow2(b) as int) == hi * pow2((128 - b) as nat) + lo as int / (pow2(b) as int),
{
    lemma_pow2_128();
    lemma_pow2_pos(b);
    lemma_pow2_adds(b, (128 - b) as nat);
    let d = pow2(b) as int;
    let q = lo as int / d;
    let r = lo as int % d;
    lemma_fundamental_div_mod(lo as int, d);
    lemma_mod_bound(lo as int, d);
    let a = hi * pow2((128 - b) as nat) + q;
    assert(mag_val(hi, lo) == d * a + r) by (nonlinear_arith)
        requires
            mag_val(hi, lo) == hi * p128() + lo,
            lo == d * q + r,
            a == hi * pow2((128 - b) as nat) + q,
            d * pow2((128 - b) as nat) == p128(),
    ;
    lemma_div_multiples_vanish_fancy(a, r, d);
}

/// M / 2^b for b ≥ 128 reads only the high word: hi / 2^(b−128).
pub proof fn lemma_mag_div_high(hi: u128, lo: u128, b: nat)
    requires
        128 <= b,
    ensures
        mag_val(hi, lo) / (pow2(b) as int) == hi as int / (pow2((b - 128) as nat) as int),
{
    lemma_pow2_128();
    let e = (b - 128) as nat;
    lemma_pow2_pos(e);
    lemma_pow2_adds(128, e);
    assert(128 + e == b);
    let pp = pow2(e) as int;
    assert(pow2(b) as int == p128() * pp);
    lemma_mag_div_low(hi, lo, 128);
    lemma2_to64();
    assert(pow2(0) == 1);
    lemma_basic_div(lo as int, p128());
    assert(lo as int / (pow2(128) as int) == 0);
    assert(mag_val(hi, lo) / p128() == hi as int);
    lemma_div_denominator(mag_val(hi, lo) as int, p128(), pp);
    assert(mag_val(hi, lo) / (p128() * pp) == (mag_val(hi, lo) / p128()) / pp);
}

/// A magnitude in [2^h, 2^(h+1)) divided by 2^s lands in [2^(h−s), 2^(h−s+1)).
pub proof fn lemma_window(mag: int, h: nat, s: nat)
    requires
        s <= h,
        pow2(h) <= mag < pow2(h + 1),
    ensures
        pow2((h - s) as nat) <= mag / (pow2(s) as int) < pow2((h - s + 1) as nat),
{
    lemma_pow2_pos(s);
    lemma_pow2_adds((h - s) as nat, s);
    lemma_pow2_adds((h - s + 1) as nat, s);
    let d = pow2(s) as int;
    lemma_fundamental_div_mod(mag, d);
    lemma_mod_bound(mag, d);
    let q = mag / d;
    assert(pow2((h - s) as nat) <= q) by (nonlinear_arith)
        requires
            mag == d * q + mag % d,
            0 <= mag % d < d,
            pow2((h - s) as nat) * d == pow2(h),
            pow2(h) <= mag,
            d > 0,
    ;
    assert(q < pow2((h - s + 1) as nat)) by (nonlinear_arith)
        requires
            mag == d * q + mag % d,
            0 <= mag % d,
            pow2((h - s + 1) as nat) * d == pow2(h + 1),
            mag < pow2(h + 1),
            d > 0,
    ;
}

/// The two rounding bits read separately (the round bit, the bits below it) decide the same
/// as the remainder against one half.
pub proof fn lemma_round_bits(mag: int, s: nat, sticky: bool)
    requires
        s >= 1,
        mag >= 0,
    ensures
        ({
            let e = pow2((s - 1) as nat) as int;
            let round = (mag / e) % 2;
            let low = mag % e != 0;
            let q = mag / (pow2(s) as int);
            rne_up(mag, s, sticky) == (round == 1 && (low || sticky || q % 2 == 1))
        }),
        (mag / (pow2((s - 1) as nat) as int)) / 2 == mag / (pow2(s) as int),
{
    let e = pow2((s - 1) as nat) as int;
    lemma_pow2_pos((s - 1) as nat);
    lemma_pow2_unfold(s);
    assert(pow2(s) as int == e * 2);
    lemma_mod_breakdown(mag, e, 2);
    lemma_div_denominator(mag, e, 2);
    lemma_mod_bound(mag, e);
    lemma_mod_bound(mag / e, 2);
    assert((pow2(s) as int) / 2 == e);
}

} // verus!
