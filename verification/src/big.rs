//! Integers of any size, as the ball and the maelstrom need them: a sign and 32-bit digits,
//! least significant first. The arithmetic is num-bigint's; every operation states the value it
//! gives.

use num_bigint::{BigInt, Sign};
use vstd::arithmetic::power::pow;
use vstd::prelude::*;

verus! {

/// The value of base-2³² digits, least significant first.
pub open spec fn mag_val(d: Seq<u32>) -> nat
    decreases d.len(),
{
    if d.len() == 0 {
        0
    } else {
        d[0] as nat + 4294967296 * mag_val(d.drop_first())
    }
}

/// An integer: negative when `neg` (and the magnitude is not zero), magnitude in digits.
pub struct Big {
    pub neg: bool,
    pub mag: Vec<u32>,
}

impl Big {
    /// The integer a `Big` stands for.
    pub open spec fn val(&self) -> int {
        if self.neg { -(mag_val(self.mag@) as int) } else { mag_val(self.mag@) as int }
    }

    /// A copy with the same value.
    pub fn copy(&self) -> (r: Big)
        ensures
            r.val() == self.val(),
    {
        Big { neg: self.neg, mag: self.mag.clone() }
    }

    /// The negation.
    pub fn negate(&self) -> (r: Big)
        ensures
            r.val() == -self.val(),
    {
        Big { neg: !self.neg, mag: self.mag.clone() }
    }

    /// An `i64` as a `Big`.
    pub fn of(v: i64) -> (r: Big)
        ensures
            r.val() == v,
    {
        big_of_i64(v)
    }

    /// A `u64` as a `Big`.
    pub fn of_u64(v: u64) -> (r: Big)
        ensures
            r.val() == v,
    {
        big_of_u64(v)
    }

    /// 0 as a `Big`.
    pub fn zero() -> (r: Big)
        ensures
            r.val() == 0,
    {
        Big { neg: false, mag: Vec::new() }
    }

    /// The sign of the value: -1, 0 or 1.
    pub fn signum(&self) -> (r: i8)
        ensures
            r == (if self.val() < 0 { -1int } else if self.val() == 0 { 0int } else { 1int }),
    {
        big_sign(self)
    }

    pub fn is_zero(&self) -> (r: bool)
        ensures
            r == (self.val() == 0),
    {
        big_sign(self) == 0
    }

    pub fn is_negative(&self) -> (r: bool)
        ensures
            r == (self.val() < 0),
    {
        big_sign(self) < 0
    }

    pub fn add(&self, b: &Big) -> (r: Big)
        ensures
            r.val() == self.val() + b.val(),
    {
        big_add(self, b)
    }

    pub fn sub(&self, b: &Big) -> (r: Big)
        ensures
            r.val() == self.val() - b.val(),
    {
        big_sub(self, b)
    }

    pub fn mul(&self, b: &Big) -> (r: Big)
        ensures
            r.val() == self.val() * b.val(),
    {
        big_mul(self, b)
    }

    /// Whether the value is below b's.
    pub fn lt(&self, b: &Big) -> (r: bool)
        ensures
            r == (self.val() < b.val()),
    {
        big_sub(self, b).is_negative()
    }

    /// Whether the two values are equal.
    pub fn same(&self, b: &Big) -> (r: bool)
        ensures
            r == (self.val() == b.val()),
    {
        big_sub(self, b).is_zero()
    }
}

/// `BigInt::from(i64)` (num-bigint), read back as digits: the same value.
#[verifier::external_body]
fn big_of_i64(v: i64) -> (r: Big)
    ensures
        r.val() == v,
{
    let (s, mag) = BigInt::from(v).to_u32_digits();
    Big { neg: matches!(s, Sign::Minus), mag }
}

/// `BigInt::from(u64)` (num-bigint), read back as digits: the same value.
#[verifier::external_body]
fn big_of_u64(v: u64) -> (r: Big)
    ensures
        r.val() == v,
{
    let (s, mag) = BigInt::from(v).to_u32_digits();
    Big { neg: matches!(s, Sign::Minus), mag }
}

/// `BigInt::sign` (num-bigint): Minus, NoSign or Plus as the value is below, at or above 0.
#[verifier::external_body]
fn big_sign(a: &Big) -> (r: i8)
    ensures
        r == (if a.val() < 0 { -1int } else if a.val() == 0 { 0int } else { 1int }),
{
    let x = BigInt::new(if a.neg { Sign::Minus } else { Sign::Plus }, a.mag.clone());
    match x.sign() {
        Sign::Minus => -1,
        Sign::NoSign => 0,
        Sign::Plus => 1,
    }
}

/// `BigInt` addition (num-bigint): the sum of the values.
#[verifier::external_body]
fn big_add(a: &Big, b: &Big) -> (r: Big)
    ensures
        r.val() == a.val() + b.val(),
{
    let x = BigInt::new(if a.neg { Sign::Minus } else { Sign::Plus }, a.mag.clone());
    let y = BigInt::new(if b.neg { Sign::Minus } else { Sign::Plus }, b.mag.clone());
    let (s, mag) = (x + y).to_u32_digits();
    Big { neg: matches!(s, Sign::Minus), mag }
}

/// `BigInt` subtraction (num-bigint): the difference of the values.
#[verifier::external_body]
fn big_sub(a: &Big, b: &Big) -> (r: Big)
    ensures
        r.val() == a.val() - b.val(),
{
    let x = BigInt::new(if a.neg { Sign::Minus } else { Sign::Plus }, a.mag.clone());
    let y = BigInt::new(if b.neg { Sign::Minus } else { Sign::Plus }, b.mag.clone());
    let (s, mag) = (x - y).to_u32_digits();
    Big { neg: matches!(s, Sign::Minus), mag }
}

/// `BigInt` multiplication (num-bigint): the product of the values.
#[verifier::external_body]
fn big_mul(a: &Big, b: &Big) -> (r: Big)
    ensures
        r.val() == a.val() * b.val(),
{
    let x = BigInt::new(if a.neg { Sign::Minus } else { Sign::Plus }, a.mag.clone());
    let y = BigInt::new(if b.neg { Sign::Minus } else { Sign::Plus }, b.mag.clone());
    let (s, mag) = (x * y).to_u32_digits();
    Big { neg: matches!(s, Sign::Minus), mag }
}

/// `BigInt::pow` (num-bigint): the value raised to e.
#[verifier::external_body]
pub(crate) fn big_pow(a: &Big, e: u32) -> (r: Big)
    ensures
        r.val() == pow(a.val(), e as nat),
{
    let x = BigInt::new(if a.neg { Sign::Minus } else { Sign::Plus }, a.mag.clone());
    let (s, mag) = x.pow(e).to_u32_digits();
    Big { neg: matches!(s, Sign::Minus), mag }
}

/// `BigInt::sqrt` (num-bigint, the truncated principal square root): r ≥ 0 with r² ≤ a < (r+1)².
/// It panics below zero.
#[verifier::external_body]
pub(crate) fn big_sqrt(a: &Big) -> (r: Big)
    requires
        a.val() >= 0,
    ensures
        r.val() >= 0,
        r.val() * r.val() <= a.val() < (r.val() + 1) * (r.val() + 1),
{
    let x = BigInt::new(if a.neg { Sign::Minus } else { Sign::Plus }, a.mag.clone());
    let (s, mag) = x.sqrt().to_u32_digits();
    Big { neg: matches!(s, Sign::Minus), mag }
}

/// ⌊a / b⌋ for b ≠ 0.
pub open spec fn floor_div(a: int, b: int) -> int {
    if b > 0 { a / b } else { (-a) / (-b) }
}

/// `Integer::div_floor` on `BigInt` (num-integer): the quotient rounded down. It panics on a
/// zero divisor.
#[verifier::external_body]
pub(crate) fn big_div_floor(a: &Big, b: &Big) -> (r: Big)
    requires
        b.val() != 0,
    ensures
        r.val() == floor_div(a.val(), b.val()),
{
    let x = BigInt::new(if a.neg { Sign::Minus } else { Sign::Plus }, a.mag.clone());
    let y = BigInt::new(if b.neg { Sign::Minus } else { Sign::Plus }, b.mag.clone());
    let (s, mag) = num_integer::Integer::div_floor(&x, &y).to_u32_digits();
    Big { neg: matches!(s, Sign::Minus), mag }
}

/// `i64::try_from(&BigInt)` (num-bigint): the value when it fits an i64.
#[verifier::external_body]
pub(crate) fn big_to_i64(a: &Big) -> (r: Option<i64>)
    ensures
        r is Some <==> i64::MIN <= a.val() <= i64::MAX,
        r matches Some(v) ==> v == a.val(),
{
    let x = BigInt::new(if a.neg { Sign::Minus } else { Sign::Plus }, a.mag.clone());
    i64::try_from(&x).ok()
}

/// |a|.
pub open spec fn abs(a: int) -> int {
    if a < 0 { -a } else { a }
}

/// The quotient of a by b ≠ 0 rounded toward zero.
pub open spec fn trunc_div(a: int, b: int) -> int {
    let m = abs(a) / abs(b);
    if (a < 0) == (b < 0) { m } else { -m }
}

/// The remainder of a by b ≠ 0 that keeps a's sign: a − trunc_div(a, b)·b.
pub open spec fn trunc_rem(a: int, b: int) -> int {
    let m = abs(a) % abs(b);
    if a < 0 { -m } else { m }
}

/// `Integer::div_rem` on `BigInt` (num-integer, num-bigint): the quotient rounded toward zero
/// and the remainder with the dividend's sign. It panics on a zero divisor.
#[verifier::external_body]
pub(crate) fn big_div_rem(a: &Big, b: &Big) -> (r: (Big, Big))
    requires
        b.val() != 0,
    ensures
        r.0.val() == trunc_div(a.val(), b.val()),
        r.1.val() == trunc_rem(a.val(), b.val()),
{
    let x = BigInt::new(if a.neg { Sign::Minus } else { Sign::Plus }, a.mag.clone());
    let y = BigInt::new(if b.neg { Sign::Minus } else { Sign::Plus }, b.mag.clone());
    let (q, m) = num_integer::Integer::div_rem(&x, &y);
    let ((qs, qm), (ms, mm)) = (q.to_u32_digits(), m.to_u32_digits());
    (Big { neg: matches!(qs, Sign::Minus), mag: qm }, Big { neg: matches!(ms, Sign::Minus), mag: mm })
}

/// `BigInt << u32` (num-bigint): the value times 2^k.
#[verifier::external_body]
pub(crate) fn big_shl(a: &Big, k: u32) -> (r: Big)
    ensures
        r.val() == a.val() * vstd::arithmetic::power2::pow2(k as nat),
{
    let x = BigInt::new(if a.neg { Sign::Minus } else { Sign::Plus }, a.mag.clone());
    let (s, mag) = (x << k).to_u32_digits();
    Big { neg: matches!(s, Sign::Minus), mag }
}

/// `BigInt >> u32` (num-bigint): the value divided by 2^k, rounded down.
#[verifier::external_body]
pub(crate) fn big_shr(a: &Big, k: u32) -> (r: Big)
    ensures
        r.val() == a.val() / vstd::arithmetic::power2::pow2(k as nat) as int,
{
    let x = BigInt::new(if a.neg { Sign::Minus } else { Sign::Plus }, a.mag.clone());
    let (s, mag) = (x >> k).to_u32_digits();
    Big { neg: matches!(s, Sign::Minus), mag }
}

/// `u32::try_from(&BigInt)` (num-bigint): the value when it fits a u32.
#[verifier::external_body]
pub(crate) fn big_to_u32(a: &Big) -> (r: Option<u32>)
    ensures
        r is Some <==> 0 <= a.val() <= u32::MAX,
        r matches Some(v) ==> v == a.val(),
{
    let x = BigInt::new(if a.neg { Sign::Minus } else { Sign::Plus }, a.mag.clone());
    u32::try_from(&x).ok()
}

/// `u64::try_from(&BigInt)` (num-bigint): the value when it fits a u64.
#[verifier::external_body]
pub(crate) fn big_to_u64(a: &Big) -> (r: Option<u64>)
    ensures
        r is Some <==> 0 <= a.val() <= u64::MAX,
        r matches Some(v) ==> v == a.val(),
{
    let x = BigInt::new(if a.neg { Sign::Minus } else { Sign::Plus }, a.mag.clone());
    u64::try_from(&x).ok()
}

/// The bitwise and of two naturals.
pub open spec fn bit_and(a: nat, b: nat) -> nat
    decreases a,
{
    if a == 0 || b == 0 { 0 } else { 2 * bit_and(a / 2, b / 2) + (a % 2) * (b % 2) }
}

/// `BigInt & BigInt` (num-bigint) on naturals: their bitwise and.
#[verifier::external_body]
pub(crate) fn big_and(a: &Big, b: &Big) -> (r: Big)
    requires
        a.val() >= 0,
        b.val() >= 0,
    ensures
        r.val() == bit_and(a.val() as nat, b.val() as nat),
{
    let x = BigInt::new(if a.neg { Sign::Minus } else { Sign::Plus }, a.mag.clone());
    let y = BigInt::new(if b.neg { Sign::Minus } else { Sign::Plus }, b.mag.clone());
    let (s, mag) = (x & y).to_u32_digits();
    Big { neg: matches!(s, Sign::Minus), mag }
}

/// The fewest bits that hold n.
pub open spec fn nbits(n: nat) -> nat
    decreases n,
{
    if n == 0 { 0 } else { 1 + nbits(n / 2) }
}

/// `BigInt::bits` (num-bigint): the fewest bits that hold the magnitude.
#[verifier::external_body]
pub(crate) fn big_bits(a: &Big) -> (r: u64)
    ensures
        r == nbits(abs(a.val()) as nat),
{
    let x = BigInt::new(if a.neg { Sign::Minus } else { Sign::Plus }, a.mag.clone());
    x.bits()
}

} // verus!
