//! The 2-adic fibers over the integers.
//!
//! The odd residues mod 2^N form the group {±1} × Z/2^(N-2): every odd m is ±5^k for exactly
//! one sign and one k mod 2^(N-2). An odd is a POSITION (sign, k) on a torus, and a cell <m|n>
//! is (sign, k, n): the fiber over the integer is the rung ladder, the position along the torus
//! is k. Products of values are sums of positions: m_x · m_w = ±5^(k_x + k_w), 1/m = 5^(-k).
//! The two maps are kept apart: the log (odd → position) and the antilog (position → odd).

use vstd::arithmetic::div_mod::*;
use vstd::arithmetic::power::*;
use vstd::arithmetic::power2::*;
use vstd::bits::*;
use vstd::prelude::*;

use crate::cells::{finite, is_cell_of, lemma_round_trip};

verus! {

// ── the mathematics of the torus ─────────────────────────────────────────────

/// 5^k reduced mod 2^bits.
pub open spec fn residue(bits: nat, k: nat) -> int {
    pow(5, k) % (pow2(bits) as int)
}

/// The number of positions on the torus of odd residues mod 2^bits.
pub open spec fn period_of(bits: nat) -> nat {
    pow2((bits - 2) as nat)
}

/// The odd residue at position (neg, k): (−1)^neg · 5^k mod 2^bits.
pub open spec fn odd_at(bits: nat, neg: bool, k: nat) -> int {
    if neg {
        pow2(bits) - residue(bits, k)
    } else {
        residue(bits, k)
    }
}

proof fn lemma_pow5_odd(k: nat)
    ensures
        pow(5, k) % 2 == 1,
        pow(5, k) > 0,
{
    lemma_pow_mod_noop(5, k, 2);
    lemma1_pow(k);
    lemma_pow_positive(5, k);
}

proof fn lemma_pow2_even(e: nat)
    requires
        e >= 1,
    ensures
        pow2(e) % 2 == 0,
        pow2(e) == 2 * pow2((e - 1) as nat),
{
    lemma_pow2_unfold(e);
}

/// 5^(2^t) = 1 + 2^(t+2)·u with u odd.
proof fn lemma_five_tower(t: nat) -> (u: int)
    ensures
        u % 2 == 1,
        pow(5, pow2(t)) == 1 + pow2(t + 2) * u,
    decreases t,
{
    if t == 0 {
        lemma_pow1(5);
        lemma2_to64();
        1
    } else {
        let u0 = lemma_five_tower((t - 1) as nat);
        let b = pow2(t) as int;
        lemma_pow2_unfold(t);
        lemma_pow2_unfold(t + 1);
        lemma_pow2_unfold(t + 2);
        lemma_pow_multiplies(5, pow2((t - 1) as nat), 2);
        lemma_square_is_pow2(pow(5, pow2((t - 1) as nat)));
        assert(pow2((t - 1) as nat) * 2 == pow2(t));
        let x = pow(5, pow2((t - 1) as nat));
        assert(x == 1 + 2 * b * u0);
        lemma_pow2_even(t);
        let h = b / 2;
        assert(b == 2 * h);
        let u = u0 + b * u0 * u0;
        assert(x * x == 1 + 4 * b * u) by (nonlinear_arith)
            requires x == 1 + 2 * b * u0, u == u0 + b * u0 * u0;
        assert(pow2(t + 2) == 4 * b);
        let q = u0 / 2;
        assert(u0 == 2 * q + 1);
        assert(u == 2 * (q + h * u0 * u0) + 1) by (nonlinear_arith)
            requires u == u0 + b * u0 * u0, u0 == 2 * q + 1, b == 2 * h;
        u
    }
}

/// 5^(2^(bits-2)) ≡ 1 (mod 2^bits): the torus closes after period_of(bits) steps.
proof fn lemma_period_closes(bits: nat)
    requires
        bits >= 2,
    ensures
        pow(5, period_of(bits)) % (pow2(bits) as int) == 1,
{
    let u = lemma_five_tower((bits - 2) as nat);
    assert((bits - 2) as nat + 2 == bits);
    lemma_pow2_pos(bits);
    lemma_pow2(bits);
    lemma2_to64();
    lemma_pow2_strictly_increases(0, bits);
    assert(pow(5, period_of(bits)) == u * (pow2(bits) as int) + 1) by (nonlinear_arith)
        requires pow(5, period_of(bits)) == 1 + pow2(bits) * u;
    lemma_fundamental_div_mod_converse(pow(5, period_of(bits)), pow2(bits) as int, u, 1);
}

/// Positions are taken modulo the period.
pub proof fn lemma_residue_periodic(bits: nat, k: nat)
    requires
        bits >= 2,
    ensures
        residue(bits, k) == residue(bits, k % period_of(bits)),
{
    let p = period_of(bits);
    let m = pow2(bits) as int;
    lemma_pow2_pos(bits);
    lemma_pow2_pos((bits - 2) as nat);
    let q = k / p;
    let r = k % p;
    lemma_fundamental_div_mod(k as int, p as int);
    assert(k == p * q + r);
    lemma_pow_adds(5, (p * q) as nat, r);
    lemma_pow_multiplies(5, p, q);
    lemma_period_closes(bits);
    lemma_pow_mod_noop(pow(5, p), q, m);
    lemma1_pow(q);
    lemma_small_mod(1, m as nat);
    lemma_mul_mod_noop_left(pow(pow(5, p), q), pow(5, r), m);
    assert(pow(5, k) == pow(pow(5, p), q) * pow(5, r));
}

/// Every odd m ≡ 1 (mod 4) is 5^k mod 2^j for a position k below 2^(j-2).
proof fn lemma_dlog(j: nat, m: int) -> (kc: (nat, int))
    requires
        j >= 2,
        m % 4 == 1,
    ensures
        kc.0 < pow2((j - 2) as nat),
        pow(5, kc.0) == m + pow2(j) * kc.1,
    decreases j,
{
    if j == 2 {
        lemma_pow0(5);
        lemma2_to64();
        lemma_fundamental_div_mod(m, 4);
        (0, -(m / 4))
    } else {
        let (k, c) = lemma_dlog((j - 1) as nat, m);
        let p = pow2((j - 1) as nat) as int;
        lemma_pow2_unfold(j);
        lemma_pow2_unfold((j - 2) as nat);
        lemma_pow2_even((j - 1) as nat);
        lemma_fundamental_div_mod(c, 2);
        let d = c / 2;
        if c % 2 == 0 {
            assert(pow(5, k) == m + pow2(j) * d) by (nonlinear_arith)
                requires pow(5, k) == m + p * c, c == 2 * d, pow2(j) == 2 * p;
            (k, d)
        } else {
            let t = (j - 3) as nat;
            assert(t + 2 == j - 1);
            let u = lemma_five_tower(t);
            lemma_pow_adds(5, k, pow2(t));
            let v = pow(5, k);
            lemma_pow5_odd(k);
            lemma_fundamental_div_mod(u, 2);
            lemma_fundamental_div_mod(v, 2);
            let a = u / 2;
            let b = v / 2;
            let e = d + 1 + 2 * a * b + a + b;
            assert(v * (1 + p * u) == m + pow2(j) * e) by (nonlinear_arith)
                requires
                    v == m + p * c,
                    c == 2 * d + 1,
                    u == 2 * a + 1,
                    v == 2 * b + 1,
                    pow2(j) == 2 * p,
                    e == d + 1 + 2 * a * b + a + b,
            ;
            assert(k + pow2(t) < pow2((j - 2) as nat));
            ((k + pow2(t)) as nat, e)
        }
    }
}

/// Every odd residue mod 2^bits has a position: m = ±5^k for some k below the period.
pub proof fn lemma_position_exists(bits: nat, m: int)
    requires
        bits >= 3,
        0 < m < pow2(bits),
        m % 2 == 1,
    ensures
        exists|k: nat|
            k < period_of(bits) && (#[trigger] residue(bits, k) == m || pow2(bits) - residue(bits, k) == m),
{
    let big = pow2(bits) as int;
    lemma_pow2_unfold(bits);
    lemma_pow2_unfold((bits - 1) as nat);
    let q = pow2((bits - 2) as nat) as int;
    assert(big == 4 * q);
    lemma_fundamental_div_mod(m, 4);
    if m % 4 == 1 {
        let (k, c) = lemma_dlog(bits, m);
        lemma_fundamental_div_mod_converse(pow(5, k), big, c, m);
        assert(residue(bits, k) == m);
    } else {
        assert(m % 4 == 3);
        let m2 = big - m;
        assert(m2 % 4 == 1) by {
            lemma_fundamental_div_mod_converse(m2, 4, q - m / 4 - 1, 1);
        }
        let (k, c) = lemma_dlog(bits, m2);
        lemma_fundamental_div_mod_converse(pow(5, k), big, c, m2);
        assert(residue(bits, k) == m2);
        assert(pow2(bits) - residue(bits, k) == m);
    }
}

/// Below 2^(j-2), 5^k mod 2^j is one-to-one.
proof fn lemma_dlog_unique(j: nat, k1: nat, k2: nat, c: int)
    requires
        j >= 2,
        k1 < pow2((j - 2) as nat),
        k2 < pow2((j - 2) as nat),
        pow(5, k1) == pow(5, k2) + pow2(j) * c,
    ensures
        k1 == k2,
    decreases j,
{
    if j == 2 {
        lemma2_to64();
    } else {
        let t = (j - 3) as nat;
        let h = pow2(t);
        lemma_pow2_unfold((j - 2) as nat);
        lemma_pow2_unfold(j);
        lemma_pow2_pos(t);
        assert(t + 2 == j - 1);
        let u = lemma_five_tower(t);
        let a1 = k1 % h;
        let a2 = k2 % h;
        lemma_fundamental_div_mod(k1 as int, h as int);
        lemma_fundamental_div_mod(k2 as int, h as int);
        let e1 = k1 / h;
        let e2 = k2 / h;
        assert(e1 < 2) by (nonlinear_arith)
            requires k1 == h * e1 + a1, k1 < 2 * h, a1 >= 0, h > 0, e1 >= 0;
        assert(e2 < 2) by (nonlinear_arith)
            requires k2 == h * e2 + a2, k2 < 2 * h, a2 >= 0, h > 0, e2 >= 0;
        let p = pow2((j - 1) as nat) as int;
        lemma_pow5_odd(a1);
        lemma_pow5_odd(a2);
        let w1 = if e1 == 1 { u * pow(5, a1) } else { 0 };
        let w2 = if e2 == 1 { u * pow(5, a2) } else { 0 };
        if e1 == 1 {
            lemma_pow_adds(5, a1, h);
            assert(k1 == a1 + h) by (nonlinear_arith)
                requires k1 == h * e1 + a1, e1 == 1;
            assert(pow(5, k1) == pow(5, a1) + p * w1) by (nonlinear_arith)
                requires pow(5, k1) == pow(5, a1) * pow(5, h), pow(5, h) == 1 + p * u, w1 == u * pow(5, a1);
        } else {
            assert(k1 == a1) by (nonlinear_arith)
                requires k1 == h * e1 + a1, e1 == 0;
        }
        if e2 == 1 {
            lemma_pow_adds(5, a2, h);
            assert(k2 == a2 + h) by (nonlinear_arith)
                requires k2 == h * e2 + a2, e2 == 1;
            assert(pow(5, k2) == pow(5, a2) + p * w2) by (nonlinear_arith)
                requires pow(5, k2) == pow(5, a2) * pow(5, h), pow(5, h) == 1 + p * u, w2 == u * pow(5, a2);
        } else {
            assert(k2 == a2) by (nonlinear_arith)
                requires k2 == h * e2 + a2, e2 == 0;
        }
        let c2 = 2 * c - w1 + w2;
        assert(pow(5, a1) == pow(5, a2) + p * c2) by (nonlinear_arith)
            requires
                pow(5, a1) + p * w1 == pow(5, a2) + p * w2 + pow2(j) * c,
                pow2(j) == 2 * p,
                c2 == 2 * c - w1 + w2,
        ;
        lemma_dlog_unique((j - 1) as nat, a1 as nat, a2 as nat, c2);
        assert(p * (w1 - w2) == p * (2 * c)) by (nonlinear_arith)
            requires pow(5, a1) + p * w1 == pow(5, a2) + p * w2 + pow2(j) * c, pow2(j) == 2 * p, a1 == a2;
        lemma_pow2_pos((j - 1) as nat);
        assert(w1 - w2 == 2 * c) by (nonlinear_arith)
            requires p * (w1 - w2) == p * (2 * c), p > 0;
        if e1 != e2 {
            let v = pow(5, a1);
            lemma_fundamental_div_mod(u, 2);
            lemma_fundamental_div_mod(v, 2);
            let x = u / 2;
            let y = v / 2;
            assert(u * v == 2 * (2 * x * y + x + y) + 1) by (nonlinear_arith)
                requires u == 2 * x + 1, v == 2 * y + 1;
            assert(false) by (nonlinear_arith)
                requires
                    w1 - w2 == 2 * c,
                    (w1 - w2 == u * v || w2 - w1 == u * v),
                    u * v == 2 * (2 * x * y + x + y) + 1,
            ;
        }
    }
}

/// One position per odd residue: two positions below the period with the same odd residue
/// are the same position.
pub proof fn lemma_position_unique(bits: nat, s1: bool, k1: nat, s2: bool, k2: nat)
    requires
        bits >= 3,
        k1 < period_of(bits),
        k2 < period_of(bits),
        odd_at(bits, s1, k1) == odd_at(bits, s2, k2),
    ensures
        s1 == s2,
        k1 == k2,
{
    let m = pow2(bits) as int;
    let q = pow2((bits - 2) as nat) as int;
    lemma_pow2_unfold(bits);
    lemma_pow2_unfold((bits - 1) as nat);
    lemma_pow2_pos((bits - 2) as nat);
    assert(m == 4 * q);
    lemma_pow_mod_noop(5, k1, 4);
    lemma_pow_mod_noop(5, k2, 4);
    lemma1_pow(k1);
    lemma1_pow(k2);
    lemma_pow5_odd(k1);
    lemma_pow5_odd(k2);
    lemma_mod_mod(pow(5, k1), 4, q);
    lemma_mod_mod(pow(5, k2), 4, q);
    let r1 = residue(bits, k1);
    let r2 = residue(bits, k2);
    assert(r1 % 4 == 1);
    assert(r2 % 4 == 1);
    if s1 != s2 {
        assert(r1 + r2 == m);
        lemma_fundamental_div_mod(r1, 4);
        lemma_fundamental_div_mod(r2, 4);
        assert(false);
    }
    lemma_fundamental_div_mod(pow(5, k1), m);
    lemma_fundamental_div_mod(pow(5, k2), m);
    let c = pow(5, k1) / m - pow(5, k2) / m;
    assert(pow(5, k1) == pow(5, k2) + m * c) by (nonlinear_arith)
        requires
            pow(5, k1) == m * (pow(5, k1) / m) + r1,
            pow(5, k2) == m * (pow(5, k2) / m) + r2,
            r1 == r2,
            c == pow(5, k1) / m - pow(5, k2) / m,
    ;
    lemma_dlog_unique(bits, k1, k2, c);
}

/// A residue of 5^k is odd and inside the modulus.
pub proof fn lemma_residue_odd(bits: nat, k: nat)
    requires
        bits >= 1,
    ensures
        residue(bits, k) % 2 == 1,
        0 < residue(bits, k) < pow2(bits),
{
    lemma_pow5_odd(k);
    lemma_pow2_pos(bits);
    lemma_pow2_unfold(bits);
    let h = pow2((bits - 1) as nat) as int;
    lemma_pow2_pos((bits - 1) as nat);
    lemma_mod_mod(pow(5, k), 2, h);
    assert(2 * h == pow2(bits));
    lemma_mod_pos_bound(pow(5, k), pow2(bits) as int);
}

/// Products are sums of positions: signs xor, positions add, and the odd residue at the sum
/// is the product of the two residues mod 2^bits.
pub proof fn lemma_product_is_position_sum(bits: nat, s1: bool, k1: nat, s2: bool, k2: nat)
    requires
        bits >= 2,
    ensures
        odd_at(bits, s1 != s2, k1 + k2) == (odd_at(bits, s1, k1) * odd_at(bits, s2, k2)) % (pow2(bits) as int),
{
    let m = pow2(bits) as int;
    lemma_pow2_pos(bits);
    let a = residue(bits, k1);
    let b = residue(bits, k2);
    lemma_residue_odd(bits, k1);
    lemma_residue_odd(bits, k2);
    lemma_residue_odd(bits, k1 + k2);
    lemma_pow_adds(5, k1, k2);
    lemma_mul_mod_noop(pow(5, k1), pow(5, k2), m);
    assert(residue(bits, k1 + k2) == (a * b) % m);
    let r = (a * b) % m;
    let q = (a * b) / m;
    lemma_fundamental_div_mod(a * b, m);
    if s1 && s2 {
        assert((m - a) * (m - b) == (m - a - b + q) * m + r) by (nonlinear_arith)
            requires a * b == m * q + r;
        lemma_fundamental_div_mod_converse((m - a) * (m - b), m, m - a - b + q, r);
    } else if s1 || s2 {
        assert(0 < r < m);
        let x = if s1 { (m - a) * b } else { a * (m - b) };
        if s1 {
            assert(x == (b - q - 1) * m + (m - r)) by (nonlinear_arith)
                requires a * b == m * q + r, x == (m - a) * b;
            lemma_fundamental_div_mod_converse(x, m, b - q - 1, m - r);
        } else {
            assert(x == (a - q - 1) * m + (m - r)) by (nonlinear_arith)
                requires a * b == m * q + r, x == a * (m - b);
            lemma_fundamental_div_mod_converse(x, m, a - q - 1, m - r);
        }
    } else {
    }
}

/// 1/value = −k: the residue at (s, P − k) times the residue at (s, k) is 1 mod 2^bits.
pub proof fn lemma_inverse_is_minus_k(bits: nat, s: bool, k: nat)
    requires
        bits >= 2,
        k <= period_of(bits),
    ensures
        (odd_at(bits, s, (period_of(bits) - k) as nat) * odd_at(bits, s, k)) % (pow2(bits) as int) == 1,
{
    let p = period_of(bits);
    lemma_product_is_position_sum(bits, s, (p - k) as nat, s, k);
    assert((p - k) as nat + k == p);
    lemma_pow2_pos((bits - 2) as nat);
    lemma_residue_periodic(bits, p);
    lemma_mod_self_0(p as int);
    lemma_pow0(5);
    lemma_pow2_pos(bits);
    lemma_pow2_strictly_increases(0, bits);
    lemma2_to64();
    lemma_small_mod(1, pow2(bits));
}


/// The log table after its two writes for position k: entries stay correct, and every
/// residue written so far has its entry filled.
proof fn lemma_log_step(
    b: nat,
    k: nat,
    l0: Seq<(bool, u32)>,
    l1: Seq<(bool, u32)>,
    l2: Seq<(bool, u32)>,
    v: int,
    neg: int,
)
    requires
        3 <= b <= 30,
        k < period_of(b),
        period_of(b) < 0x4000_0000,
        v == residue(b, k),
        neg == pow2(b) - v,
        neg % 2 == 1,
        l0.len() == pow2((b - 1) as nat),
        pow2(b) == 2 * pow2((b - 1) as nat),
        0 <= v / 2 < l0.len(),
        0 <= neg / 2 < l0.len(),
        l1 == l0.update(v / 2, (false, k as u32)),
        l2 == l1.update(neg / 2, (true, k as u32)),
        forall|j: int|
            0 <= j < l0.len() ==> (#[trigger] l0[j]).1 == u32::MAX || (l0[j].1 < period_of(b) && odd_at(
                b,
                l0[j].0,
                l0[j].1 as nat,
            ) == 2 * j + 1),
        forall|j: nat|
            j < k ==> l0[(#[trigger] residue(b, j)) / 2].1 != u32::MAX && l0[(pow2(b) - residue(b, j)) / 2].1 != u32::MAX,
    ensures
        forall|j: int|
            0 <= j < l2.len() ==> (#[trigger] l2[j]).1 == u32::MAX || (l2[j].1 < period_of(b) && odd_at(
                b,
                l2[j].0,
                l2[j].1 as nat,
            ) == 2 * j + 1),
        forall|j: nat|
            j < k + 1 ==> l2[(#[trigger] residue(b, j)) / 2].1 != u32::MAX && l2[(pow2(b) - residue(b, j)) / 2].1
                != u32::MAX,
{
    lemma_residue_odd(b, k);
    lemma_fundamental_div_mod(v, 2);
    lemma_fundamental_div_mod(neg, 2);
    assert forall|j: int|
        0 <= j < l2.len() implies (#[trigger] l2[j]).1 == u32::MAX || (l2[j].1 < period_of(b) && odd_at(
            b,
            l2[j].0,
            l2[j].1 as nat,
        ) == 2 * j + 1) by {
        if j == neg / 2 {
        } else if j == v / 2 {
            assert(l2[j] == l1[j]);
        } else {
            assert(l2[j] == l0[j]);
        }
    }
    assert forall|j: nat|
        j < k + 1 implies l2[(#[trigger] residue(b, j)) / 2].1 != u32::MAX && l2[(pow2(b) - residue(b, j)) / 2].1
            != u32::MAX by {
        lemma_residue_odd(b, j);
        if j < k {
            let a = residue(b, j) / 2;
            let c = (pow2(b) - residue(b, j)) / 2;
            assert(l0[a].1 != u32::MAX);
            assert(l0[c].1 != u32::MAX);
        }
    }
}

/// Once every position's two residues are written, the whole log is filled.
proof fn lemma_log_filled(b: nat, log: Seq<(bool, u32)>)
    requires
        3 <= b <= 30,
        log.len() == pow2((b - 1) as nat),
        pow2(b) == 2 * pow2((b - 1) as nat),
        forall|j: nat|
            j < period_of(b) ==> log[(#[trigger] residue(b, j)) / 2].1 != u32::MAX && log[(pow2(b) - residue(b, j))
                / 2].1 != u32::MAX,
    ensures
        forall|j: int| 0 <= j < log.len() ==> (#[trigger] log[j]).1 != u32::MAX,
{
    assert forall|j: int| 0 <= j < log.len() implies (#[trigger] log[j]).1 != u32::MAX by {
        lemma_position_exists(b, 2 * j + 1);
        let kk = choose|kk: nat|
            kk < period_of(b) && (#[trigger] residue(b, kk) == 2 * j + 1 || pow2(b) - residue(b, kk) == 2 * j + 1);
        assert(log[(residue(b, kk)) / 2].1 != u32::MAX);
    }
}

// ── the torus as tables ──────────────────────────────────────────────────────

/// The torus of odd residues mod 2^bits: antilog[k] = 5^k mod 2^bits (k below the period), and
/// log[m >> 1] = (negative, k) with m = (−1)^negative · 5^k mod 2^bits.
pub struct Fiber {
    pub bits: u32,
    pub antilog: Vec<u32>,
    pub log: Vec<(bool, u32)>,
}

impl Fiber {
    /// The tables are the torus: antilog is 5^k, and every odd residue's log entry is a
    /// position whose odd residue it is.
    pub open spec fn wf(&self) -> bool {
        &&& 3 <= self.bits <= 30
        &&& self.antilog.len() == period_of(self.bits as nat)
        &&& self.log.len() == pow2((self.bits - 1) as nat)
        &&& forall|k: int| 0 <= k < self.antilog.len() ==> #[trigger] self.antilog[k] == residue(self.bits as nat, k as nat)
        &&& forall|i: int|
            0 <= i < self.log.len() ==> (#[trigger] self.log[i]).1 < period_of(self.bits as nat) && odd_at(
                self.bits as nat,
                self.log[i].0,
                self.log[i].1 as nat,
            ) == 2 * i + 1
    }

    pub fn new(bits: u32) -> (f: Fiber)
        requires
            3 <= bits <= 30,
        ensures
            f.wf(),
            f.bits == bits,
    {
        proof {
            lemma2_to64();
            lemma_pow2_strictly_increases(bits as nat, 64);
            lemma_pow2_strictly_increases((bits - 2) as nat, bits as nat);
            lemma_pow2_strictly_increases((bits - 1) as nat, bits as nat);
            lemma_u64_shl_is_mul(1, bits as u64);
            lemma_u64_shl_is_mul(1, (bits - 2) as u64);
            lemma_u64_shl_is_mul(1, (bits - 1) as u64);
            lemma_pow2_unfold(bits as nat);
            lemma_pow2_unfold((bits - 1) as nat);
            lemma_pow2_pos((bits - 2) as nat);
        }
        let modulus: u64 = 1u64 << bits;
        let period: usize = (1u64 << (bits - 2)) as usize;
        let half: usize = (1u64 << (bits - 1)) as usize;
        let ghost b = bits as nat;
        let mut log: Vec<(bool, u32)> = Vec::new();
        let mut i: usize = 0;
        while i < half
            invariant
                0 <= i <= half,
                log.len() == i,
                forall|j: int| 0 <= j < i ==> (#[trigger] log[j]).1 == u32::MAX,
            decreases half - i,
        {
            log.push((false, u32::MAX));
            i += 1;
        }
        let mut antilog: Vec<u32> = Vec::new();
        let mut v: u64 = 1;
        proof {
            lemma_pow0(5);
            lemma_small_mod(1, pow2(b));
        }
        let mut k: usize = 0;
        while k < period
            invariant
                3 <= bits <= 30,
                b == bits as nat,
                modulus == pow2(b),
                period == period_of(b),
                half == pow2((b - 1) as nat),
                pow2(b) == 2 * pow2((b - 1) as nat),
                pow2(b) <= 0x4000_0000,
                period < 0x4000_0000,
                0 <= k <= period,
                v == residue(b, k as nat),
                antilog.len() == k,
                forall|j: int| 0 <= j < k ==> #[trigger] antilog[j] == residue(b, j as nat),
                log.len() == half,
                forall|j: int|
                    0 <= j < half ==> (#[trigger] log[j]).1 == u32::MAX || (log[j].1 < period && odd_at(
                        b,
                        log[j].0,
                        log[j].1 as nat,
                    ) == 2 * j + 1),
                forall|j: nat|
                    j < k ==> log[(#[trigger] residue(b, j)) / 2].1 != u32::MAX && log[(pow2(b) - residue(b, j)) / 2].1
                        != u32::MAX,
            decreases period - k,
        {
            proof {
                lemma_residue_odd(b, k as nat);
            }
            antilog.push(v as u32);
            let ghost l0 = log@;
            log.set((v / 2) as usize, (false, k as u32));
            let neg = modulus - v;
            proof {
                assert(neg % 2 == 1) by {
                    lemma_fundamental_div_mod(v as int, 2);
                    lemma_fundamental_div_mod_converse(neg as int, 2, pow2((b - 1) as nat) - v / 2 - 1, 1);
                }
            }
            let ghost l1 = log@;
            log.set((neg / 2) as usize, (true, k as u32));
            proof {
                lemma_log_step(b, k as nat, l0, l1, log@, v as int, neg as int);
                lemma_pow_adds(5, k as nat, 1);
                lemma_pow1(5);
                lemma_mul_mod_noop_left(pow(5, k as nat), 5, pow2(b) as int);
            }
            v = (v * 5) % modulus;
            k += 1;
        }
        proof {
            lemma_log_filled(b, log@);
        }
        Fiber { bits, antilog, log }
    }

    pub fn period(&self) -> (p: u32)
        requires
            3 <= self.bits <= 30,
        ensures
            p == period_of(self.bits as nat),
            p > 0,
    {
        proof {
            lemma2_to64();
            lemma_pow2_strictly_increases((self.bits - 2) as nat, 32);
            lemma_u32_shl_is_mul(1, (self.bits - 2) as u32);
            lemma_pow2_pos((self.bits - 2) as nat);
        }
        1u32 << (self.bits - 2)
    }

    /// Position of an odd m (as a residue mod 2^bits): (sign, k).
    pub fn position(&self, m: u32) -> (r: (bool, u32))
        requires
            self.wf(),
            m % 2 == 1,
            m < pow2(self.bits as nat),
        ensures
            r == self.log[(m / 2) as int],
            r.1 < period_of(self.bits as nat),
            odd_at(self.bits as nat, r.0, r.1 as nat) == m,
    {
        proof {
            lemma_pow2_unfold(self.bits as nat);
        }
        self.log[(m / 2) as usize]
    }

    /// The odd residue at a position.
    pub fn value(&self, neg: bool, k: u32) -> (r: u32)
        requires
            self.wf(),
        ensures
            r == odd_at(self.bits as nat, neg, k as nat),
    {
        let p = self.period();
        let v = self.antilog[(k % p) as usize];
        proof {
            lemma_residue_periodic(self.bits as nat, k as nat);
            lemma_residue_odd(self.bits as nat, (k % p) as nat);
        }
        if neg {
            proof {
                lemma2_to64();
                lemma_pow2_strictly_increases(self.bits as nat, 64);
                lemma_pow2_strictly_increases(self.bits as nat, 32);
                lemma_u64_shl_is_mul(1, self.bits as u64);
            }
            ((1u64 << self.bits) - v as u64) as u32
        } else {
            v
        }
    }

    /// Position of the product: signs xor, positions add.
    pub fn mul(&self, a: (bool, u32), b: (bool, u32)) -> (r: (bool, u32))
        requires
            3 <= self.bits <= 30,
            a.1 + b.1 <= u32::MAX,
        ensures
            r.0 == (a.0 != b.0),
            r.1 == (a.1 + b.1) % (period_of(self.bits as nat) as int),
    {
        (a.0 != b.0, (a.1 + b.1) % self.period())
    }

    /// Position of the inverse: 1/value = −k.
    pub fn inv(&self, a: (bool, u32)) -> (r: (bool, u32))
        requires
            3 <= self.bits <= 30,
            a.1 <= period_of(self.bits as nat),
        ensures
            r.0 == a.0,
            r.1 == (period_of(self.bits as nat) - a.1) % (period_of(self.bits as nat) as int),
    {
        let p = self.period();
        (a.0, (p - a.1) % p)
    }
}

/// A cell <m|n> with sign as a point of the fiber bundle: (sign, k on the torus, rung n).
pub fn cell_position(f: &Fiber, negative: bool, m: u8, n: i16) -> (r: (bool, u32, i16))
    requires
        f.wf(),
        f.bits >= 8,
        m % 2 == 1,
    ensures
        r.0 == (negative != f.log[(m / 2) as int].0),
        r.1 == f.log[(m / 2) as int].1,
        r.2 == n,
        r.1 < period_of(f.bits as nat),
        odd_at(f.bits as nat, r.0 != negative, r.1 as nat) == m,
{
    proof {
        lemma2_to64();
        if f.bits > 8 {
            lemma_pow2_strictly_increases(8, f.bits as nat);
        }
    }
    let (s, k) = f.position(m as u32);
    (negative != s, k, n)
}


/// The point of the bundle that the cell (negative, m, n) with m odd is given: its sign flip,
/// its position, its rung.
pub open spec fn cell_point(f: Fiber, negative: bool, m: int, n: int) -> (bool, u32, int) {
    (negative != f.log[m / 2].0, f.log[m / 2].1, n)
}

/// On a torus of at least 9 bits the nonzero finite patterns are distinct points: two patterns
/// whose cells (as `decompose` gives them) land on one point are one pattern.
pub proof fn lemma_cells_are_distinct_points(
    f: Fiber,
    p: u16,
    q: u16,
    sp: int,
    mp: int,
    np: int,
    sq: int,
    mq: int,
    nq: int,
)
    requires
        f.wf(),
        f.bits >= 9,
        finite(p),
        finite(q),
        is_cell_of(p, sp, mp, np),
        is_cell_of(q, sq, mq, nq),
        0 <= mp < 256,
        0 <= mq < 256,
        mp % 2 == 1,
        mq % 2 == 1,
        cell_point(f, sp == 1, mp, np) == cell_point(f, sq == 1, mq, nq),
    ensures
        p == q,
{
    let bits = f.bits as nat;
    lemma_pow2_unfold(bits);
    lemma2_to64();
    if bits - 1 > 8 {
        lemma_pow2_strictly_increases(8, (bits - 1) as nat);
    }
    let jp = mp / 2;
    let jq = mq / 2;
    assert(odd_at(bits, f.log[jp].0, f.log[jp].1 as nat) == 2 * jp + 1);
    assert(odd_at(bits, f.log[jq].0, f.log[jq].1 as nat) == 2 * jq + 1);
    if f.log[jp].0 != f.log[jq].0 {
        if bits > 9 {
            lemma_pow2_strictly_increases(9, bits);
        }
        assert(pow2(9) == 512);
        assert(mp + mq == pow2(bits));
        assert(false);
    }
    assert(mp == mq);
    lemma_round_trip(p, sp, mp, np);
    lemma_round_trip(q, sq, mq, nq);
}

} // verus!
