//! The lane in residue rings: a product reduced modulo a prime ring by Shoup's method, and an
//! inverse modulo the ring by Fermat's power.

use vstd::arithmetic::power::pow;
use vstd::arithmetic::power2::pow2;
use vstd::prelude::*;

verus! {

/// 2^64.
pub open spec fn p64() -> int {
    0x1_0000_0000_0000_0000int
}

/// Shoup's precomputed companion of w in the ring of p: ⌊w·2^64 / p⌋.
pub open spec fn shoup_companion(w: int, p: int) -> int {
    (w * p64()) / p
}

/// a·w mod p, with the companion w' = ⌊w·2^64/p⌋ precomputed: one high multiply estimates the
/// quotient, and one conditional subtraction corrects it.
pub fn shoup(a: u64, w: u64, wp: u64, p: u64) -> (r: u64)
    requires
        a < p,
        w < p,
        p < 0x8000_0000,
        wp == shoup_companion(w as int, p as int),
    ensures
        r == (a as int * w as int) % (p as int),
{
    proof {
        vstd::arithmetic::power2::lemma2_to64();
        vstd::arithmetic::power2::lemma2_to64_rest();
        assert(pow2(64) == p64()) by {
            vstd::arithmetic::power2::lemma_pow2_adds(32, 32);
        }
        vstd::arithmetic::div_mod::lemma_fundamental_div_mod(w as int * p64(), p as int);
        assert(a * wp <= 0x8000_0000 * 0x1_0000_0000_0000_0000) by (nonlinear_arith)
            requires a < 0x8000_0000, wp < 0x1_0000_0000_0000_0000int;
    }
    let prod: u128 = (a as u128) * (wp as u128);
    proof {
        vstd::bits::lemma_u128_shr_is_div(prod, 64);
    }
    let q = (prod >> 64) as u64;
    let ghost qi = q as int;
    proof {
        let wpi = wp as int;
        let ai = a as int;
        let wi = w as int;
        let pi = p as int;
        let m = p64();
        vstd::arithmetic::div_mod::lemma_fundamental_div_mod(ai * wpi, m);
        assert(qi == (ai * wpi) / m);
        // wp·p ≤ w·2^64 < (wp + 1)·p
        assert(wpi * pi <= wi * m && wi * m < (wpi + 1) * pi) by (nonlinear_arith)
            requires
                wi * m == pi * wpi + (wi * m) % pi,
                0 <= (wi * m) % pi < pi,
        ;
        // q·2^64 ≤ a·wp < (q + 1)·2^64
        assert(qi * m <= ai * wpi && ai * wpi < (qi + 1) * m) by (nonlinear_arith)
            requires
                ai * wpi == m * qi + (ai * wpi) % m,
                0 <= (ai * wpi) % m < m,
        ;
        assert(ai * pi < m) by (nonlinear_arith)
            requires 0 <= ai < 0x8000_0000, 0 < pi < 0x8000_0000, m == 0x1_0000_0000_0000_0000int;
        assert(qi * pi <= ai * wi) by (nonlinear_arith)
            requires qi * m <= ai * wpi, wpi * pi <= wi * m, ai >= 0, pi > 0, m > 0;
        assert(ai * wi <= (qi + 1) * pi) by (nonlinear_arith)
            requires
                ai * wpi < (qi + 1) * m,
                wi * m < (wpi + 1) * pi,
                0 <= ai < pi,
                pi < 0x8000_0000,
                m == 0x1_0000_0000_0000_0000int,
                ai * pi < m,
        ;
        assert(ai * wi < 0x8000_0000 * 0x8000_0000) by (nonlinear_arith)
            requires 0 <= ai < 0x8000_0000, 0 <= wi < 0x8000_0000;
    }
    let aw = a * w;
    let qp = q * p;
    let r = aw - qp;
    let r = if r >= p { r - p } else { r };
    proof {
        assert(aw == a as int * w as int);
        assert(qp == qi * p as int);
        assert((qi + 1) * (p as int) == qi * (p as int) + p as int) by (nonlinear_arith);
        assert(a as int * w as int <= (qi + 1) * (p as int));
        assert(aw - qp <= p);
        let qq = if aw - qp >= p { qi + 1 } else { qi };
        assert(a as int * w as int == qq * p as int + r as int) by (nonlinear_arith)
            requires
                aw == a as int * w as int,
                qp == qi * p as int,
                qq == if aw - qp >= p { qi + 1 } else { qi },
                r == if aw - qp >= p { aw - qp - p } else { aw - qp },
        ;
        vstd::arithmetic::div_mod::lemma_fundamental_div_mod_converse(a as int * w as int, p as int, qq, r as int);
    }
    r
}

/// a to the e, modulo p, by squaring: the result as the power's remainder.
pub open spec fn pow_mod(a: int, e: nat, p: int) -> int {
    pow(a, e) % p
}

/// The inverse of a in the ring of p by Fermat: a^(p−2) mod p, by square and multiply.
pub fn modinv(a: u64, p: u64) -> (r: u64)
    requires
        2 <= p,
    ensures
        r == pow_mod(a as int % p as int, (p - 2) as nat, p as int),
{
    let pp = p as u128;
    let mut r: u128 = 1;
    let mut b: u128 = a as u128 % pp;
    let mut e: u64 = p - 2;
    let ghost a0 = a as int % p as int;
    proof {
        vstd::arithmetic::power::lemma_pow0(a0);
        vstd::arithmetic::div_mod::lemma_small_mod(1, p as nat);
        vstd::arithmetic::power::lemma_pow1(b as int);
    }
    while e > 0
        invariant
            pp == p,
            p >= 2,
            r < pp,
            b < pp,
            (r as int * pow(b as int, e as nat)) % (p as int) == pow(a0, (p - 2) as nat) % (p as int),
        decreases e,
    {
        let ghost (r0, b0, e0) = (r as int, b as int, e as nat);
        proof {
            assert(r0 * b0 < pp * pp) by (nonlinear_arith) requires 0 <= r0 < pp, 0 <= b0 < pp;
            assert(b0 * b0 < pp * pp) by (nonlinear_arith) requires 0 <= b0 < pp;
            assert(pp * pp <= 0xFFFF_FFFF_FFFF_FFFF * 0xFFFF_FFFF_FFFF_FFFF) by (nonlinear_arith) requires pp <= 0xFFFF_FFFF_FFFF_FFFF;
        }
        if e & 1 == 1 {
            r = r * b % pp;
        }
        b = b * b % pp;
        let ghost e1 = (e / 2) as nat;
        proof {
            assert(e & 1 == e % 2) by (bit_vector);
            lemma_square_step(r0, b0, e0, p as int);
        }
        e = e >> 1;
        proof {
            assert(e == e0 / 2) by {
                vstd::bits::lemma_u64_shr_is_div(e0 as u64, 1);
                vstd::arithmetic::power2::lemma2_to64();
            }
        }
    }
    proof {
        vstd::arithmetic::power::lemma_pow0(b as int);
        vstd::arithmetic::div_mod::lemma_small_mod(r as nat, p as nat);
    }
    r as u64
}

/// One step of square and multiply keeps r·b^e mod p.
proof fn lemma_square_step(r: int, b: int, e: nat, p: int)
    requires
        p >= 2,
        0 <= r < p,
        0 <= b < p,
        e > 0,
    ensures
        ((if e % 2 == 1 { (r * b) % p } else { r }) * pow((b * b) % p, e / 2)) % p == (r * pow(b, e)) % p,
{
    let h = e / 2;
    vstd::arithmetic::div_mod::lemma_fundamental_div_mod(e as int, 2);
    // b^e = (b·b)^h · b^(e mod 2)
    assert(pow(b, e) == pow(b * b, h) * pow(b, e % 2)) by {
        vstd::arithmetic::power::lemma_pow_multiplies(b, 2, h);
        vstd::arithmetic::power::lemma_pow_adds(b, 2 * h, e % 2);
        vstd::arithmetic::power::lemma_square_is_pow2(b);
        assert(2 * h + e % 2 == e);
    }
    // (b·b mod p)^h ≡ (b·b)^h
    vstd::arithmetic::power::lemma_pow_mod_noop(b * b, h, p);
    let x = pow((b * b) % p, h);
    let y = pow(b * b, h);
    assert(x % p == y % p);
    if e % 2 == 1 {
        vstd::arithmetic::power::lemma_pow1(b);
        vstd::arithmetic::div_mod::lemma_mul_mod_noop_general(r * b, x, p);
        vstd::arithmetic::div_mod::lemma_mul_mod_noop_general(r * b, y, p);
        assert(((r * b) % p * x) % p == ((r * b) * y) % p) by {
            vstd::arithmetic::div_mod::lemma_mul_mod_noop_general(r * b, x, p);
            vstd::arithmetic::div_mod::lemma_mul_mod_noop_general(r * b, y, p);
            vstd::arithmetic::div_mod::lemma_mul_mod_noop_left((r * b) % p, x, p);
        }
        assert((r * b) * y == r * (y * b)) by (nonlinear_arith);
    } else {
        vstd::arithmetic::power::lemma_pow0(b);
        vstd::arithmetic::div_mod::lemma_mul_mod_noop_general(r, x, p);
        vstd::arithmetic::div_mod::lemma_mul_mod_noop_general(r, y, p);
        assert(y * 1 == y);
    }
}


/// Garner's reconstruction over the first i rings: (x, m), x the value so far and m the
/// product of the rings; each ring adds m·t with t = (r − x)·m⁻¹ mod p, the inverse by Fermat.
pub open spec fn garner(res: Seq<u64>, primes: Seq<u64>, i: int) -> (int, int)
    decreases i,
{
    if i <= 0 {
        (0, 1)
    } else if i == 1 {
        (res[0] as int, primes[0] as int)
    } else {
        let (x, m) = garner(res, primes, i - 1);
        let p = primes[i - 1] as int;
        let xm = x % p;
        let inv = pow_mod(m % p, (p - 2) as nat, p);
        let diff = (res[i - 1] + p - xm) % p;
        let t = (diff * inv) % p;
        (x + m * t, m * p)
    }
}

/// The residues read back as one integer, centred into (−M/2, M/2].
pub open spec fn crt_value(res: Seq<u64>, primes: Seq<u64>) -> int {
    let (x, m) = garner(res, primes, res.len() as int);
    if x > m / 2 { x - m } else { x }
}

/// Rings the reconstruction can run over: one residue per ring, each below its ring, every ring
/// at least 2 and below 2^63.
pub open spec fn rings_ok(res: Seq<u64>, primes: Seq<u64>) -> bool {
    &&& res.len() <= primes.len()
    &&& forall|i: int| 0 <= i < res.len() ==> 2 <= #[trigger] primes[i] < 0x8000_0000_0000_0000 && res[i] < primes[i]
}

proof fn lemma_garner_pos(res: Seq<u64>, primes: Seq<u64>, i: int)
    requires
        rings_ok(res, primes),
        0 <= i <= res.len(),
    ensures
        garner(res, primes, i).0 >= 0,
        garner(res, primes, i).1 >= 1,
    decreases i,
{
    if i > 1 {
        lemma_garner_pos(res, primes, i - 1);
        let (x, m) = garner(res, primes, i - 1);
        let p = primes[i - 1] as int;
        let t = ((res[i - 1] + p - x % p) % p * pow_mod(m % p, (p - 2) as nat, p)) % p;
        assert(t >= 0);
        assert(m * t >= 0) by (nonlinear_arith)
            requires m >= 1, t >= 0;
        assert(m * p >= 1) by (nonlinear_arith)
            requires m >= 1, p >= 2;
    }
}

/// The integer the residues stand for, rebuilt by Garner and centred into (−M/2, M/2].
pub fn crt(res: &[u64], primes: &[u64]) -> (r: crate::big::Big)
    requires
        rings_ok(res@, primes@),
    ensures
        r.val() == crt_value(res@, primes@),
{
    let mut m = crate::big::Big::of(1);
    let mut x = crate::big::Big::zero();
    let mut i: usize = 0;
    while i < res.len()
        invariant
            i <= res.len(),
            rings_ok(res@, primes@),
            (x.val(), m.val()) == garner(res@, primes@, i as int),
        decreases res.len() - i,
    {
        let p = primes[i];
        let pb = crate::big::Big::of_u64(p);
        if i == 0 {
            x = crate::big::Big::of_u64(res[i]);
            m = pb;
            i += 1;
            continue;
        }
        proof {
            lemma_garner_pos(res@, primes@, i as int);
        }
        let (_, xr) = crate::big::big_div_rem(&x, &pb);
        let (_, mr) = crate::big::big_div_rem(&m, &pb);
        proof {
            assert(xr.val() == x.val() % (p as int));
            assert(mr.val() == m.val() % (p as int));
        }
        let xm_u = match crate::big::big_to_u64(&xr) {
            Some(v) => v,
            None => {
                proof {
                    assert(false);
                }
                0
            },
        };
        let mm_u = match crate::big::big_to_u64(&mr) {
            Some(v) => v,
            None => {
                proof {
                    assert(false);
                }
                0
            },
        };
        let inv = modinv(mm_u, p);
        proof {
            vstd::arithmetic::div_mod::lemma_mod_bound(mm_u as int, p as int);
            vstd::arithmetic::div_mod::lemma_small_mod(mm_u as nat, p as nat);
            vstd::arithmetic::div_mod::lemma_mod_bound(vstd::arithmetic::power::pow(mm_u as int, (p - 2) as nat), p as int);
        }
        let diff = (res[i] + p - xm_u) % p;
        proof {
            assert(inv < p);
            assert(diff < p);
            assert((diff as int) * (inv as int) < 0x8000_0000_0000_0000 * 0x8000_0000_0000_0000) by (nonlinear_arith)
                requires diff < 0x8000_0000_0000_0000, inv < 0x8000_0000_0000_0000;
        }
        let t = ((diff as u128) * (inv as u128) % (p as u128)) as u64;
        x = x.add(&m.mul(&crate::big::Big::of_u64(t)));
        m = m.mul(&pb);
        i += 1;
    }
    let half = crate::big::big_shr(&m, 1);
    proof {
        vstd::arithmetic::power2::lemma2_to64();
    }
    if half.lt(&x) {
        x.sub(&m)
    } else {
        x
    }
}


/// The Fermat inverse times a is a^(p−1) in the ring of p: 1 whenever p is a prime not dividing
/// a, which is what makes modinv an inverse.
pub proof fn lemma_modinv_times(a: int, p: int)
    requires
        p >= 2,
    ensures
        (pow_mod(a % p, (p - 2) as nat, p) * a) % p == pow_mod(a % p, (p - 1) as nat, p),
{
    let b = a % p;
    let e = (p - 2) as nat;
    vstd::arithmetic::div_mod::lemma_mul_mod_noop_left(pow(b, e), a, p);
    vstd::arithmetic::div_mod::lemma_mul_mod_noop_right(pow(b, e), a, p);
    vstd::arithmetic::power::lemma_pow1(b);
    vstd::arithmetic::power::lemma_pow_adds(b, e, 1);
    assert(pow(b, e) * pow(b, 1) == pow(b, (p - 1) as nat));
}

/// Each ring's Fermat power inverts the product of the rings before it: what Fermat's little
/// theorem gives when the rings are distinct primes.
pub open spec fn inverts(res: Seq<u64>, primes: Seq<u64>) -> bool {
    forall|i: int|
        1 <= i < res.len() ==> ((garner(res, primes, i).1 % (primes[i] as int)) * pow_mod(
            #[trigger] garner(res, primes, i).1 % (primes[i] as int),
            (primes[i] - 2) as nat,
            primes[i] as int,
        )) % (primes[i] as int) == 1
}

proof fn lemma_step_mod(x: int, m: int, p: int, r: int, inv: int, t: int)
    requires
        p >= 2,
        0 <= r < p,
        ((m % p) * inv) % p == 1,
        t == (((r + p - x % p) % p) * inv) % p,
    ensures
        (x + m * t) % p == r,
{
    let a = x % p;
    let d = (r + p - a) % p;
    // m·t ≡ m·(d·inv)
    vstd::arithmetic::div_mod::lemma_mul_mod_noop_right(m, d * inv, p);
    assert((m * t) % p == (m * (d * inv)) % p);
    assert(m * (d * inv) == d * (m * inv)) by (nonlinear_arith);
    // d·(m·inv) ≡ d·1
    vstd::arithmetic::div_mod::lemma_mul_mod_noop_left(m, inv, p);
    assert((m * inv) % p == 1);
    vstd::arithmetic::div_mod::lemma_mul_mod_noop_right(d, m * inv, p);
    assert((d * (m * inv)) % p == (d * 1) % p);
    assert((m * t) % p == d % p);
    // x + m·t ≡ a + d ≡ r + p ≡ r
    vstd::arithmetic::div_mod::lemma_add_mod_noop(x, m * t, p);
    assert((x + m * t) % p == (a + d % p) % p);
    vstd::arithmetic::div_mod::lemma_mod_twice(r + p - a, p);
    vstd::arithmetic::div_mod::lemma_add_mod_noop(a, r + p - a, p);
    vstd::arithmetic::div_mod::lemma_mod_twice(x, p);
    assert((a + d % p) % p == (a % p + (r + p - a) % p) % p);
    assert((a + (r + p - a)) == r + p);
    vstd::arithmetic::div_mod::lemma_mod_multiples_vanish(1, r, p);
    vstd::arithmetic::div_mod::lemma_small_mod(r as nat, p as nat);
}

proof fn lemma_garner_residues(res: Seq<u64>, primes: Seq<u64>, i: int)
    requires
        rings_ok(res, primes),
        inverts(res, primes),
        1 <= i <= res.len(),
    ensures
        forall|j: int| 0 <= j < i ==> #[trigger] (garner(res, primes, i).0 % (primes[j] as int)) == res[j] as int,
        forall|j: int| 0 <= j < i ==> #[trigger] (garner(res, primes, i).1 % (primes[j] as int)) == 0,
    decreases i,
{
    if i == 1 {
        let p0 = primes[0] as int;
        vstd::arithmetic::div_mod::lemma_small_mod(res[0] as nat, p0 as nat);
        vstd::arithmetic::div_mod::lemma_mod_self_0(p0);
    } else {
        lemma_garner_residues(res, primes, i - 1);
        lemma_garner_pos(res, primes, i - 1);
        let (x, m) = garner(res, primes, i - 1);
        let p = primes[i - 1] as int;
        let inv = pow_mod(m % p, (p - 2) as nat, p);
        let t = (((res[i - 1] + p - x % p) % p) * inv) % p;
        assert(garner(res, primes, i) == (x + m * t, m * p));
        assert(((m % p) * inv) % p == 1);
        lemma_step_mod(x, m, p, res[i - 1] as int, inv, t);
        assert forall|j: int| 0 <= j < i implies #[trigger] (garner(res, primes, i).0 % (primes[j] as int)) == res[j] as int by {
            if j < i - 1 {
                let q = primes[j] as int;
                assert(m % q == 0);
                vstd::arithmetic::div_mod::lemma_add_mod_noop(x, m * t, q);
                vstd::arithmetic::div_mod::lemma_mul_mod_noop_left(m, t, q);
                assert((m * t) % q == (0 * t) % q);
                assert((x + m * t) % q == (x % q + 0) % q);
                vstd::arithmetic::div_mod::lemma_mod_twice(x, q);
            }
        }
        assert forall|j: int| 0 <= j < i implies #[trigger] (garner(res, primes, i).1 % (primes[j] as int)) == 0 by {
            let q = primes[j] as int;
            if j < i - 1 {
                vstd::arithmetic::div_mod::lemma_mul_mod_noop_left(m, p, q);
                assert((m * p) % q == (0 * p) % q);
            } else {
                vstd::arithmetic::div_mod::lemma_mod_multiples_basic(m, p);
            }
        }
    }
}

/// Where each ring's Fermat power inverts the product of the rings before it (as it does over
/// distinct primes), the rebuilt integer has every given residue: crt_value ≡ res[j] mod p_j.
pub proof fn lemma_crt_residues(res: Seq<u64>, primes: Seq<u64>, j: int)
    requires
        rings_ok(res, primes),
        inverts(res, primes),
        0 <= j < res.len(),
    ensures
        crt_value(res, primes) % (primes[j] as int) == res[j] as int,
{
    let n = res.len() as int;
    lemma_garner_residues(res, primes, n);
    let (x, m) = garner(res, primes, n);
    let q = primes[j] as int;
    assert(x % q == res[j] as int);
    assert(m % q == 0);
    if x > m / 2 {
        vstd::arithmetic::div_mod::lemma_add_mod_noop(x, -m, q);
        vstd::arithmetic::div_mod::lemma_mod_multiples_vanish(-1, 0, q);
        assert((-m) % q == 0) by {
            vstd::arithmetic::div_mod::lemma_fundamental_div_mod(m, q);
            let k = m / q;
            assert(m == q * k);
            assert(-m == q * (-k) + 0) by (nonlinear_arith)
                requires m == q * k;
            vstd::arithmetic::div_mod::lemma_mod_multiples_vanish(-k, 0, q);
        }
        assert((x - m) % q == (x % q + 0) % q);
        vstd::arithmetic::div_mod::lemma_mod_twice(x, q);
    }
}
} // verus!
