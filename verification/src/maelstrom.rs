//! The number generation, as an object: all integers, all adds and shifts.
//!
//! 1. The mediant tree (Stern-Brocot). Each row is minted from the previous by one integer add
//!    per numerator and one per denominator. Two neighbours a/b, c/d always satisfy
//!    b·c − a·d = 1. The largest number minted at depth k is F(k+2): the Fibonacci frontier.
//! 2. The two rays. φ as an integer pair (a, b) = a + b·φ with φ² = φ + 1. The pair
//!    coordinates of φ^n are (F(n−1), F(n)); the trace 2a + b is L(n). One object, two rays.
//!    Which integers are born on which ray, and the ladder 1..13 that closes only with both.
//! 3. The seam. Twin primes p, p+2 and the number between.

use vstd::arithmetic::div_mod::*;
use vstd::arithmetic::power2::*;
use vstd::prelude::*;

verus! {

// ── 1 + 2: sequences and the pair ring ───────────────────────────────────────

/// The Fibonacci numbers.
pub open spec fn fib_spec(n: nat) -> nat
    decreases n,
{
    if n == 0 {
        0
    } else if n == 1 {
        1
    } else {
        fib_spec((n - 2) as nat) + fib_spec((n - 1) as nat)
    }
}

/// The Lucas numbers.
pub open spec fn lucas_spec(n: nat) -> nat
    decreases n,
{
    if n == 0 {
        2
    } else if n == 1 {
        1
    } else {
        lucas_spec((n - 2) as nat) + lucas_spec((n - 1) as nat)
    }
}

/// F(n − 1), with F(−1) = 1 (the coordinate of φ^0 = 1).
pub open spec fn fib_before(n: nat) -> nat {
    if n == 0 {
        1
    } else {
        fib_spec((n - 1) as nat)
    }
}

pub proof fn lemma_fib_mono(i: nat, j: nat)
    requires
        i <= j,
    ensures
        fib_spec(i) <= fib_spec(j),
    decreases j,
{
    if i < j {
        lemma_fib_mono(i, (j - 1) as nat);
        if j >= 2 {
            assert(fib_spec(j) == fib_spec((j - 2) as nat) + fib_spec((j - 1) as nat));
        }
    }
}

/// Past the two ones the Fibonacci numbers strictly increase.
pub proof fn lemma_fib_strict(i: nat, j: nat)
    requires
        2 <= i < j,
    ensures
        fib_spec(i) < fib_spec(j),
    decreases j,
{
    lemma_fib_pos((j - 2) as nat);
    if i < j - 1 {
        lemma_fib_strict(i, (j - 1) as nat);
    }
}

proof fn lemma_fib_pos(n: nat)
    requires
        n >= 1,
    ensures
        fib_spec(n) >= 1,
    decreases n,
{
    if n >= 2 {
        assert(fib_spec(n) == fib_spec((n - 2) as nat) + fib_spec((n - 1) as nat));
        if n > 2 {
            lemma_fib_pos((n - 1) as nat);
        }
    }
}

proof fn lemma_lucas_pos(n: nat)
    ensures
        lucas_spec(n) >= 1,
    decreases n,
{
    if n >= 2 {
        lemma_lucas_pos((n - 1) as nat);
    }
}

pub proof fn lemma_lucas_mono(i: nat, j: nat)
    requires
        1 <= i <= j,
    ensures
        lucas_spec(i) <= lucas_spec(j),
    decreases j,
{
    if i < j {
        lemma_lucas_mono(i, (j - 1) as nat);
    }
}

/// Past L(1) = 1 the Lucas numbers strictly increase.
pub proof fn lemma_lucas_strict(i: nat, j: nat)
    requires
        1 <= i < j,
    ensures
        lucas_spec(i) < lucas_spec(j),
    decreases j,
{
    lemma_lucas_pos((j - 2) as nat);
    assert(lucas_spec(j) == lucas_spec((j - 2) as nat) + lucas_spec((j - 1) as nat));
    if i < j - 1 {
        lemma_lucas_strict(i, (j - 1) as nat);
    }
}

/// F(n) ≤ 2^n and L(n) ≤ 2^(n+1): the rays fit a word for small indices.
pub proof fn lemma_rays_below_pow2(n: nat)
    ensures
        fib_spec(n) <= pow2(n),
        lucas_spec(n) <= pow2(n + 1),
    decreases n,
{
    lemma2_to64();
    if n >= 2 {
        lemma_rays_below_pow2((n - 1) as nat);
        lemma_rays_below_pow2((n - 2) as nat);
        lemma_pow2_unfold(n);
        lemma_pow2_unfold((n - 1) as nat);
        lemma_pow2_unfold(n + 1);
    }
}

pub fn fib(n: usize) -> (r: u128)
    requires
        fib_spec((n + 1) as nat) <= u128::MAX,
    ensures
        r == fib_spec(n as nat),
{
    let (mut a, mut b) = (0u128, 1u128);
    let mut i: usize = 0;
    while i < n
        invariant
            0 <= i <= n,
            fib_spec((n + 1) as nat) <= u128::MAX,
            a == fib_spec(i as nat),
            b == fib_spec((i + 1) as nat),
        decreases n - i,
    {
        proof {
            lemma_fib_mono((i + 2) as nat, (n + 1) as nat);
        }
        let t = a + b;
        a = b;
        b = t;
        i += 1;
    }
    a
}

pub fn lucas(n: usize) -> (r: u128)
    requires
        lucas_spec((n + 1) as nat) <= u128::MAX,
    ensures
        r == lucas_spec(n as nat),
{
    let (mut a, mut b) = (2u128, 1u128);
    let mut i: usize = 0;
    while i < n
        invariant
            0 <= i <= n,
            lucas_spec((n + 1) as nat) <= u128::MAX,
            a == lucas_spec(i as nat),
            b == lucas_spec((i + 1) as nat),
        decreases n - i,
    {
        proof {
            lemma_lucas_mono((i + 2) as nat, (n + 1) as nat);
        }
        let t = a + b;
        a = b;
        b = t;
        i += 1;
    }
    a
}

/// a + b·φ, φ² = φ + 1.
#[derive(Clone, Copy, Debug, PartialEq, Eq, Structural)]
pub struct Pair {
    pub a: i128,
    pub b: i128,
}

pub open spec fn fits(x: int) -> bool {
    i128::MIN <= x <= i128::MAX
}

impl Pair {
    /// The unit 1 + 0·φ.
    pub fn one() -> (r: Pair)
        ensures
            r.a == 1 && r.b == 0,
    {
        Pair { a: 1, b: 0 }
    }

    /// φ itself, 0 + 1·φ.
    pub fn phi() -> (r: Pair)
        ensures
            r.a == 0 && r.b == 1,
    {
        Pair { a: 0, b: 1 }
    }

    pub fn mul(self, o: Pair) -> (r: Pair)
        requires
            fits(self.a * o.a),
            fits(self.b * o.b),
            fits(self.a * o.a + self.b * o.b),
            fits(self.a * o.b),
            fits(self.b * o.a),
            fits(self.a * o.b + self.b * o.a),
            fits(self.a * o.b + self.b * o.a + self.b * o.b),
        ensures
            r.a == self.a * o.a + self.b * o.b,
            r.b == self.a * o.b + self.b * o.a + self.b * o.b,
    {
        Pair { a: self.a * o.a + self.b * o.b, b: self.a * o.b + self.b * o.a + self.b * o.b }
    }

    pub fn add(self, o: Pair) -> (r: Pair)
        requires
            fits(self.a + o.a),
            fits(self.b + o.b),
        ensures
            r.a == self.a + o.a,
            r.b == self.b + o.b,
    {
        Pair { a: self.a + o.a, b: self.b + o.b }
    }

    /// Galois conjugate φ → 1 − φ.
    pub fn conj(self) -> (r: Pair)
        requires
            fits(self.a + self.b),
            self.b > i128::MIN,
        ensures
            r.a == self.a + self.b,
            r.b == -self.b,
    {
        Pair { a: self.a + self.b, b: -self.b }
    }

    /// Tr(a + b·φ) = 2a + b (= self + conj, φ part zero).
    pub fn trace(self) -> (t: i128)
        requires
            fits(2 * self.a),
            fits(2 * self.a + self.b),
        ensures
            t == 2 * self.a + self.b,
    {
        2 * self.a + self.b
    }

    pub fn norm(self) -> (r: i128)
        requires
            fits(self.a * self.a),
            fits(self.a * self.b),
            fits(self.b * self.b),
            fits(self.a * self.a + self.a * self.b),
            fits(self.a * self.a + self.a * self.b - self.b * self.b),
        ensures
            r == self.a * self.a + self.a * self.b - self.b * self.b,
    {
        self.a * self.a + self.a * self.b - self.b * self.b
    }
}

/// φ^n as a pair: its coordinates are (F(n−1), F(n)).
pub fn phi_pow(n: usize) -> (x: Pair)
    requires
        fib_spec(n as nat) <= i128::MAX,
    ensures
        x.a == fib_before(n as nat),
        x.b == fib_spec(n as nat),
{
    let mut x = Pair::one();
    let mut i: usize = 0;
    while i < n
        invariant
            0 <= i <= n,
            fib_spec(n as nat) <= i128::MAX,
            x.a == fib_before(i as nat),
            x.b == fib_spec(i as nat),
        decreases n - i,
    {
        proof {
            lemma_fib_mono((i + 1) as nat, n as nat);
            lemma_fib_mono(i as nat, n as nat);
            if i >= 1 {
                lemma_fib_mono((i - 1) as nat, n as nat);
            }
            assert(fib_before(i as nat) + fib_spec(i as nat) == fib_spec((i + 1) as nat));
        }
        x = x.mul(Pair::phi());
        i += 1;
    }
    x
}

/// One object, two rays: the trace of φ^n, 2·F(n−1) + F(n), is the Lucas number L(n).
pub proof fn lemma_trace_is_lucas(n: nat)
    ensures
        2 * fib_before(n) + fib_spec(n) == lucas_spec(n),
    decreases n,
{
    if n >= 2 {
        lemma_trace_is_lucas((n - 1) as nat);
        lemma_trace_is_lucas((n - 2) as nat);
        if n >= 3 {
            assert(fib_spec((n - 1) as nat) == fib_spec((n - 3) as nat) + fib_spec((n - 2) as nat));
        }
    }
}

/// The norm of φ^n is (−1)^n: F(n−1)² + F(n−1)·F(n) − F(n)² = ±1, alternating.
pub proof fn lemma_norm_alternates(n: nat)
    ensures
        fib_before(n) * fib_before(n) + fib_before(n) * fib_spec(n) - fib_spec(n) * fib_spec(n) == (if n % 2 == 0 {
            1int
        } else {
            -1int
        }),
    decreases n,
{
    if n >= 1 {
        lemma_norm_alternates((n - 1) as nat);
        let a = fib_before((n - 1) as nat) as int;
        let b = fib_spec((n - 1) as nat) as int;
        assert(fib_before(n) == b);
        assert(fib_spec(n) == a + b) by {
            if n >= 2 {
                assert(fib_spec(n) == fib_spec((n - 2) as nat) + fib_spec((n - 1) as nat));
            }
        }
        let fa = fib_before(n) as int;
        let fb = fib_spec(n) as int;
        assert(fa * fa + fa * fb - fb * fb == -(a * a + a * b - b * b)) by (nonlinear_arith)
            requires fa == b, fb == a + b;
        let prev = a * a + a * b - b * b;
        assert(prev == (if ((n - 1) as nat) % 2 == 0 { 1int } else { -1int }));
        assert((n % 2 == 0) == (((n - 1) as nat) % 2 == 1));
        assert(fa * fa + fa * fb - fb * fb == (if n % 2 == 0 { 1int } else { -1int }));
    } else {
        assert(fib_before(n) == 1);
        assert(fib_spec(n) == 0);
    }
}


// ── primes and factors ───────────────────────────────────────────────────────

/// n has no divisor in [lo, hi).
pub open spec fn no_divisor_in(n: nat, lo: nat, hi: nat) -> bool {
    forall|e: nat| lo <= e < hi ==> #[trigger] (n % e) != 0
}

/// A prime: at least 2, with no divisor strictly between 1 and itself.
pub open spec fn prime_spec(n: nat) -> bool {
    n >= 2 && no_divisor_in(n, 2, n)
}

/// The least divisor of n at or above d (n itself when there is none below n).
pub open spec fn least_div_from(n: nat, d: nat) -> nat
    decreases n - d,
{
    if d >= n || d == 0 {
        n
    } else if n % d == 0 {
        d
    } else {
        least_div_from(n, d + 1)
    }
}

/// The least divisor of n above 1.
pub open spec fn least_div(n: nat) -> nat {
    least_div_from(n, 2)
}

proof fn lemma_least_div_props(n: nat, d: nat)
    requires
        2 <= d <= n,
    ensures
        d <= least_div_from(n, d) <= n,
        n % least_div_from(n, d) == 0,
        no_divisor_in(n, d, least_div_from(n, d)),
    decreases n - d,
{
    if d < n && n % d != 0 {
        lemma_least_div_props(n, d + 1);
    } else if d == n {
        lemma_mod_self_0(n as int);
    }
}

/// Skipping a stretch with no divisor does not move the least divisor.
proof fn lemma_least_div_skip(n: nat, d0: nat, d: nat)
    requires
        2 <= d0 <= d <= n,
        no_divisor_in(n, d0, d),
    ensures
        least_div_from(n, d0) == least_div_from(n, d),
    decreases d - d0,
{
    if d0 < d {
        assert(n % d0 != 0);
        lemma_least_div_skip(n, d0 + 1, d);
    }
}

/// With no divisor below d and d·d > n, n has no divisor in [2, n).
proof fn lemma_no_divisor_above_root(n: nat, d: nat)
    requires
        2 <= d,
        d * d > n,
        no_divisor_in(n, 2, d),
    ensures
        no_divisor_in(n, 2, n),
{
    assert forall|e: nat| 2 <= e < n implies #[trigger] (n % e) != 0 by {
        if e >= d && n % e == 0 {
            lemma_fundamental_div_mod(n as int, e as int);
            let q = n / e;
            assert(n == e * q);
            assert(q >= 2) by (nonlinear_arith)
                requires n == e * q, e < n, e >= 2, q >= 0;
            assert(q < d) by (nonlinear_arith)
                requires n == e * q, e >= d, d * d > n, q >= 0;
            lemma_fundamental_div_mod_converse(n as int, q as int, e as int, 0);
            assert(n % q == 0);
        }
    }
}

/// A divisor of n/d (d | n) divides n: no small divisor of n means none of n/d.
proof fn lemma_quotient_keeps_no_divisor(n: nat, d: nat, lo: nat, hi: nat)
    requires
        d >= 1,
        n % d == 0,
        no_divisor_in(n, lo, hi),
        lo >= 1,
    ensures
        no_divisor_in(n / d, lo, hi),
{
    assert forall|e: nat| lo <= e < hi implies #[trigger] ((n / d) % e) != 0 by {
        if (n / d) % e == 0 {
            lemma_fundamental_div_mod(n as int, d as int);
            lemma_fundamental_div_mod((n / d) as int, e as int);
            let q = (n / d) / e;
            assert(n == (d * q) * e) by (nonlinear_arith)
                requires n == d * (n / d), (n / d) == e * q;
            lemma_fundamental_div_mod_converse(n as int, e as int, (d * q) as int, 0);
        }
    }
}

/// The canonical factorization: least divisors, ascending.
pub open spec fn factor_seq(n: nat) -> Seq<u128>
    decreases n,
{
    if n < 2 {
        seq![]
    } else {
        let d = least_div(n);
        if 2 <= d && n / d < n {
            seq![d as u128] + factor_seq(n / d)
        } else {
            seq![]
        }
    }
}

proof fn lemma_factor_seq_unfold(n: nat)
    requires
        n >= 2,
    ensures
        2 <= least_div(n) <= n,
        n / least_div(n) < n,
        factor_seq(n) == seq![least_div(n) as u128] + factor_seq(n / least_div(n)),
{
    lemma_least_div_props(n, 2);
    let d = least_div(n);
    assert(n / d < n) by {
        lemma_fundamental_div_mod(n as int, d as int);
        assert(n / d < n) by (nonlinear_arith)
            requires n == d * (n / d), d >= 2, n >= 2, n / d >= 0;
    }
}

pub fn is_prime(n: u128) -> (r: bool)
    requires
        n < 0x4000_0000_0000_0000_0000_0000_0000_0000,
    ensures
        r == prime_spec(n as nat),
{
    if n < 2 {
        return false;
    }
    let mut d: u128 = 2;
    while d * d <= n
        invariant
            2 <= n < 0x4000_0000_0000_0000_0000_0000_0000_0000,
            2 <= d <= 0x8000_0000_0000_0001,
            d * d <= 0x4000_0000_0000_0001_0000_0000_0000_0001,
            no_divisor_in(n as nat, 2, d as nat),
        decreases n - d,
    {
        if n % d == 0 {
            proof {
                assert(d < n) by (nonlinear_arith)
                    requires d * d <= n, d >= 2;
            }
            return false;
        }
        proof {
            assert(d <= 0x8000_0000_0000_0000) by (nonlinear_arith)
                requires d * d <= n, n < 0x4000_0000_0000_0000_0000_0000_0000_0000, d >= 0;
            assert((d + 1) * (d + 1) <= 0x4000_0000_0000_0001_0000_0000_0000_0001) by (nonlinear_arith)
                requires d <= 0x8000_0000_0000_0000, d >= 0;
            assert(d < n) by (nonlinear_arith)
                requires d * d <= n, d >= 2;
        }
        d += 1;
    }
    proof {
        lemma_no_divisor_above_root(n as nat, d as nat);
    }
    true
}

pub fn factors(n: u128) -> (out: Vec<u128>)
    requires
        n < 0x4000_0000_0000_0000_0000_0000_0000_0000,
    ensures
        out@ == factor_seq(n as nat),
{
    let mut out: Vec<u128> = Vec::new();
    let mut n = n;
    let ghost n0 = n as nat;
    let mut d: u128 = 2;
    while d * d <= n
        invariant
            n < 0x4000_0000_0000_0000_0000_0000_0000_0000,
            2 <= d <= 0x8000_0000_0000_0001,
            d * d <= 0x4000_0000_0000_0001_0000_0000_0000_0001,
            n >= 1 || d * d > n,
            no_divisor_in(n as nat, 2, d as nat),
            out@ + factor_seq(n as nat) == factor_seq(n0),
        decreases n, n - d + 0x8000_0000_0000_0001,
    {
        proof {
            assert(d <= 0x8000_0000_0000_0000) by (nonlinear_arith)
                requires d * d <= n, n < 0x4000_0000_0000_0000_0000_0000_0000_0000, d >= 0;
            assert((d + 1) * (d + 1) <= 0x4000_0000_0000_0001_0000_0000_0000_0001) by (nonlinear_arith)
                requires d <= 0x8000_0000_0000_0000, d >= 0;
        }
        let ghost n_top = n;
        while n % d == 0
            invariant
                n <= n_top,
                d <= 0x8000_0000_0000_0000,
                (d + 1) * (d + 1) <= 0x4000_0000_0000_0001_0000_0000_0000_0001,
                n < 0x4000_0000_0000_0000_0000_0000_0000_0000,
                2 <= d <= 0x8000_0000_0000_0001,
                d * d <= 0x4000_0000_0000_0001_0000_0000_0000_0001,
                n >= 1,
                no_divisor_in(n as nat, 2, d as nat),
                out@ + factor_seq(n as nat) == factor_seq(n0),
            decreases n,
        {
            proof {
                assert(n >= 2) by {
                    if n == 1 {
                        lemma_small_mod(1, d as nat);
                    }
                }
                lemma_least_div_props(n as nat, 2);
                lemma_least_div_skip(n as nat, 2, d as nat);
                lemma_factor_seq_unfold(n as nat);
                assert(d <= n) by {
                    if d > n {
                        lemma_small_mod(n as nat, d as nat);
                    }
                }
                assert(least_div_from(n as nat, d as nat) == d);
                lemma_quotient_keeps_no_divisor(n as nat, d as nat, 2, d as nat);
                lemma_fundamental_div_mod(n as int, d as int);
                assert(n / d >= 1) by (nonlinear_arith)
                    requires n == d * (n / d), n >= 2, d >= 2, n / d >= 0;
                assert(out@.push(d) + factor_seq((n / d) as nat) == out@ + factor_seq(n as nat));
            }
            out.push(d);
            n = n / d;
        }
        proof {
            assert(no_divisor_in(n as nat, 2, (d + 1) as nat));
        }
        d += 1;
    }
    if n > 1 {
        proof {
            lemma_no_divisor_above_root(n as nat, d as nat);
            lemma_least_div_props(n as nat, 2);
            lemma_least_div_skip(n as nat, 2, n as nat);
            lemma_factor_seq_unfold(n as nat);
            assert(least_div(n as nat) == n);
            lemma_fundamental_div_mod_converse(n as int, n as int, 1, 0);
            assert(factor_seq(1) == Seq::<u128>::empty());
            assert(out@.push(n) == out@ + factor_seq(n as nat));
        }
        out.push(n);
    } else {
        proof {
            assert(factor_seq(n as nat) == Seq::<u128>::empty());
            assert(out@ + factor_seq(n as nat) == out@);
        }
    }
    out
}


// ── the rays ─────────────────────────────────────────────────────────────────

/// The last index i < k at which the ray (Fibonacci when `fib_ray`, else Lucas) takes the
/// value v, for v ≥ 2.
pub open spec fn ray_index(fib_ray: bool, v: nat, k: nat) -> Option<usize>
    decreases k,
{
    if k == 0 {
        None
    } else {
        let i = (k - 1) as nat;
        let x = if fib_ray { fib_spec(i) } else { lucas_spec(i) };
        if x == v && v >= 2 {
            Some(i as usize)
        } else {
            ray_index(fib_ray, v, i)
        }
    }
}

proof fn lemma_rays_fit(n: nat)
    requires
        n <= 62,
    ensures
        fib_spec(n) <= u64::MAX,
        lucas_spec(n) <= u64::MAX,
{
    lemma_rays_below_pow2(n);
    lemma2_to64();
    lemma2_to64_rest();
    if n < 63 {
        lemma_pow2_strictly_increases(n + 1, 64);
        if n < 64 {
            lemma_pow2_strictly_increases(n, 64);
        }
    }
}

/// Which ray mints v: (Fibonacci index, Lucas index), values ≥ 2 only.
pub fn ray_of(v: u128) -> (r: (Option<usize>, Option<usize>))
    ensures
        r.0 == ray_index(true, v as nat, 60),
        r.1 == ray_index(false, v as nat, 60),
{
    let mut f: Option<usize> = None;
    let mut l: Option<usize> = None;
    let mut i: usize = 0;
    while i < 60
        invariant
            0 <= i <= 60,
            f == ray_index(true, v as nat, i as nat),
            l == ray_index(false, v as nat, i as nat),
        decreases 60 - i,
    {
        proof {
            lemma_rays_fit((i + 1) as nat);
        }
        if fib(i) == v && v >= 2 {
            f = Some(i);
        }
        if lucas(i) == v && v >= 2 {
            l = Some(i);
        }
        i += 1;
    }
    (f, l)
}

/// x is minted on the ray at some index below 60.
pub open spec fn on_ray(fib_ray: bool, x: nat) -> bool {
    exists|i: nat| i < 60 && #[trigger] ray_at(fib_ray, i) == x
}

pub open spec fn ray_at(fib_ray: bool, i: nat) -> nat {
    if fib_ray {
        fib_spec(i)
    } else {
        lucas_spec(i)
    }
}

/// A strictly increasing sequence.
pub open spec fn increasing(s: Seq<u128>) -> bool {
    forall|a: int, b: int| 0 <= a < b < s.len() ==> s[a] < s[b]
}

/// The ray's values in [2, cap], ascending, each once.
pub open spec fn ray_list(s: Seq<u128>, fib_ray: bool, cap: nat) -> bool {
    &&& increasing(s)
    &&& forall|x: u128| s.contains(x) <==> (2 <= x <= cap && on_ray(fib_ray, x as nat))
}

/// Membership in a vector.
pub fn contains_value(v: &Vec<u128>, x: u128) -> (r: bool)
    ensures
        r == v@.contains(x),
{
    let mut i: usize = 0;
    while i < v.len()
        invariant
            0 <= i <= v.len(),
            forall|j: int| 0 <= j < i ==> v[j] != x,
        decreases v.len() - i,
    {
        if v[i] == x {
            return true;
        }
        i += 1;
    }
    false
}

proof fn lemma_ray_step(fib_ray: bool, i: nat)
    requires
        i < 60,
    ensures
        fib_ray ==> ray_at(fib_ray, i) <= ray_at(fib_ray, i + 1),
        fib_ray && ray_at(fib_ray, i) >= 2 ==> i >= 3 && ray_at(fib_ray, i) < ray_at(fib_ray, i + 1),
        !fib_ray && i >= 1 ==> ray_at(fib_ray, i) < ray_at(fib_ray, i + 1),
        !fib_ray && i == 1 ==> ray_at(fib_ray, i) == 1 && ray_at(fib_ray, i + 1) == 3,
{
    reveal_with_fuel(fib_spec, 4);
    reveal_with_fuel(lucas_spec, 4);
    lemma_fib_mono(i, i + 1);
    if i >= 3 {
        lemma_fib_strict(i, i + 1);
    }
    if i >= 1 {
        lemma_lucas_strict(i, i + 1);
    }
}

/// One ray's values ≤ cap, ascending.
fn ray_list_of(cap: u128, fib_ray: bool) -> (out: Vec<u128>)
    ensures
        ray_list(out@, fib_ray, cap as nat),
{
    let mut out: Vec<u128> = Vec::new();
    let mut i: usize = 0;
    while i < 60
        invariant
            0 <= i <= 60,
            increasing(out@),
            forall|k: int| 0 <= k < out.len() ==> 2 <= #[trigger] out[k] <= cap,
            forall|k: int|
                #![trigger out[k]]
                0 <= k < out.len() ==> exists|j: nat| j < i && #[trigger] ray_at(fib_ray, j) == out[k],
            forall|j: nat| j < i && 2 <= #[trigger] ray_at(fib_ray, j) <= cap ==> out@.contains(ray_at(fib_ray, j) as u128),
            i >= 2 || fib_ray ==> forall|k: int| 0 <= k < out.len() ==> out[k] < ray_at(fib_ray, i as nat),
            i < 2 && !fib_ray ==> forall|k: int| 0 <= k < out.len() ==> out[k] == 2,
        decreases 60 - i,
    {
        proof {
            lemma_rays_fit((i + 1) as nat);
            lemma_ray_step(fib_ray, i as nat);
            reveal_with_fuel(lucas_spec, 3);
        }
        let x = if fib_ray { fib(i) } else { lucas(i) };
        let ghost o = out@;
        let fresh = !contains_value(&out, x);
        if x >= 2 && x <= cap && fresh {
            out.push(x);
        }
        proof {
            assert(x == ray_at(fib_ray, i as nat));
            assert forall|k: int| #![trigger out[k]] 0 <= k < out.len() implies exists|j: nat|
                j < i + 1 && #[trigger] ray_at(fib_ray, j) == out[k] by {
                if k < o.len() {
                    assert(out[k] == o[k]);
                    let j = choose|j: nat| j < i && #[trigger] ray_at(fib_ray, j) == o[k];
                    assert(ray_at(fib_ray, j) == out[k]);
                } else {
                    assert(ray_at(fib_ray, i as nat) == out[k]);
                }
            }
            assert forall|j: nat| j < i + 1 && 2 <= #[trigger] ray_at(fib_ray, j) <= cap implies out@.contains(
                ray_at(fib_ray, j) as u128,
            ) by {
                if j < i {
                    assert(o.contains(ray_at(fib_ray, j) as u128));
                    let k = choose|k: int| 0 <= k < o.len() && o[k] == ray_at(fib_ray, j) as u128;
                    assert(out[k] == o[k]);
                } else if fresh {
                    assert(out[out.len() - 1] == x);
                }
            }
        }
        i += 1;
    }
    proof {
        assert forall|x: u128| out@.contains(x) <==> (2 <= x <= cap && on_ray(fib_ray, x as nat)) by {
            if out@.contains(x) {
                let k = choose|k: int| 0 <= k < out.len() && out[k] == x;
                let j = choose|j: nat| j < 60 && #[trigger] ray_at(fib_ray, j) == out[k];
                assert(on_ray(fib_ray, x as nat));
            }
            if 2 <= x <= cap && on_ray(fib_ray, x as nat) {
                let j = choose|j: nat| j < 60 && #[trigger] ray_at(fib_ray, j) == x;
                assert(2 <= ray_at(fib_ray, j) <= cap);
            }
        }
    }
    out
}

/// Ray values ≤ cap: (coordinate ray = Fibonacci, trace ray = Lucas), values ≥ 2.
pub fn ray_values(cap: u128) -> (r: (Vec<u128>, Vec<u128>))
    ensures
        ray_list(r.0@, true, cap as nat),
        ray_list(r.1@, false, cap as nat),
{
    (ray_list_of(cap, true), ray_list_of(cap, false))
}

/// p is licensed: a prime factor of some value in [2, cap] on a used ray (always the trace
/// ray; the coordinate ray too when both are used).
pub open spec fn licensed(cap: nat, two_ray: bool, p: u128) -> bool {
    exists|v: nat|
        2 <= v <= cap && (on_ray(false, v) || (two_ray && on_ray(true, v))) && (#[trigger] factor_seq(v)).contains(p)
}

proof fn lemma_prefix_contains(s: Seq<u128>, q: int, p: u128)
    requires
        0 <= q < s.len(),
    ensures
        s.subrange(0, q + 1).contains(p) <==> (s.subrange(0, q).contains(p) || s[q] == p),
{
    if s.subrange(0, q + 1).contains(p) {
        let t = choose|t: int| 0 <= t < q + 1 && #[trigger] s.subrange(0, q + 1)[t] == p;
        if t < q {
            assert(s.subrange(0, q)[t] == p);
        }
    }
    if s.subrange(0, q).contains(p) {
        let t = choose|t: int| 0 <= t < q && #[trigger] s.subrange(0, q)[t] == p;
        assert(s.subrange(0, q + 1)[t] == p);
    }
    if s[q] == p {
        assert(s.subrange(0, q + 1)[q] == p);
    }
}

/// Insert into a strictly increasing vector, keeping it so.
#[verifier::spinoff_prover]
fn insert_sorted(out: &mut Vec<u128>, p: u128)
    requires
        increasing(old(out)@),
    ensures
        increasing(final(out)@),
        forall|x: u128| final(out)@.contains(x) <==> (old(out)@.contains(x) || x == p),
{
    let mut i: usize = 0;
    while i < out.len() && out[i] < p
        invariant
            0 <= i <= out.len(),
            out@ == old(out)@,
            increasing(out@),
            forall|k: int| 0 <= k < i ==> out[k] < p,
        decreases out.len() - i,
    {
        i += 1;
    }
    if i < out.len() && out[i] == p {
        proof {
            assert(out@ == old(out)@);
            assert(out@[i as int] == p);
            assert(out@.contains(p));
            assert(forall|x: u128| #[trigger] out@.contains(x) <==> (old(out)@.contains(x) || x == p));
        }
        return;
    }
    let ghost o = out@;
    out.insert(i, p);
    proof {
        assert(out@ == o.subrange(0, i as int).push(p) + o.subrange(i as int, o.len() as int));
        assert forall|x: u128| out@.contains(x) <==> (o.contains(x) || x == p) by {
            if o.contains(x) {
                let k = choose|k: int| 0 <= k < o.len() && o[k] == x;
                if k < i {
                    assert(out[k] == x);
                } else {
                    assert(out[k + 1] == x);
                }
            }
            if x == p {
                assert(out[i as int] == p);
            }
            if out@.contains(x) {
                let k = choose|k: int| 0 <= k < out.len() && out[k] == x;
                if k < i {
                    assert(o[k] == x);
                } else if k > i {
                    assert(o[k - 1] == x);
                }
            }
        }
        assert(o == old(out)@);
        assert(forall|x: u128| #[trigger] out@.contains(x) <==> (old(out)@.contains(x) || x == p));
    }
}

/// The values of the used rays in [2, cap].
pub open spec fn used_value(cap: nat, two_ray: bool, v: nat) -> bool {
    2 <= v <= cap && (on_ray(false, v) || (two_ray && on_ray(true, v)))
}

/// Licensed primes: the prime factors of the values on the used ray(s), ascending, each once.
#[verifier::spinoff_prover]
pub fn licensed_primes(cap: u128, two_ray: bool) -> (out: Vec<u128>)
    requires
        cap < 0x4000_0000_0000_0000_0000_0000_0000_0000,
    ensures
        increasing(out@),
        forall|p: u128| out@.contains(p) <==> licensed(cap as nat, two_ray, p),
{
    let (f, l) = ray_values(cap);
    let mut vals: Vec<u128> = Vec::new();
    let mut k: usize = 0;
    while k < l.len()
        invariant
            0 <= k <= l.len(),
            vals@ == l@.subrange(0, k as int),
        decreases l.len() - k,
    {
        vals.push(l[k]);
        k += 1;
    }
    if two_ray {
        let mut k: usize = 0;
        while k < f.len()
            invariant
                0 <= k <= f.len(),
                vals@ == l@ + f@.subrange(0, k as int),
            decreases f.len() - k,
        {
            vals.push(f[k]);
            k += 1;
        }
    }
    proof {
        if two_ray {
            assert(vals@ == l@ + f@);
        } else {
            assert(vals@ == l@);
        }
        assert forall|v: u128| vals@.contains(v) <==> used_value(cap as nat, two_ray, v as nat) by {
            if two_ray {
                if vals@.contains(v) {
                    let t = choose|t: int| 0 <= t < vals.len() && vals[t] == v;
                    if t < l.len() {
                        assert(l@.contains(v));
                    } else {
                        assert(f@[t - l.len()] == v);
                        assert(f@.contains(v));
                    }
                }
                if l@.contains(v) {
                    let t = choose|t: int| 0 <= t < l.len() && l[t] == v;
                    assert(vals[t] == v);
                }
                if f@.contains(v) {
                    let t = choose|t: int| 0 <= t < f.len() && f[t] == v;
                    assert(vals[l.len() + t] == v);
                }
            }
        }
    }
    let mut out: Vec<u128> = Vec::new();
    let mut k: usize = 0;
    while k < vals.len()
        invariant
            0 <= k <= vals.len(),
            cap < 0x4000_0000_0000_0000_0000_0000_0000_0000,
            forall|v: u128| vals@.contains(v) <==> used_value(cap as nat, two_ray, v as nat),
            increasing(out@),
            forall|p: u128|
                out@.contains(p) <==> exists|j: int| 0 <= j < k && (#[trigger] factor_seq(vals[j] as nat)).contains(p),
        decreases vals.len() - k,
    {
        let v = vals[k];
        proof {
            assert(vals@.contains(v));
        }
        let fs = factors(v);
        let ghost before = out@;
        assert(forall|p: u128|
            #[trigger] before.contains(p) <==> exists|j: int| 0 <= j < k && (#[trigger] factor_seq(vals[j] as nat)).contains(p));
        let mut q: usize = 0;
        while q < fs.len()
            invariant
                0 <= q <= fs.len(),
                fs@ == factor_seq(v as nat),
                increasing(out@),
                forall|p: u128| out@.contains(p) <==> (before.contains(p) || fs@.subrange(0, q as int).contains(p)),
            decreases fs.len() - q,
        {
            let ghost o = out@;
            insert_sorted(&mut out, fs[q]);
            proof {
                let q1 = (q + 1) as int;
                assert forall|p: u128| #[trigger] out@.contains(p) <==> (before.contains(p) || fs@.subrange(0, q1).contains(p)) by {
                    lemma_prefix_contains(fs@, q as int, p);
                    assert(o.contains(p) <==> (before.contains(p) || fs@.subrange(0, q as int).contains(p)));
                    assert(out@.contains(p) <==> (o.contains(p) || p == fs@[q as int]));
                }
            }
            q += 1;
        }
        proof {
            assert(fs@.subrange(0, fs.len() as int) == fs@);
            assert(v == vals[k as int]);
            assert(fs@ == factor_seq(vals[k as int] as nat));
        }
        proof {
            assert forall|p: u128|
                out@.contains(p) <==> exists|j: int| 0 <= j < k + 1 && (#[trigger] factor_seq(vals[j] as nat)).contains(p) by {
                assert(out@.contains(p) <==> (before.contains(p) || fs@.subrange(0, fs.len() as int).contains(p)));
                assert(out@.contains(p) <==> (before.contains(p) || fs@.contains(p)));
                if out@.contains(p) {
                    if before.contains(p) {
                        let j = choose|j: int| 0 <= j < k && (#[trigger] factor_seq(vals[j] as nat)).contains(p);
                        assert(0 <= j < k + 1 && factor_seq(vals[j] as nat).contains(p));
                    } else {
                        assert(fs@.contains(p));
                        assert(factor_seq(vals[k as int] as nat).contains(p));
                        assert(0 <= k < k + 1);
                    }
                }
                if exists|j: int| 0 <= j < k + 1 && (#[trigger] factor_seq(vals[j] as nat)).contains(p) {
                    let j = choose|j: int| 0 <= j < k + 1 && (#[trigger] factor_seq(vals[j] as nat)).contains(p);
                    if j < k {
                        assert(before.contains(p));
                    } else {
                        assert(fs@.contains(p));
                    }
                }
            }
        }
        k += 1;
    }
    proof {
        assert forall|p: u128| out@.contains(p) <==> licensed(cap as nat, two_ray, p) by {
            if out@.contains(p) {
                let j = choose|j: int| 0 <= j < vals.len() && (#[trigger] factor_seq(vals[j] as nat)).contains(p);
                assert(vals@.contains(vals[j]));
                assert(factor_seq(vals[j] as nat).contains(p));
            }
            if licensed(cap as nat, two_ray, p) {
                let v = choose|v: nat| 2 <= v <= cap && (on_ray(false, v) || (two_ray && on_ray(true, v)))
                    && (#[trigger] factor_seq(v)).contains(p);
                assert(used_value(cap as nat, two_ray, v));
                assert(vals@.contains(v as u128));
                let j = choose|j: int| 0 <= j < vals.len() && vals[j] == v as u128;
                assert(factor_seq(vals[j] as nat).contains(p));
            }
        }
    }
    out
}


/// Every prime factor of n is licensed.
pub open spec fn on_ladder(cap: nat, two_ray: bool, n: nat) -> bool {
    forall|p: u128| factor_seq(n).contains(p) ==> #[trigger] licensed(cap, two_ray, p)
}

/// The ladder's rungs among 1..=k, ascending.
pub open spec fn ladder_upto(cap: nat, two_ray: bool, k: nat) -> Seq<u128>
    decreases k,
{
    if k == 0 {
        seq![]
    } else {
        let prev = ladder_upto(cap, two_ray, (k - 1) as nat);
        if on_ladder(cap, two_ray, k) {
            prev.push(k as u128)
        } else {
            prev
        }
    }
}

/// The ladder: integers 1..=cap whose prime factors are all licensed.
pub fn ladder(cap: u128, two_ray: bool) -> (r: Vec<u128>)
    requires
        cap < 0x4000_0000_0000_0000_0000_0000_0000_0000,
    ensures
        r@ == ladder_upto(cap as nat, two_ray, cap as nat),
{
    let lic = licensed_primes(cap, two_ray);
    let mut out: Vec<u128> = Vec::new();
    let mut n: u128 = 1;
    while n <= cap
        invariant
            1 <= n <= cap + 1,
            cap < 0x4000_0000_0000_0000_0000_0000_0000_0000,
            forall|p: u128| lic@.contains(p) <==> licensed(cap as nat, two_ray, p),
            out@ == ladder_upto(cap as nat, two_ray, (n - 1) as nat),
        decreases cap + 1 - n,
    {
        let fs = factors(n);
        let mut all = true;
        let mut q: usize = 0;
        while q < fs.len()
            invariant
                0 <= q <= fs.len(),
                forall|p: u128| lic@.contains(p) <==> licensed(cap as nat, two_ray, p),
                all == forall|t: int| 0 <= t < q ==> licensed(cap as nat, two_ray, #[trigger] fs[t]),
            decreases fs.len() - q,
        {
            if !contains_value(&lic, fs[q]) {
                all = false;
            }
            q += 1;
        }
        proof {
            assert(all == on_ladder(cap as nat, two_ray, n as nat)) by {
                if all {
                    assert forall|p: u128| factor_seq(n as nat).contains(p) implies #[trigger] licensed(cap as nat, two_ray, p) by {
                        let t = choose|t: int| 0 <= t < fs.len() && fs@[t] == p;
                        assert(licensed(cap as nat, two_ray, fs[t]));
                    }
                } else {
                    let t = choose|t: int| 0 <= t < fs.len() && !licensed(cap as nat, two_ray, #[trigger] fs[t]);
                    assert(factor_seq(n as nat).contains(fs[t]));
                }
            }
        }
        if all {
            out.push(n);
        }
        n += 1;
    }
    out
}

/// p and p + 2 are both prime.
pub open spec fn twin(p: nat) -> bool {
    prime_spec(p) && prime_spec(p + 2)
}

/// The lower twins p with 3 ≤ p < k, ascending.
pub open spec fn twins_below(k: nat) -> Seq<u128>
    decreases k,
{
    if k <= 3 {
        seq![]
    } else {
        let prev = twins_below((k - 1) as nat);
        if twin((k - 1) as nat) {
            prev.push((k - 1) as u128)
        } else {
            prev
        }
    }
}

/// Twin primes (p, p+2) with p+2 ≤ cap: (p, p+2, seam, seam factors).
pub fn twin_seams(cap: u128) -> (r: Vec<(u128, u128, u128, Vec<u128>)>)
    requires
        1 <= cap < 0x4000_0000_0000_0000_0000_0000_0000_0000,
    ensures
        r.len() == twins_below((cap - 1) as nat).len(),
        forall|i: int|
            0 <= i < r.len() ==> {
                &&& (#[trigger] r[i]).0 == twins_below((cap - 1) as nat)[i]
                &&& r[i].1 == r[i].0 + 2
                &&& r[i].2 == r[i].0 + 1
                &&& r[i].3@ == factor_seq((r[i].0 + 1) as nat)
            },
{
    let mut out: Vec<(u128, u128, u128, Vec<u128>)> = Vec::new();
    let mut p: u128 = 3;
    let end = cap - 1;
    while p < end
        invariant
            3 <= p,
            end == cap - 1,
            p <= end || p == 3,
            cap < 0x4000_0000_0000_0000_0000_0000_0000_0000,
            out.len() == twins_below(p as nat).len(),
            forall|i: int|
                0 <= i < out.len() ==> {
                    &&& (#[trigger] out[i]).0 == twins_below(p as nat)[i]
                    &&& out[i].1 == out[i].0 + 2
                    &&& out[i].2 == out[i].0 + 1
                    &&& out[i].3@ == factor_seq((out[i].0 + 1) as nat)
                },
        decreases end - p,
    {
        let ghost o = out@;
        if is_prime(p) && is_prime(p + 2) {
            let fs = factors(p + 1);
            out.push((p, p + 2, p + 1, fs));
            proof {
                assert forall|i: int| 0 <= i < out.len() implies {
                    &&& (#[trigger] out[i]).0 == twins_below((p + 1) as nat)[i]
                    &&& out[i].1 == out[i].0 + 2
                    &&& out[i].2 == out[i].0 + 1
                    &&& out[i].3@ == factor_seq((out[i].0 + 1) as nat)
                } by {
                    if i < o.len() {
                        assert(out[i] == o[i]);
                    }
                }
            }
        }
        p += 1;
    }
    proof {
        if end < 3 {
            assert(twins_below((cap - 1) as nat) == Seq::<u128>::empty());
            assert(twins_below(p as nat) == Seq::<u128>::empty());
        }
    }
    out
}

/// Every seam after (3, 5) is a multiple of 6: twin primes above 3 straddle 6k.
pub proof fn lemma_seam_is_six(p: nat)
    requires
        twin(p),
        p > 3,
    ensures
        (p + 1) % 6 == 0,
{
    assert(p % 2 != 0);
    assert(p % 3 != 0);
    assert((p + 2) % 3 != 0);
}

// ── 1: the mediant tree ──────────────────────────────────────────────────────

/// The mediant of two fractions (numerators add, denominators add).
pub open spec fn mediant(a: (u128, u128), b: (u128, u128)) -> (u128, u128) {
    ((a.0 + b.0) as u128, (a.1 + b.1) as u128)
}

/// The ordered sequence after k rounds, walls 0/1 and 1/0 included: every neighbour pair
/// gets its mediant inserted between them.
pub open spec fn sb_seq(k: nat) -> Seq<(u128, u128)>
    decreases k,
{
    if k == 0 {
        seq![(0u128, 1u128), (1u128, 0u128)]
    } else {
        let s = sb_seq((k - 1) as nat);
        Seq::new(
            (2 * s.len() - 1) as nat,
            |i: int| if i % 2 == 0 { s[i / 2] } else { mediant(s[i / 2], s[i / 2 + 1]) },
        )
    }
}

/// Row k of the tree: the mediants minted in round k.
pub open spec fn sb_row(k: nat) -> Seq<(u128, u128)> {
    let s = sb_seq(k);
    Seq::new((s.len() - 1) as nat, |j: int| mediant(s[j], s[j + 1]))
}

/// The determinant b·c − a·d of neighbours a/b, c/d.
pub open spec fn det(x: (u128, u128), y: (u128, u128)) -> int {
    x.1 * y.0 - x.0 * y.1
}

/// Neighbours after k rounds: each coordinate's smaller is at most F(k), larger at most F(k+1).
pub open spec fn bounded_pair(x: (u128, u128), y: (u128, u128), k: nat) -> bool {
    &&& (if x.0 <= y.0 { x.0 <= fib_spec(k) && y.0 <= fib_spec(k + 1) } else { y.0 <= fib_spec(k) && x.0 <= fib_spec(
        k + 1,
    ) })
    &&& (if x.1 <= y.1 { x.1 <= fib_spec(k) && y.1 <= fib_spec(k + 1) } else { y.1 <= fib_spec(k) && x.1 <= fib_spec(
        k + 1,
    ) })
}

/// The mediant tree grows along the Fibonacci frontier, and every pair of neighbours is
/// unimodular: their determinant is 1.
pub proof fn lemma_sb_neighbours(k: nat)
    requires
        fib_spec(k + 1) <= u128::MAX,
    ensures
        sb_seq(k).len() >= 2,
        forall|i: int|
            0 <= i < sb_seq(k).len() - 1 ==> bounded_pair(#[trigger] sb_seq(k)[i], sb_seq(k)[i + 1], k),
        forall|i: int| 0 <= i < sb_seq(k).len() - 1 ==> det(#[trigger] sb_seq(k)[i], sb_seq(k)[i + 1]) == 1,
    decreases k,
{
    if k > 0 {
        let s = sb_seq((k - 1) as nat);
        lemma_fib_mono(k, k + 1);
        lemma_sb_neighbours((k - 1) as nat);
        let t = sb_seq(k);
        assert(fib_spec(k + 1) == fib_spec((k - 1) as nat) + fib_spec(k));
        assert forall|i: int|
            0 <= i < t.len() - 1 implies bounded_pair(#[trigger] t[i], t[i + 1], k) && det(t[i], t[i + 1]) == 1 by {
            let h = i / 2;
            assert(bounded_pair(s[h], s[h + 1], (k - 1) as nat));
            assert(det(s[h], s[h + 1]) == 1);
            let a = s[h];
            let b = s[h + 1];
            let m = mediant(a, b);
            assert(m.0 == a.0 + b.0);
            assert(m.1 == a.1 + b.1);
            if i % 2 == 0 {
                assert(t[i] == a);
                assert(t[i + 1] == m);
                assert(det(a, m) == det(a, b)) by (nonlinear_arith)
                    requires m.0 == a.0 + b.0, m.1 == a.1 + b.1;
            } else {
                assert((i + 1) / 2 == h + 1);
                assert(t[i] == m);
                assert(t[i + 1] == b);
                assert(det(m, b) == det(a, b)) by (nonlinear_arith)
                    requires m.0 == a.0 + b.0, m.1 == a.1 + b.1;
            }
        }
    } else {
        let s0 = sb_seq(0);
        assert(s0[0] == (0u128, 1u128));
        assert(s0[1] == (1u128, 0u128));
        let x = s0[0];
        let y = s0[1];
        assert(x.1 * y.0 == 1 && x.0 * y.1 == 0) by (nonlinear_arith)
            requires x.0 == 0, x.1 == 1, y.0 == 1, y.1 == 0;
        assert(det(s0[0], s0[1]) == 1);
    }
}

/// Rows of the Stern-Brocot tree to `depth`: row k holds the fractions minted at depth k
/// (row 0 = 1/1). Also returns the final ordered sequence including the walls 0/1 and 1/0.
pub fn stern_brocot(depth: usize) -> (r: (Vec<Vec<(u128, u128)>>, Vec<(u128, u128)>))
    requires
        depth < usize::MAX,
        fib_spec((depth + 2) as nat) <= u128::MAX,
    ensures
        r.0.len() == depth + 1,
        forall|k: int| 0 <= k <= depth ==> (#[trigger] r.0[k])@ == sb_row(k as nat),
        r.1@ == sb_seq((depth + 1) as nat),
{
    let mut seq: Vec<(u128, u128)> = vec![(0, 1), (1, 0)];
    let mut rows: Vec<Vec<(u128, u128)>> = Vec::new();
    let mut r: usize = 0;
    proof {
        assert(seq@ == sb_seq(0));
    }
    while r <= depth
        invariant
            0 <= r <= depth + 1,
            depth < usize::MAX,
            fib_spec((depth + 2) as nat) <= u128::MAX,
            seq@ == sb_seq(r as nat),
            rows.len() == r,
            forall|k: int| 0 <= k < r ==> (#[trigger] rows[k])@ == sb_row(k as nat),
        decreases depth + 1 - r,
    {
        proof {
            lemma_fib_mono((r + 1) as nat, (depth + 2) as nat);
            lemma_fib_mono((r + 2) as nat, (depth + 2) as nat);
            lemma_sb_neighbours(r as nat);
            assert(fib_spec((r + 2) as nat) == fib_spec(r as nat) + fib_spec((r + 1) as nat));
        }
        let ghost s = seq@;
        let ghost t = sb_seq((r + 1) as nat);
        let mut next: Vec<(u128, u128)> = Vec::new();
        let mut row: Vec<(u128, u128)> = Vec::new();
        let mut w: usize = 0;
        while w + 1 < seq.len()
            invariant
                seq@ == s,
                s == sb_seq(r as nat),
                t == sb_seq((r + 1) as nat),
                s.len() >= 2,
                fib_spec((r + 2) as nat) <= u128::MAX,
                fib_spec((r + 2) as nat) == fib_spec(r as nat) + fib_spec((r + 1) as nat),
                forall|i: int| 0 <= i < s.len() - 1 ==> bounded_pair(#[trigger] s[i], s[i + 1], r as nat),
                0 <= w < s.len(),
                next.len() == 2 * w,
                row.len() == w,
                forall|j: int| 0 <= j < 2 * w ==> #[trigger] next[j] == t[j],
                forall|j: int| 0 <= j < w ==> #[trigger] row[j] == sb_row(r as nat)[j],
            decreases s.len() - w,
        {
            let a = seq[w];
            let b = seq[w + 1];
            proof {
                assert(bounded_pair(s[w as int], s[w + 1], r as nat));
            }
            let m = (a.0 + b.0, a.1 + b.1);
            next.push(a);
            next.push(m);
            row.push(m);
            proof {
                assert(t[2 * w] == s[w as int]);
                assert(t[2 * w + 1] == mediant(s[w as int], s[w + 1]));
                assert forall|j: int| 0 <= j < 2 * (w + 1) implies #[trigger] next[j] == t[j] by {
                    if j == 2 * w + 1 {
                        assert((2 * w + 1) / 2 == w);
                    }
                }
            }
            w += 1;
        }
        next.push(seq[seq.len() - 1]);
        proof {
            assert(t.len() == 2 * s.len() - 1);
            assert(next@ =~= t) by {
                assert forall|j: int| 0 <= j < t.len() implies next[j] == t[j] by {
                    if j == 2 * w {
                        assert(j / 2 == s.len() - 1);
                    }
                }
            }
            assert(row@ =~= sb_row(r as nat));
        }
        seq = next;
        rows.push(row);
        r += 1;
    }
    (rows, seq)
}

/// The neighbours before window i are all unimodular.
pub open spec fn unimodular_before(seq: Seq<(u128, u128)>, i: int) -> bool {
    forall|j: int| 0 <= j < i ==> det(#[trigger] seq[j], seq[j + 1]) == 1
}

/// Window i's two cross products fit unsigned words.
pub open spec fn window_fits(seq: Seq<(u128, u128)>, i: int) -> bool {
    &&& seq[i].1 * seq[i + 1].0 <= u128::MAX
    &&& seq[i].0 * seq[i + 1].1 <= u128::MAX
}

/// Every pair of neighbours in the sequence has determinant 1; a pair out of order (negative
/// determinant) answers false. Each window reached must have its cross products fit a word.
pub fn neighbours_unimodular(seq: &[(u128, u128)]) -> (r: bool)
    requires
        forall|i: int| 0 <= i < seq.len() - 1 && unimodular_before(seq@, i) ==> #[trigger] window_fits(seq@, i),
    ensures
        r == unimodular_before(seq@, seq.len() - 1),
{
    if seq.len() < 2 {
        return true;
    }
    let mut i: usize = 0;
    while i + 1 < seq.len()
        invariant
            seq.len() >= 2,
            0 <= i < seq.len(),
            unimodular_before(seq@, i as int),
            forall|k: int| 0 <= k < seq.len() - 1 && unimodular_before(seq@, k) ==> #[trigger] window_fits(seq@, k),
        decreases seq.len() - i,
    {
        let (a, b) = seq[i];
        let (c, d) = seq[i + 1];
        proof {
            assert(window_fits(seq@, i as int));
        }
        let bc = b * c;
        let ad = a * d;
        if ad >= bc || bc - ad != 1 {
            return false;
        }
        i += 1;
    }
    true
}

/// The larger of numerator and denominator.
pub open spec fn pair_max(x: (u128, u128)) -> u128 {
    if x.0 >= x.1 {
        x.0
    } else {
        x.1
    }
}

pub fn row_max(row: &[(u128, u128)]) -> (r: u128)
    ensures
        forall|i: int| 0 <= i < row.len() ==> pair_max(#[trigger] row[i]) <= r,
        row.len() == 0 ==> r == 0,
        row.len() > 0 ==> exists|i: int| 0 <= i < row.len() && r == pair_max(#[trigger] row[i]),
{
    let mut best: u128 = 0;
    let mut i: usize = 0;
    while i < row.len()
        invariant
            0 <= i <= row.len(),
            forall|j: int| 0 <= j < i ==> pair_max(#[trigger] row[j]) <= best,
            i == 0 ==> best == 0,
            i > 0 ==> exists|j: int| 0 <= j < i && best == pair_max(#[trigger] row[j]),
        decreases row.len() - i,
    {
        let (p, q) = row[i];
        let m = if p >= q { p } else { q };
        if i == 0 || m > best {
            best = m;
        }
        proof {
            assert(pair_max(row[i as int]) == m);
        }
        i += 1;
    }
    best
}

} // verus!
