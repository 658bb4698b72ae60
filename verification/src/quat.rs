//! The tick of the ball: a Hurwitz quaternion applied as the integer sandwich q·v·q̄, never
//! divided, so the scale |q|² rides along as the frame. Exactly orthogonal: MᵀM = |q|⁴·I.

use vstd::arithmetic::mul::{
    lemma_mul_basics, lemma_mul_cancels_negatives, lemma_mul_is_associative, lemma_mul_is_commutative, lemma_mul_is_distributive_add_other_way,
    lemma_mul_is_distributive_sub_other_way, lemma_mul_unary_negation,
};
use vstd::prelude::*;

use crate::big::Big;

verus! {

/// The six Hurwitz seals of the ball; the norm of each is its axis prime.
pub const SPIN_Q: [[i64; 4]; 6] = [[1, 1, 0, 0], [1, 1, 1, 0], [2, 1, 0, 0], [2, 1, 1, 1], [3, 1, 1, 0], [3, 2, 0, 0]];

/// The axis primes, in the order of the seals.
pub const PRIMES: [i64; 6] = [2, 3, 5, 7, 11, 13];

/// A quaternion w + xi + yj + zk with integer parts.
pub struct Quat {
    pub w: Big,
    pub x: Big,
    pub y: Big,
    pub z: Big,
}

/// A quaternion's parts as integers.
pub type Q4 = (int, int, int, int);

impl View for Quat {
    type V = Q4;

    open spec fn view(&self) -> Q4 {
        (self.w.val(), self.x.val(), self.y.val(), self.z.val())
    }
}

/// The Hamilton product.
pub open spec fn qmul(a: Q4, b: Q4) -> Q4 {
    (
        a.0 * b.0 - a.1 * b.1 - a.2 * b.2 - a.3 * b.3,
        a.0 * b.1 + a.1 * b.0 + a.2 * b.3 - a.3 * b.2,
        a.0 * b.2 - a.1 * b.3 + a.2 * b.0 + a.3 * b.1,
        a.0 * b.3 + a.1 * b.2 - a.2 * b.1 + a.3 * b.0,
    )
}

/// The conjugate.
pub open spec fn qconj(a: Q4) -> Q4 {
    (a.0, -a.1, -a.2, -a.3)
}

/// The norm w² + x² + y² + z².
pub open spec fn qnorm(a: Q4) -> int {
    a.0 * a.0 + a.1 * a.1 + a.2 * a.2 + a.3 * a.3
}

/// q^k: k products starting from 1.
pub open spec fn qpow(a: Q4, k: nat) -> Q4
    decreases k,
{
    if k == 0 {
        (1, 0, 0, 0)
    } else {
        qmul(qpow(a, (k - 1) as nat), a)
    }
}

/// Entry (i, j) of the integer rotation matrix M(q) = |q|²·R(q).
pub open spec fn qmat(a: Q4, i: int, j: int) -> int {
    let (w, x, y, z) = a;
    if i == 0 {
        if j == 0 { w * w + x * x - y * y - z * z } else if j == 1 { 2 * (x * y - w * z) } else { 2 * (x * z + w * y) }
    } else if i == 1 {
        if j == 0 { 2 * (x * y + w * z) } else if j == 1 { w * w - x * x + y * y - z * z } else { 2 * (y * z - w * x) }
    } else {
        if j == 0 { 2 * (x * z - w * y) } else if j == 1 { 2 * (y * z + w * x) } else { w * w - x * x - y * y + z * z }
    }
}

/// Column i times column j of M(q): Σ_k M[k][i]·M[k][j].
pub open spec fn qgram(a: Q4, i: int, j: int) -> int {
    qmat(a, 0, i) * qmat(a, 0, j) + qmat(a, 1, i) * qmat(a, 1, j) + qmat(a, 2, i) * qmat(a, 2, j)
}

/// The sandwich q·(0, v)·q̄.
pub open spec fn sandwich(a: Q4, v: (int, int, int)) -> Q4 {
    qmul(qmul(a, (0, v.0, v.1, v.2)), qconj(a))
}

impl Quat {
    pub fn from_i64(q: [i64; 4]) -> (r: Quat)
        ensures
            r@ == (q[0] as int, q[1] as int, q[2] as int, q[3] as int),
    {
        Quat { w: Big::of(q[0]), x: Big::of(q[1]), y: Big::of(q[2]), z: Big::of(q[3]) }
    }

    pub fn one() -> (r: Quat)
        ensures
            r@ == (1int, 0int, 0int, 0int),
    {
        Quat { w: Big::of(1), x: Big::zero(), y: Big::zero(), z: Big::zero() }
    }

    /// The Hamilton product self·b.
    pub fn mul(&self, b: &Quat) -> (r: Quat)
        ensures
            r@ == qmul(self@, b@),
    {
        let a = self;
        let w = a.w.mul(&b.w).sub(&a.x.mul(&b.x)).sub(&a.y.mul(&b.y)).sub(&a.z.mul(&b.z));
        let x = a.w.mul(&b.x).add(&a.x.mul(&b.w)).add(&a.y.mul(&b.z)).sub(&a.z.mul(&b.y));
        let y = a.w.mul(&b.y).sub(&a.x.mul(&b.z)).add(&a.y.mul(&b.w)).add(&a.z.mul(&b.x));
        let z = a.w.mul(&b.z).add(&a.x.mul(&b.y)).sub(&a.y.mul(&b.x)).add(&a.z.mul(&b.w));
        Quat { w, x, y, z }
    }

    pub fn conj(&self) -> (r: Quat)
        ensures
            r@ == qconj(self@),
    {
        Quat { w: self.w.copy(), x: self.x.negate(), y: self.y.negate(), z: self.z.negate() }
    }

    pub fn norm(&self) -> (r: Big)
        ensures
            r.val() == qnorm(self@),
    {
        self.w.mul(&self.w).add(&self.x.mul(&self.x)).add(&self.y.mul(&self.y)).add(&self.z.mul(&self.z))
    }

    /// self^k.
    pub fn pow(&self, k: u32) -> (r: Quat)
        ensures
            r@ == qpow(self@, k as nat),
    {
        let mut r = Quat::one();
        let mut i: u32 = 0;
        while i < k
            invariant
                i <= k,
                r@ == qpow(self@, i as nat),
            decreases k - i,
        {
            r = r.mul(self);
            i += 1;
        }
        r
    }

    pub fn is_real(&self) -> (r: bool)
        ensures
            r == (self@.1 == 0 && self@.2 == 0 && self@.3 == 0),
    {
        self.x.is_zero() && self.y.is_zero() && self.z.is_zero()
    }

    /// The integer rotation matrix M(q) = |q|²·R(q).
    pub fn matrix(&self) -> (m: [[Big; 3]; 3])
        ensures
            forall|i: int, j: int| 0 <= i < 3 && 0 <= j < 3 ==> (#[trigger] m[i][j]).val() == qmat(self@, i, j),
    {
        let (w, x, y, z) = (&self.w, &self.x, &self.y, &self.z);
        let two = Big::of(2);
        let ww = w.mul(w);
        let xx = x.mul(x);
        let yy = y.mul(y);
        let zz = z.mul(z);
        let m = [
            [
                ww.add(&xx).sub(&yy).sub(&zz),
                two.mul(&x.mul(y).sub(&w.mul(z))),
                two.mul(&x.mul(z).add(&w.mul(y))),
            ],
            [
                two.mul(&x.mul(y).add(&w.mul(z))),
                ww.sub(&xx).add(&yy).sub(&zz),
                two.mul(&y.mul(z).sub(&w.mul(x))),
            ],
            [
                two.mul(&x.mul(z).sub(&w.mul(y))),
                two.mul(&y.mul(z).add(&w.mul(x))),
                ww.sub(&xx).sub(&yy).add(&zz),
            ],
        ];
        proof {
            assert forall|i: int, j: int| 0 <= i < 3 && 0 <= j < 3 implies (#[trigger] m[i][j]).val() == qmat(self@, i, j) by {
                assert(m[0][0].val() == qmat(self@, 0, 0));
            }
        }
        m
    }

    /// The sandwich q·v·q̄ on a pure vector: exact, scaled by |q|².
    pub fn rotate(&self, v: &[Big; 3]) -> (r: [Big; 3])
        ensures
            ({
                let s = sandwich(self@, (v[0].val(), v[1].val(), v[2].val()));
                r[0].val() == s.1 && r[1].val() == s.2 && r[2].val() == s.3
            }),
    {
        let pv = Quat { w: Big::zero(), x: v[0].copy(), y: v[1].copy(), z: v[2].copy() };
        let r = self.mul(&pv).mul(&self.conj());
        [r.x, r.y, r.z]
    }
}

/// Gate: MᵀM = |q|⁴·I exactly.
pub fn orthogonal(q: &Quat) -> (r: bool)
    ensures
        r == (forall|i: int, j: int| 0 <= i < 3 && 0 <= j < 3 ==> #[trigger] qgram(q@, i, j) == if i == j { qnorm(q@) * qnorm(q@) } else { 0 }),
{
    let m = q.matrix();
    let n = q.norm();
    let n2 = n.mul(&n);
    let mut i: usize = 0;
    while i < 3
        invariant
            0 <= i <= 3,
            forall|a: int, b: int| 0 <= a < 3 && 0 <= b < 3 ==> (#[trigger] m[a][b]).val() == qmat(q@, a, b),
            n2.val() == qnorm(q@) * qnorm(q@),
            forall|a: int, b: int| 0 <= a < i && 0 <= b < 3 ==> #[trigger] qgram(q@, a, b) == if a == b { qnorm(q@) * qnorm(q@) } else { 0 },
        decreases 3 - i,
    {
        let mut j: usize = 0;
        while j < 3
            invariant
                0 <= i < 3,
                0 <= j <= 3,
                forall|a: int, b: int| 0 <= a < 3 && 0 <= b < 3 ==> (#[trigger] m[a][b]).val() == qmat(q@, a, b),
                n2.val() == qnorm(q@) * qnorm(q@),
                forall|a: int, b: int| 0 <= a < i && 0 <= b < 3 ==> #[trigger] qgram(q@, a, b) == if a == b { qnorm(q@) * qnorm(q@) } else { 0 },
                forall|b: int| 0 <= b < j ==> #[trigger] qgram(q@, i as int, b) == if i == b { qnorm(q@) * qnorm(q@) } else { 0 },
            decreases 3 - j,
        {
            let s = m[0][i].mul(&m[0][j]).add(&m[1][i].mul(&m[1][j])).add(&m[2][i].mul(&m[2][j]));
            proof {
                assert(m[0][i as int].val() == qmat(q@, 0, i as int));
                assert(m[0][j as int].val() == qmat(q@, 0, j as int));
                assert(m[1][i as int].val() == qmat(q@, 1, i as int));
                assert(m[1][j as int].val() == qmat(q@, 1, j as int));
                assert(m[2][i as int].val() == qmat(q@, 2, i as int));
                assert(m[2][j as int].val() == qmat(q@, 2, j as int));
                assert(s.val() == qgram(q@, i as int, j as int));
            }
            let ok = if i == j { s.same(&n2) } else { s.is_zero() };
            if !ok {
                return false;
            }
            j += 1;
        }
        i += 1;
    }
    true
}

/// Periodicity census: the smallest k in 1..=bound with q^k real, if any.
pub fn period(q: &Quat, bound: u32) -> (r: Option<u32>)
    ensures
        r matches Some(k) ==> 1 <= k <= bound && qpow(q@, k as nat).1 == 0 && qpow(q@, k as nat).2 == 0 && qpow(q@, k as nat).3 == 0,
        forall|k: int| 1 <= k <= bound && (r matches Some(p) ==> k < p) ==> !(#[trigger] qpow(q@, k as nat).1 == 0 && qpow(q@, k as nat).2 == 0 && qpow(q@, k as nat).3 == 0),
{
    let mut r = Quat::one();
    let mut k: u64 = 1;
    while k <= bound as u64
        invariant
            1 <= k,
            k <= bound + 1,
            r@ == qpow(q@, (k - 1) as nat),
            forall|j: int| 1 <= j < k ==> !(#[trigger] qpow(q@, j as nat).1 == 0 && qpow(q@, j as nat).2 == 0 && qpow(q@, j as nat).3 == 0),
        decreases bound + 1 - k,
    {
        r = r.mul(q);
        if r.is_real() {
            return Some(k as u32);
        }
        k += 1;
    }
    None
}

proof fn lemma_sq_sum(a: int, b: int, c: int, d: int)
    by (nonlinear_arith)
    ensures
        (a + b + c + d) * (a + b + c + d) == a * a + b * b + c * c + d * d + 2 * (a * b + a * c + a * d + b * c + b * d + c * d),
{
}

proof fn lemma_diag00(w: int, x: int, y: int, z: int)
    ensures
        (w * w + x * x - y * y - z * z) * (w * w + x * x - y * y - z * z) + (2 * (x * y + w * z)) * (2 * (x * y + w * z))
            + (2 * (x * z - w * y)) * (2 * (x * z - w * y)) == (w * w + x * x + y * y + z * z) * (w * w + x * x + y * y + z * z),
{
    let (aa, bb, cc, dd) = (w * w, x * x, y * y, z * z);
    lemma_sq_sum(aa, bb, -cc, -dd);
    lemma_sq_sum(aa, bb, cc, dd);
    let (p, q, r, s) = (x * y, w * z, x * z, w * y);
    assert(p * p == bb * cc && q * q == aa * dd && r * r == bb * dd && s * s == aa * cc && p * q == r * s) by (nonlinear_arith)
        requires
            p == x * y,
            q == w * z,
            r == x * z,
            s == w * y,
            aa == w * w,
            bb == x * x,
            cc == y * y,
            dd == z * z,
    ;
    assert((2 * (p + q)) * (2 * (p + q)) == 4 * (p * p + q * q) + 8 * (p * q)) by (nonlinear_arith);
    assert((2 * (r - s)) * (2 * (r - s)) == 4 * (r * r + s * s) - 8 * (r * s)) by (nonlinear_arith);
    assert(aa * (-cc) == -(aa * cc) && aa * (-dd) == -(aa * dd) && bb * (-cc) == -(bb * cc) && bb * (-dd) == -(bb * dd)
        && (-cc) * (-dd) == cc * dd && (-cc) * (-cc) == cc * cc && (-dd) * (-dd) == dd * dd) by (nonlinear_arith);
}

proof fn lemma_diag11(w: int, x: int, y: int, z: int)
    ensures
        (2 * (x * y - w * z)) * (2 * (x * y - w * z)) + (w * w - x * x + y * y - z * z) * (w * w - x * x + y * y - z * z)
            + (2 * (y * z + w * x)) * (2 * (y * z + w * x)) == (w * w + x * x + y * y + z * z) * (w * w + x * x + y * y + z * z),
{
    let (aa, bb, cc, dd) = (w * w, x * x, y * y, z * z);
    lemma_sq_sum(aa, -bb, cc, -dd);
    lemma_sq_sum(aa, bb, cc, dd);
    let (p, q, r, s) = (x * y, w * z, y * z, w * x);
    assert(p * p == bb * cc && q * q == aa * dd && r * r == cc * dd && s * s == aa * bb && p * q == r * s) by (nonlinear_arith)
        requires p == x * y, q == w * z, r == y * z, s == w * x, aa == w * w, bb == x * x, cc == y * y, dd == z * z;
    assert((2 * (p - q)) * (2 * (p - q)) == 4 * (p * p + q * q) - 8 * (p * q)) by (nonlinear_arith);
    assert((2 * (r + s)) * (2 * (r + s)) == 4 * (r * r + s * s) + 8 * (r * s)) by (nonlinear_arith);
    assert(aa * (-bb) == -(aa * bb) && aa * (-dd) == -(aa * dd) && (-bb) * cc == -(bb * cc) && (-bb) * (-dd) == bb * dd
        && cc * (-dd) == -(cc * dd) && (-bb) * (-bb) == bb * bb && (-dd) * (-dd) == dd * dd) by (nonlinear_arith);
}

proof fn lemma_diag22(w: int, x: int, y: int, z: int)
    ensures
        (2 * (x * z + w * y)) * (2 * (x * z + w * y)) + (2 * (y * z - w * x)) * (2 * (y * z - w * x))
            + (w * w - x * x - y * y + z * z) * (w * w - x * x - y * y + z * z) == (w * w + x * x + y * y + z * z) * (w * w + x * x + y * y + z * z),
{
    let (aa, bb, cc, dd) = (w * w, x * x, y * y, z * z);
    lemma_sq_sum(aa, -bb, -cc, dd);
    lemma_sq_sum(aa, bb, cc, dd);
    let (p, q, r, s) = (x * z, w * y, y * z, w * x);
    assert(p * p == bb * dd && q * q == aa * cc && r * r == cc * dd && s * s == aa * bb && p * q == r * s) by (nonlinear_arith)
        requires p == x * z, q == w * y, r == y * z, s == w * x, aa == w * w, bb == x * x, cc == y * y, dd == z * z;
    assert((2 * (p + q)) * (2 * (p + q)) == 4 * (p * p + q * q) + 8 * (p * q)) by (nonlinear_arith);
    assert((2 * (r - s)) * (2 * (r - s)) == 4 * (r * r + s * s) - 8 * (r * s)) by (nonlinear_arith);
    assert(aa * (-bb) == -(aa * bb) && aa * (-cc) == -(aa * cc) && (-bb) * (-cc) == bb * cc && (-bb) * dd == -(bb * dd)
        && (-cc) * dd == -(cc * dd) && (-bb) * (-bb) == bb * bb && (-cc) * (-cc) == cc * cc) by (nonlinear_arith);
}

proof fn lemma_off01(w: int, x: int, y: int, z: int)
    ensures
        (w * w + x * x - y * y - z * z) * (2 * (x * y - w * z)) + (2 * (x * y + w * z)) * (w * w - x * x + y * y - z * z)
            + (2 * (x * z - w * y)) * (2 * (y * z + w * x)) == 0,
{
    let (aa, bb, cc, dd) = (w * w, x * x, y * y, z * z);
    let (p, q) = (x * y, w * z);
    assert((x * z) * (y * z) == p * dd && (x * z) * (w * x) == q * bb && (w * y) * (y * z) == q * cc && (w * y) * (w * x) == p * aa)
        by (nonlinear_arith)
        requires p == x * y, q == w * z, aa == w * w, bb == x * x, cc == y * y, dd == z * z;
    assert((2 * (x * z - w * y)) * (2 * (y * z + w * x)) == 4 * ((x * z) * (y * z) + (x * z) * (w * x) - (w * y) * (y * z) - (w * y) * (w * x)))
        by (nonlinear_arith);
    assert((aa + bb - cc - dd) * (2 * (p - q)) + (2 * (p + q)) * (aa - bb + cc - dd) == 4 * p * (aa - dd) + 4 * q * (cc - bb))
        by (nonlinear_arith);
    assert(4 * p * (aa - dd) + 4 * q * (cc - bb) + 4 * (p * dd + q * bb - q * cc - p * aa) == 0) by (nonlinear_arith);
}

proof fn lemma_off02(w: int, x: int, y: int, z: int)
    ensures
        (w * w + x * x - y * y - z * z) * (2 * (x * z + w * y)) + (2 * (x * y + w * z)) * (2 * (y * z - w * x))
            + (2 * (x * z - w * y)) * (w * w - x * x - y * y + z * z) == 0,
{
    let (aa, bb, cc, dd) = (w * w, x * x, y * y, z * z);
    let (u, t) = (x * z, w * y);
    assert((x * y) * (y * z) == u * cc && (x * y) * (w * x) == t * bb && (w * z) * (y * z) == t * dd && (w * z) * (w * x) == u * aa)
        by (nonlinear_arith)
        requires u == x * z, t == w * y, aa == w * w, bb == x * x, cc == y * y, dd == z * z;
    assert((2 * (x * y + w * z)) * (2 * (y * z - w * x)) == 4 * ((x * y) * (y * z) - (x * y) * (w * x) + (w * z) * (y * z) - (w * z) * (w * x)))
        by (nonlinear_arith);
    assert((aa + bb - cc - dd) * (2 * (u + t)) + (2 * (u - t)) * (aa - bb - cc + dd) == 4 * u * (aa - cc) + 4 * t * (bb - dd))
        by (nonlinear_arith);
    assert(4 * u * (aa - cc) + 4 * t * (bb - dd) + 4 * (u * cc - t * bb + t * dd - u * aa) == 0) by (nonlinear_arith);
}

proof fn lemma_off12(w: int, x: int, y: int, z: int)
    ensures
        (2 * (x * y - w * z)) * (2 * (x * z + w * y)) + (w * w - x * x + y * y - z * z) * (2 * (y * z - w * x))
            + (2 * (y * z + w * x)) * (w * w - x * x - y * y + z * z) == 0,
{
    let (aa, bb, cc, dd) = (w * w, x * x, y * y, z * z);
    let (g, h) = (y * z, w * x);
    assert((x * y) * (x * z) == g * bb && (x * y) * (w * y) == h * cc && (w * z) * (x * z) == h * dd && (w * z) * (w * y) == g * aa)
        by (nonlinear_arith)
        requires g == y * z, h == w * x, aa == w * w, bb == x * x, cc == y * y, dd == z * z;
    assert((2 * (x * y - w * z)) * (2 * (x * z + w * y)) == 4 * ((x * y) * (x * z) + (x * y) * (w * y) - (w * z) * (x * z) - (w * z) * (w * y)))
        by (nonlinear_arith);
    assert((aa - bb + cc - dd) * (2 * (g - h)) + (2 * (g + h)) * (aa - bb - cc + dd) == 4 * g * (aa - bb) + 4 * h * (dd - cc))
        by (nonlinear_arith);
    assert(4 * g * (aa - bb) + 4 * h * (dd - cc) + 4 * (g * bb + h * cc - h * dd - g * aa) == 0) by (nonlinear_arith);
}

/// The rotation matrix of every quaternion is exactly orthogonal up to its scale:
/// MᵀM = |q|⁴·I, as integers.
pub proof fn lemma_orthogonal(a: Q4)
    ensures
        forall|i: int, j: int| 0 <= i < 3 && 0 <= j < 3 ==> #[trigger] qgram(a, i, j) == if i == j { qnorm(a) * qnorm(a) } else { 0 },
{
    let (w, x, y, z) = a;
    lemma_diag00(w, x, y, z);
    lemma_diag11(w, x, y, z);
    lemma_diag22(w, x, y, z);
    lemma_off01(w, x, y, z);
    lemma_off02(w, x, y, z);
    lemma_off12(w, x, y, z);
    assert forall|i: int, j: int| 0 <= i < 3 && 0 <= j < 3 implies #[trigger] qgram(a, i, j) == if i == j { qnorm(a) * qnorm(a) } else { 0 } by {
        assert(qgram(a, i, j) == qgram(a, j, i)) by (nonlinear_arith)
            requires
                qgram(a, i, j) == qmat(a, 0, i) * qmat(a, 0, j) + qmat(a, 1, i) * qmat(a, 1, j) + qmat(a, 2, i) * qmat(a, 2, j),
                qgram(a, j, i) == qmat(a, 0, j) * qmat(a, 0, i) + qmat(a, 1, j) * qmat(a, 1, i) + qmat(a, 2, j) * qmat(a, 2, i),
        ;
    }
}


proof fn lemma_scale3(k: int, p: int, q: int, r: int, a: int, b: int, c: int)
    ensures
        (p * a + q * b + r * c) * k == (k * p) * a + (k * q) * b + (k * r) * c,
{
    lemma_mul_is_distributive_add_other_way(k, p * a + q * b, r * c);
    lemma_mul_is_distributive_add_other_way(k, p * a, q * b);
    lemma_mul_is_commutative(p * a, k);
    lemma_mul_is_commutative(q * b, k);
    lemma_mul_is_commutative(r * c, k);
    lemma_mul_is_associative(k, p, a);
    lemma_mul_is_associative(k, q, b);
    lemma_mul_is_associative(k, r, c);
}

proof fn lemma_signs(u: int, v: int)
    ensures
        (-u) * (-v) == u * v,
        (-u) * v == -(u * v),
        u * (-v) == -(u * v),
        u * v == v * u,
{
    lemma_mul_cancels_negatives(u, v);
    lemma_mul_unary_negation(u, v);
    lemma_mul_is_commutative(u, v);
}

proof fn lemma_lin4(m1: int, m2: int, m3: int, m4: int, t: int)
    ensures
        (m1 + m2 - m3 - m4) * t == m1 * t + m2 * t - m3 * t - m4 * t,
{
    lemma_mul_is_distributive_sub_other_way(t, m1 + m2 - m3, m4);
    lemma_mul_is_distributive_sub_other_way(t, m1 + m2, m3);
    lemma_mul_is_distributive_add_other_way(t, m1, m2);
}

proof fn lemma_twice(n1: int, n2: int, t: int)
    ensures
        (2 * (n1 - n2)) * t == 2 * (n1 * t) - 2 * (n2 * t),
        (2 * (n1 + n2)) * t == 2 * (n1 * t) + 2 * (n2 * t),
{
    lemma_mul_is_associative(2, n1 - n2, t);
    lemma_mul_is_distributive_sub_other_way(t, n1, n2);
    lemma_mul_is_associative(2, n1 + n2, t);
    lemma_mul_is_distributive_add_other_way(t, n1, n2);
}

/// The sandwich q·v·q̄ of a pure vector is the integer rotation matrix M(q) applied to it:
/// rotating by the product and by the matrix agree exactly.
pub proof fn lemma_sandwich_is_matrix(q: Q4, v: (int, int, int))
    ensures
        sandwich(q, v) == (
            0int,
            qmat(q, 0, 0) * v.0 + qmat(q, 0, 1) * v.1 + qmat(q, 0, 2) * v.2,
            qmat(q, 1, 0) * v.0 + qmat(q, 1, 1) * v.1 + qmat(q, 1, 2) * v.2,
            qmat(q, 2, 0) * v.0 + qmat(q, 2, 1) * v.1 + qmat(q, 2, 2) * v.2,
        ),
{
    let (w, x, y, z) = q;
    let (a, b, c) = v;
    let p = qmul(q, (0, a, b, c));
    lemma_mul_basics(w);
    lemma_mul_basics(x);
    lemma_mul_basics(y);
    lemma_mul_basics(z);
    lemma_signs(x, a);
    lemma_signs(y, b);
    lemma_signs(z, c);
    lemma_signs(z, b);
    lemma_signs(x, c);
    lemma_signs(y, a);
    assert(p.0 == (-x) * a + (-y) * b + (-z) * c);
    assert(p.1 == w * a + (-z) * b + y * c);
    assert(p.2 == z * a + w * b + (-x) * c);
    assert(p.3 == (-y) * a + x * b + w * c);
    let s = sandwich(q, v);
    assert(s == qmul(p, (w, -x, -y, -z)));
    lemma_scale3(w, -x, -y, -z, a, b, c);
    lemma_scale3(w, w, -z, y, a, b, c);
    lemma_scale3(w, z, w, -x, a, b, c);
    lemma_scale3(w, -y, x, w, a, b, c);
    lemma_scale3(-x, -x, -y, -z, a, b, c);
    lemma_scale3(-x, w, -z, y, a, b, c);
    lemma_scale3(-x, z, w, -x, a, b, c);
    lemma_scale3(-x, -y, x, w, a, b, c);
    lemma_scale3(-y, -x, -y, -z, a, b, c);
    lemma_scale3(-y, w, -z, y, a, b, c);
    lemma_scale3(-y, z, w, -x, a, b, c);
    lemma_scale3(-y, -y, x, w, a, b, c);
    lemma_scale3(-z, -x, -y, -z, a, b, c);
    lemma_scale3(-z, w, -z, y, a, b, c);
    lemma_scale3(-z, z, w, -x, a, b, c);
    lemma_scale3(-z, -y, x, w, a, b, c);
    lemma_signs(w, w);
    lemma_signs(w, x);
    lemma_signs(w, y);
    lemma_signs(w, z);
    lemma_signs(x, x);
    lemma_signs(x, y);
    lemma_signs(x, z);
    lemma_signs(y, y);
    lemma_signs(y, z);
    lemma_signs(z, z);
    lemma_signs(x, w);
    lemma_signs(y, w);
    lemma_signs(z, w);
    lemma_signs(y, x);
    lemma_signs(z, x);
    lemma_signs(z, y);
    assert(qmat(q, 1, 1) == w * w + y * y - x * x - z * z);
    assert(qmat(q, 2, 2) == w * w + z * z - x * x - y * y);
    lemma_lin4(w * w, x * x, y * y, z * z, a);
    lemma_twice(x * y, w * z, b);
    lemma_twice(x * z, w * y, c);
    lemma_twice(x * y, w * z, a);
    lemma_lin4(w * w, y * y, x * x, z * z, b);
    lemma_twice(y * z, w * x, c);
    lemma_twice(x * z, w * y, a);
    lemma_twice(y * z, w * x, b);
    lemma_lin4(w * w, z * z, x * x, y * y, c);
    lemma_mul_unary_negation(w * w, a);
    lemma_mul_unary_negation(w * w, b);
    lemma_mul_unary_negation(w * w, c);
    lemma_mul_unary_negation(w * x, a);
    lemma_mul_unary_negation(w * x, b);
    lemma_mul_unary_negation(w * x, c);
    lemma_mul_unary_negation(w * y, a);
    lemma_mul_unary_negation(w * y, b);
    lemma_mul_unary_negation(w * y, c);
    lemma_mul_unary_negation(w * z, a);
    lemma_mul_unary_negation(w * z, b);
    lemma_mul_unary_negation(w * z, c);
    lemma_mul_unary_negation(x * x, a);
    lemma_mul_unary_negation(x * x, b);
    lemma_mul_unary_negation(x * x, c);
    lemma_mul_unary_negation(x * y, a);
    lemma_mul_unary_negation(x * y, b);
    lemma_mul_unary_negation(x * y, c);
    lemma_mul_unary_negation(x * z, a);
    lemma_mul_unary_negation(x * z, b);
    lemma_mul_unary_negation(x * z, c);
    lemma_mul_unary_negation(y * y, a);
    lemma_mul_unary_negation(y * y, b);
    lemma_mul_unary_negation(y * y, c);
    lemma_mul_unary_negation(y * z, a);
    lemma_mul_unary_negation(y * z, b);
    lemma_mul_unary_negation(y * z, c);
    lemma_mul_unary_negation(z * z, a);
    lemma_mul_unary_negation(z * z, b);
    lemma_mul_unary_negation(z * z, c);
}

} // verus!
