//! The acquisition clock: every position is stamped with its residues on three coprime
//! rings (7, 11, 13), each ring one state word driven at 773 — forward is an add and a
//! conditional subtract, backward is exact, and no history is kept. The three rings give a
//! fourth coordinate in 0..1001 by the Chinese remainder theorem.

use vstd::arithmetic::div_mod::*;
use vstd::prelude::*;

verus! {

pub const DRIVE: u16 = 773;

pub const RINGS: [u16; 3] = [7, 11, 13];

/// One ring of the phase bank: the tooth advances by `stride` modulo `prime`.
#[derive(Clone, Copy, Debug, PartialEq, Eq, Hash, Structural)]
pub struct Phase {
    pub prime: u16,
    pub tooth: u16,
    pub stride: u16,
}

impl Phase {
    /// A phase in its well-formed range: tooth and stride below the prime.
    pub open spec fn wf(&self) -> bool {
        0 < self.stride < self.prime && self.tooth < self.prime
    }

    pub fn new(prime: u16) -> (r: Phase)
        requires
            prime > 0,
        ensures
            r.prime == prime,
            r.tooth == 0,
            r.stride == DRIVE % prime,
    {
        Phase { prime, tooth: 0, stride: DRIVE % prime }
    }

    /// One tick forward: add the stride, subtract the prime once if it was reached.
    pub fn forward(&mut self)
        requires
            old(self).tooth + old(self).stride <= u16::MAX,
        ensures
            final(self).prime == old(self).prime,
            final(self).stride == old(self).stride,
            final(self).tooth == (if old(self).tooth + old(self).stride >= old(self).prime {
                old(self).tooth + old(self).stride - old(self).prime
            } else {
                old(self).tooth + old(self).stride
            }),
            old(self).wf() ==> final(self).wf() && final(self).tooth == (old(self).tooth
                + old(self).stride) % (old(self).prime as int),
    {
        let x = self.tooth + self.stride;
        self.tooth = if x >= self.prime { x - self.prime } else { x };
        proof {
            if old(self).wf() {
                let t = old(self).tooth as int + old(self).stride as int;
                let p = old(self).prime as int;
                if t >= p {
                    lemma_mod_subtraction_once(t, p);
                } else {
                    lemma_small_mod(t as nat, p as nat);
                }
            }
        }
    }

    /// One tick backward: the exact reverse of `forward`.
    pub fn backward(&mut self)
        requires
            old(self).tooth < old(self).stride ==> old(self).tooth + old(self).prime <= u16::MAX
                && old(self).tooth + old(self).prime >= old(self).stride,
        ensures
            final(self).prime == old(self).prime,
            final(self).stride == old(self).stride,
            final(self).tooth == (if old(self).tooth < old(self).stride {
                old(self).tooth + old(self).prime - old(self).stride
            } else {
                old(self).tooth - old(self).stride
            }),
            old(self).wf() ==> final(self).wf() && final(self).tooth == (old(self).tooth
                - old(self).stride) % (old(self).prime as int),
    {
        if self.tooth < self.stride {
            self.tooth += self.prime;
        }
        self.tooth -= self.stride;
        proof {
            if old(self).wf() {
                let t = old(self).tooth as int - old(self).stride as int;
                let p = old(self).prime as int;
                if t < 0 {
                    lemma_mod_add_once(t, p);
                } else {
                    lemma_small_mod(t as nat, p as nat);
                }
            }
        }
    }
}

proof fn lemma_mod_subtraction_once(t: int, p: int)
    requires
        0 < p <= t < 2 * p,
    ensures
        t % p == t - p,
{
    lemma_fundamental_div_mod(t, p);
    lemma_mod_sub_multiples_vanish(t, p);
    lemma_small_mod((t - p) as nat, p as nat);
}

proof fn lemma_mod_add_once(t: int, p: int)
    requires
        0 < p,
        -p <= t < 0,
    ensures
        t % p == t + p,
{
    lemma_mod_add_multiples_vanish(t, p);
    lemma_small_mod((t + p) as nat, p as nat);
}

/// Forward then backward is the identity on a well-formed phase.
pub proof fn lemma_backward_undoes_forward(a: Phase, b: Phase, c: Phase)
    requires
        a.wf(),
        b.prime == a.prime && b.stride == a.stride,
        b.tooth == (if a.tooth + a.stride >= a.prime {
            a.tooth + a.stride - a.prime
        } else {
            a.tooth + a.stride
        }),
        c.prime == b.prime && c.stride == b.stride,
        c.tooth == (if b.tooth < b.stride {
            b.tooth + b.prime - b.stride
        } else {
            b.tooth - b.stride
        }),
    ensures
        c == a,
{
}

/// The address of a position: its teeth on the three rings, and the CRT coordinate in 0..1001.
#[derive(Clone, Copy, Debug, PartialEq, Eq, Hash)]
pub struct Address {
    pub teeth: [u16; 3],
    pub crt: u16,
}

/// The CRT combination 715·t₀ + 364·t₁ + 924·t₂ reduced mod 1001.
pub open spec fn crt_spec(t0: int, t1: int, t2: int) -> int {
    (t0 * 715 + t1 * 364 + t2 * 924) % 1001
}

/// The address of position `pos` from the origin: tooth i = pos·DRIVE mod RINGS[i].
pub open spec fn address_spec(pos: int) -> Address {
    let t0 = ((pos * 773) % 7) as u16;
    let t1 = ((pos * 773) % 11) as u16;
    let t2 = ((pos * 773) % 13) as u16;
    Address { teeth: [t0, t1, t2], crt: crt_spec(t0 as int, t1 as int, t2 as int) as u16 }
}

/// The acquisition clock: ticked once per position from the origin.
#[derive(Clone, Debug)]
pub struct Clock {
    pub rings: [Phase; 3],
    pub pos: u64,
}

impl Clock {
    /// The clock's rings are the three primes driven at 773, each at its position's tooth.
    pub open spec fn inv(&self) -> bool {
        forall|i: int|
            0 <= i < 3 ==> {
                let r = #[trigger] self.rings[i];
                &&& r.prime == RINGS[i]
                &&& r.stride == 773int % (RINGS[i] as int)
                &&& r.tooth == (self.pos * r.stride) % (r.prime as int)
            }
    }

    pub fn origin() -> (c: Clock)
        ensures
            c.pos == 0,
            c.inv(),
    {
        let c = Clock { rings: [Phase::new(7), Phase::new(11), Phase::new(13)], pos: 0 };
        assert forall|i: int| 0 <= i < 3 implies {
            let r = #[trigger] c.rings[i];
            &&& r.prime == RINGS[i]
            &&& r.stride == 773int % (RINGS[i] as int)
            &&& r.tooth == (c.pos * r.stride) % (r.prime as int)
        } by {
            let r = c.rings[i];
            assert(c.pos * r.stride == 0) by (nonlinear_arith) requires c.pos == 0;
        }
        c
    }

    pub fn tick(&mut self)
        requires
            old(self).inv(),
            old(self).pos < u64::MAX,
        ensures
            final(self).inv(),
            final(self).pos == old(self).pos + 1,
    {
        let ghost p0 = self.pos;
        proof {
            self.lemma_inv_wf();
        }
        let mut i: usize = 0;
        while i < 3
            invariant
                0 <= i <= 3,
                self.pos == p0,
                p0 < u64::MAX,
                forall|j: int|
                    0 <= j < 3 ==> {
                        let r = #[trigger] self.rings[j];
                        &&& r.prime == RINGS[j]
                        &&& r.stride == 773int % (RINGS[j] as int)
                        &&& r.tooth < r.prime
                        &&& 0 < r.stride < r.prime
                        &&& j < i ==> r.tooth == ((p0 + 1) * r.stride) % (r.prime as int)
                        &&& j >= i ==> r.tooth == (p0 * r.stride) % (r.prime as int)
                    },
            decreases 3 - i,
        {
            let ghost before = self.rings[i as int];
            proof {
                lemma_step_mod(p0 as int, before.stride as int, before.prime as int);
            }
            let mut r = self.rings[i];
            r.forward();
            self.rings[i] = r;
            i += 1;
        }
        self.pos += 1;
    }

    pub fn untick(&mut self)
        requires
            old(self).inv(),
            old(self).pos > 0,
        ensures
            final(self).inv(),
            final(self).pos == old(self).pos - 1,
    {
        let ghost p0 = self.pos;
        proof {
            self.lemma_inv_wf();
        }
        let mut i: usize = 0;
        while i < 3
            invariant
                0 <= i <= 3,
                self.pos == p0,
                p0 > 0,
                forall|j: int|
                    0 <= j < 3 ==> {
                        let r = #[trigger] self.rings[j];
                        &&& r.prime == RINGS[j]
                        &&& r.stride == 773int % (RINGS[j] as int)
                        &&& r.tooth < r.prime
                        &&& 0 < r.stride < r.prime
                        &&& j < i ==> r.tooth == ((p0 - 1) * r.stride) % (r.prime as int)
                        &&& j >= i ==> r.tooth == (p0 * r.stride) % (r.prime as int)
                    },
            decreases 3 - i,
        {
            let ghost before = self.rings[i as int];
            proof {
                lemma_step_mod((p0 - 1) as int, before.stride as int, before.prime as int);
                lemma_mod_bound((p0 * before.stride) as int, before.prime as int);
            }
            let mut r = self.rings[i];
            r.backward();
            self.rings[i] = r;
            proof {
                let sd = before.stride as int;
                let p = before.prime as int;
                lemma_sub_mod_noop(p0 * sd, sd, p);
                lemma_small_mod(sd as nat, p as nat);
                assert(p0 * sd - sd == (p0 - 1) * sd) by (nonlinear_arith);
            }
            i += 1;
        }
        self.pos -= 1;
    }

    proof fn lemma_inv_wf(&self)
        requires
            self.inv(),
        ensures
            forall|j: int| 0 <= j < 3 ==> (#[trigger] self.rings[j]).wf(),
    {
        assert forall|j: int| 0 <= j < 3 implies (#[trigger] self.rings[j]).wf() by {
            let r = self.rings[j];
            assert(r.prime == RINGS[j]);
            if j == 0 {
                assert(r.stride == 3);
            } else if j == 1 {
                assert(r.stride == 3);
            } else {
                assert(r.stride == 6);
            }
            lemma_mod_bound((self.pos * r.stride) as int, r.prime as int);
        }
    }

    pub fn address(&self) -> (a: Address)
        ensures
            a.teeth[0] == self.rings[0].tooth,
            a.teeth[1] == self.rings[1].tooth,
            a.teeth[2] == self.rings[2].tooth,
            a.crt == crt_spec(a.teeth[0] as int, a.teeth[1] as int, a.teeth[2] as int),
            self.inv() ==> a == address_spec(self.pos as int),
    {
        let teeth = [self.rings[0].tooth, self.rings[1].tooth, self.rings[2].tooth];
        let a = Address { teeth, crt: crt_1001(teeth) };
        proof {
            if self.inv() {
                assert(self.rings[0].prime == RINGS[0]);
                assert(self.rings[1].prime == RINGS[1]);
                assert(self.rings[2].prime == RINGS[2]);
                lemma_mul_mod_noop_right(self.pos as int, 773, 7);
                lemma_mul_mod_noop_right(self.pos as int, 773, 11);
                lemma_mul_mod_noop_right(self.pos as int, 773, 13);
                assert(a.teeth =~= address_spec(self.pos as int).teeth);
            }
        }
        a
    }

    /// The address of position `pos` from the origin, without keeping a clock.
    pub fn address_of(pos: u64) -> (a: Address)
        ensures
            a == address_spec(pos as int),
    {
        let (d7, d11, d13) = (DRIVE as u64 % 7, DRIVE as u64 % 11, DRIVE as u64 % 13);
        assert(d7 == 3 && d11 == 3 && d13 == 6);
        let (r7, r11, r13) = (pos % 7, pos % 11, pos % 13);
        assert(r7 < 7 && r11 < 11 && r13 < 13);
        let teeth = [(r7 * d7 % 7) as u16, (r11 * d11 % 11) as u16, (r13 * d13 % 13) as u16];
        proof {
            lemma_mul_mod_noop(pos as int, 773, 7);
            lemma_mul_mod_noop(pos as int, 773, 11);
            lemma_mul_mod_noop(pos as int, 773, 13);
        }
        let a = Address { teeth, crt: crt_1001(teeth) };
        assert(a.teeth =~= address_spec(pos as int).teeth);
        a
    }
}

proof fn lemma_step_mod(pos: int, s: int, p: int)
    requires
        pos >= 0,
        0 < s < p,
    ensures
        ((pos * s) % p + s) % p == ((pos + 1) * s) % p,
        (pos * s) % p + s < 2 * p,
{
    lemma_mod_bound(pos * s, p);
    lemma_add_mod_noop(pos * s, s, p);
    lemma_mod_twice(pos * s, p);
    lemma_mod_mod(s, p, 1);
    lemma_small_mod(s as nat, p as nat);
    assert((pos + 1) * s == pos * s + s) by (nonlinear_arith);
}

/// Chinese remainder over 7·11·13: the unique x in 0..1001 with x ≡ teeth[i] (mod ring i).
pub fn crt_1001(teeth: [u16; 3]) -> (x: u16)
    ensures
        x == crt_spec(teeth[0] as int, teeth[1] as int, teeth[2] as int),
        x < 1001,
        x % 7 == teeth[0] % 7,
        x % 11 == teeth[1] % 11,
        x % 13 == teeth[2] % 13,
{
    // M_i = 1001/p_i, y_i = M_i^{-1} mod p_i:
    // 143 mod 7 = 3, inv 5; 91 mod 11 = 3, inv 4; 77 mod 13 = 12, inv 12
    let x = (teeth[0] as u32 * 143 * 5 + teeth[1] as u32 * 91 * 4 + teeth[2] as u32 * 77 * 12)
        % 1001;
    proof {
        lemma_crt_residues(teeth[0] as int, teeth[1] as int, teeth[2] as int);
    }
    x as u16
}

pub proof fn lemma_crt_residues(t0: int, t1: int, t2: int)
    requires
        t0 >= 0,
        t1 >= 0,
        t2 >= 0,
    ensures
        crt_spec(t0, t1, t2) % 7 == t0 % 7,
        crt_spec(t0, t1, t2) % 11 == t1 % 11,
        crt_spec(t0, t1, t2) % 13 == t2 % 13,
{
    let s = t0 * 715 + t1 * 364 + t2 * 924;
    lemma_mod_mod(s, 7, 143);
    lemma_mod_mod(s, 11, 91);
    lemma_mod_mod(s, 13, 77);
    assert(s == t0 + 7 * (102 * t0 + 52 * t1 + 132 * t2));
    assert(s == t1 + 11 * (65 * t0 + 33 * t1 + 84 * t2));
    assert(s == t2 + 13 * (55 * t0 + 28 * t1 + 71 * t2));
    lemma_mod_multiples_vanish(102 * t0 + 52 * t1 + 132 * t2, t0, 7);
    lemma_mod_multiples_vanish(65 * t0 + 33 * t1 + 84 * t2, t1, 11);
    lemma_mod_multiples_vanish(55 * t0 + 28 * t1 + 71 * t2, t2, 13);
}

/// c·(y mod p) ≡ c·y (mod 1001) when c·p is a multiple of 1001.
proof fn lemma_scaled_residue(y: int, c: int, p: int, k: int)
    requires
        y >= 0,
        p > 0,
        c * p == 1001 * k,
    ensures
        (c * (y % p)) % 1001 == (c * y) % 1001,
{
    lemma_fundamental_div_mod(y, p);
    let q = y / p;
    assert(c * y == c * (y % p) + 1001 * (k * q)) by (nonlinear_arith)
        requires y == p * q + y % p, c * p == 1001 * k;
    lemma_mod_multiples_vanish(k * q, c * (y % p), 1001);
}

/// The CRT coordinate of a position is its drive product modulo the whole cycle.
pub proof fn lemma_address_crt(pos: int)
    requires
        pos >= 0,
    ensures
        address_spec(pos).crt == (pos * 773) % 1001,
{
    let y = pos * 773;
    assert(pos * 773 >= 0) by (nonlinear_arith) requires pos >= 0;
    lemma_mod_bound(y, 7);
    lemma_mod_bound(y, 11);
    lemma_mod_bound(y, 13);
    lemma_scaled_residue(y, 715, 7, 5);
    lemma_scaled_residue(y, 364, 11, 4);
    lemma_scaled_residue(y, 924, 13, 12);
    let a = 715 * (y % 7);
    let b = 364 * (y % 11);
    let c = 924 * (y % 13);
    lemma_add_mod_noop(a, b, 1001);
    lemma_add_mod_noop(a + b, c, 1001);
    lemma_add_mod_noop(715 * y, 364 * y, 1001);
    lemma_add_mod_noop(715 * y + 364 * y, 924 * y, 1001);
    assert(715 * y + 364 * y + 924 * y == y + 1001 * (2 * y)) by (nonlinear_arith);
    lemma_mod_multiples_vanish(2 * y, y, 1001);
    assert((y % 7) * 715 == a);
    assert((y % 11) * 364 == b);
    assert((y % 13) * 924 == c);
}

/// No two positions within one tour of 1001 share an address: the joint address is a
/// permutation of the cycle, whatever cadence a transcript has.
pub proof fn lemma_no_single_ring_locks(a: int, b: int)
    requires
        0 <= a < 1001,
        0 <= b < 1001,
        address_spec(a).crt == address_spec(b).crt,
    ensures
        a == b,
{
    lemma_address_crt(a);
    lemma_address_crt(b);
    // 773 · 180 ≡ 1 (mod 1001)
    lemma_mul_mod_noop_left(a * 773, 180, 1001);
    lemma_mul_mod_noop_left(b * 773, 180, 1001);
    assert(a * 773 * 180 == a + 1001 * (139 * a)) by (nonlinear_arith);
    assert(b * 773 * 180 == b + 1001 * (139 * b)) by (nonlinear_arith);
    lemma_mod_multiples_vanish(139 * a, a, 1001);
    lemma_mod_multiples_vanish(139 * b, b, 1001);
    lemma_small_mod(a as nat, 1001);
    lemma_small_mod(b as nat, 1001);
}

} // verus!
