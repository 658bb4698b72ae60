//! Rationals in the Stern–Brocot tree, read through their continued fractions: the frame of a
//! node (its two Farey parents) is O(terms) multiply-adds, never a walk, and Minkowski's ?
//! carries a rational to a dyadic. Big integers throughout.

use vstd::arithmetic::mul::{
    lemma_mul_basics, lemma_mul_is_associative, lemma_mul_is_commutative, lemma_mul_is_distributive_add,
    lemma_mul_is_distributive_add_other_way, lemma_mul_is_distributive_sub_other_way,
};
use vstd::arithmetic::power2::pow2;
use vstd::prelude::*;

use crate::big::{
    abs, big_and, big_bits, big_div_rem, big_shl, big_shr, big_to_u32, big_to_u64, bit_and, nbits, trunc_div, trunc_rem, Big,
};

verus! {

/// The values of a sequence of big integers.
pub open spec fn big_vals(v: Seq<Big>) -> Seq<int> {
    v.map_values(|b: Big| b.val())
}

/// The continued fraction of p/q by Euclid with quotients rounded toward zero.
pub open spec fn cf_terms(p: int, q: int) -> Seq<int>
    decreases abs(q),
{
    if q == 0 {
        seq![]
    } else {
        proof {
            assert(abs(trunc_rem(p, q)) < abs(q));
        }
        seq![trunc_div(p, q)] + cf_terms(q, trunc_rem(p, q))
    }
}

/// The continued-fraction terms of p/q.
pub fn cf(p: &Big, q: &Big) -> (out: Vec<Big>)
    ensures
        big_vals(out@) == cf_terms(p.val(), q.val()),
{
    let mut p = p.copy();
    let mut q = q.copy();
    let ghost whole = cf_terms(p.val(), q.val());
    let mut out: Vec<Big> = Vec::new();
    while !q.is_zero()
        invariant
            big_vals(out@) + cf_terms(p.val(), q.val()) == whole,
        decreases abs(q.val()),
    {
        let (d, r) = big_div_rem(&p, &q);
        let ghost before = big_vals(out@);
        proof {
            assert(cf_terms(p.val(), q.val()) == seq![d.val()] + cf_terms(q.val(), r.val()));
        }
        out.push(d);
        proof {
            assert(big_vals(out@) =~= before.push(out@.last().val()));
            assert(big_vals(out@) + cf_terms(q.val(), r.val()) =~= before + cf_terms(p.val(), q.val()));
        }
        p = q;
        q = r;
    }
    proof {
        assert(big_vals(out@) + seq![] =~= big_vals(out@));
    }
    out
}

/// The convergents after the first i terms: (p_i, q_i, p_{i−1}, q_{i−1}).
pub open spec fn convergents(a: Seq<int>, i: int) -> (int, int, int, int)
    decreases i,
{
    if i <= 1 {
        (a[0], 1, 1, 0)
    } else {
        let s = convergents(a, i - 1);
        (a[i - 1] * s.0 + s.2, a[i - 1] * s.1 + s.3, s.0, s.1)
    }
}

/// The rational of continued-fraction terms, as its last convergent (p, q).
pub fn from_cf(a: &[Big]) -> (r: (Big, Big))
    requires
        a.len() >= 1,
    ensures
        r.0.val() == convergents(big_vals(a@), a.len() as int).0,
        r.1.val() == convergents(big_vals(a@), a.len() as int).1,
{
    let ghost av = big_vals(a@);
    let mut p0 = Big::of(1);
    let mut q0 = Big::zero();
    let mut p1 = a[0].copy();
    let mut q1 = Big::of(1);
    let mut i: usize = 1;
    while i < a.len()
        invariant
            1 <= i <= a.len(),
            av == big_vals(a@),
            convergents(av, i as int) == (p1.val(), q1.val(), p0.val(), q0.val()),
        decreases a.len() - i,
    {
        let p2 = a[i].mul(&p1).add(&p0);
        let q2 = a[i].mul(&q1).add(&q0);
        p0 = p1;
        q0 = q1;
        p1 = p2;
        q1 = q2;
        i += 1;
    }
    (p1, q1)
}

/// Terms in the form Euclid gives for a positive rational: a natural integer part, every later
/// term at least 1, and the last at least 2 when there is more than one.
pub open spec fn canonical_terms(a: Seq<int>) -> bool {
    &&& a.len() >= 1
    &&& a[0] >= 0
    &&& forall|i: int| 1 <= i < a.len() ==> #[trigger] a[i] >= 1
    &&& a.len() >= 2 ==> a[a.len() - 1] >= 2
}

/// The rational of the terms a[i..], folded from the back: (numerator, denominator).
pub open spec fn tail_value(a: Seq<int>, i: int) -> (int, int)
    decreases a.len() - i,
{
    if i >= a.len() - 1 {
        (a[a.len() - 1], 1)
    } else {
        let t = tail_value(a, i + 1);
        (a[i] * t.0 + t.1, t.0)
    }
}

/// Past the integer part, a tail of canonical terms is a fraction above 1 in lowest form's
/// order: numerator > denominator ≥ 1.
proof fn lemma_tail_value_order(a: Seq<int>, i: int)
    requires
        canonical_terms(a),
        1 <= i < a.len(),
    ensures
        tail_value(a, i).0 > tail_value(a, i).1 >= 1,
    decreases a.len() - i,
{
    if i < a.len() - 1 {
        lemma_tail_value_order(a, i + 1);
        let t = tail_value(a, i + 1);
        assert(a[i] * t.0 >= t.0) by (nonlinear_arith)
            requires
                a[i] >= 1,
                t.0 >= 1,
        ;
    }
}

/// Euclid reads a tail of canonical terms back term for term.
proof fn lemma_cf_of_tail(a: Seq<int>, i: int)
    requires
        canonical_terms(a),
        0 <= i < a.len(),
    ensures
        cf_terms(tail_value(a, i).0, tail_value(a, i).1) == a.subrange(i, a.len() as int),
    decreases a.len() - i,
{
    let t = tail_value(a, i);
    if i == a.len() - 1 {
        if i >= 1 {
            assert(a[i] >= 1);
        }
        assert(t.0 >= 0);
        vstd::arithmetic::div_mod::lemma_fundamental_div_mod_converse(t.0, 1, t.0, 0);
        assert(trunc_div(t.0, 1) == t.0);
        assert(trunc_rem(t.0, 1) == 0);
        assert(cf_terms(1, 0) == Seq::<int>::empty());
        assert(a.subrange(i, a.len() as int) =~= seq![a[i]]);
    } else {
        lemma_cf_of_tail(a, i + 1);
        lemma_tail_value_order(a, i + 1);
        let u = tail_value(a, i + 1);
        assert(a[i] >= 0);
        assert(a[i] * u.0 >= 0) by (nonlinear_arith)
            requires
                a[i] >= 0,
                u.0 >= 1,
        ;
        vstd::arithmetic::div_mod::lemma_fundamental_div_mod_converse(a[i] * u.0 + u.1, u.0, a[i], u.1);
        assert(trunc_div(t.0, t.1) == a[i]);
        assert(trunc_rem(t.0, t.1) == u.1);
        assert(a.subrange(i, a.len() as int) =~= seq![a[i]] + a.subrange(i + 1, a.len() as int));
    }
}

/// The convergents carried over a tail: the whole rational is p_i·P + p_{i−1}·Q over
/// q_i·P + q_{i−1}·Q, (P, Q) the value of the terms from i on.
proof fn lemma_tail_convergents(a: Seq<int>, i: int)
    requires
        1 <= i < a.len(),
    ensures
        ({
            let s = convergents(a, i);
            let t = tail_value(a, i);
            tail_value(a, 0) == (s.0 * t.0 + s.2 * t.1, s.1 * t.0 + s.3 * t.1)
        }),
    decreases i,
{
    let t = tail_value(a, i);
    if i == 1 {
        lemma_mul_basics(t.0);
        lemma_mul_basics(t.1);
        lemma_mul_is_commutative(a[0], t.0);
    } else {
        lemma_tail_convergents(a, i - 1);
        let s = convergents(a, i - 1);
        let n = a[i - 1];
        assert(tail_value(a, i - 1) == (n * t.0 + t.1, t.0));
        assert(convergents(a, i) == (n * s.0 + s.2, n * s.1 + s.3, s.0, s.1));
        lemma_carry(s.0, s.2, n, t.0, t.1);
        lemma_carry(s.1, s.3, n, t.0, t.1);
    }
}

proof fn lemma_carry(p: int, p0: int, n: int, x: int, y: int)
    ensures
        p * (n * x + y) + p0 * x == (n * p + p0) * x + p * y,
{
    lemma_mul_is_distributive_add(p, n * x, y);
    lemma_mul_is_associative(p, n, x);
    lemma_mul_is_commutative(p, n);
    lemma_mul_is_distributive_add_other_way(x, n * p, p0);
}

/// Euclid gives back the terms the convergents were built from: for canonical terms, the
/// continued fraction of the last convergent p / q is the terms themselves.
pub proof fn lemma_cf_of_convergent(a: Seq<int>)
    requires
        canonical_terms(a),
    ensures
        cf_terms(convergents(a, a.len() as int).0, convergents(a, a.len() as int).1) == a,
{
    let l = a.len() as int;
    lemma_cf_of_tail(a, 0);
    assert(a.subrange(0, l) =~= a);
    if l >= 2 {
        lemma_tail_convergents(a, l - 1);
        let s = convergents(a, l - 1);
        assert(tail_value(a, l - 1) == (a[l - 1], 1int));
        lemma_mul_basics(s.2);
        lemma_mul_basics(s.3);
        lemma_mul_is_commutative(s.0, a[l - 1]);
        lemma_mul_is_commutative(s.1, a[l - 1]);
        assert(convergents(a, l) == (a[l - 1] * s.0 + s.2, a[l - 1] * s.1 + s.3, s.0, s.1));
    }
}

/// Σ of the first i terms.
pub open spec fn term_sum(a: Seq<int>, i: int) -> int
    decreases i,
{
    if i <= 0 { 0 } else { term_sum(a, i - 1) + a[i - 1] }
}

/// Depth of a rational in the Stern–Brocot tree: the sum of its continued-fraction terms, minus 1.
pub fn tree_depth(p: &Big, q: &Big) -> (r: Big)
    ensures
        r.val() == term_sum(cf_terms(p.val(), q.val()), cf_terms(p.val(), q.val()).len() as int) - 1,
{
    let a = cf(p, q);
    let mut s = Big::zero();
    let mut i: usize = 0;
    while i < a.len()
        invariant
            0 <= i <= a.len(),
            s.val() == term_sum(big_vals(a@), i as int),
        decreases a.len() - i,
    {
        s = s.add(&a[i]);
        i += 1;
    }
    s.sub(&Big::of(1))
}

/// The frame after the first i of the terms `a`: [[left, right], [left, right]] as (a, b, c, d)
/// — columns a/c and b/d are the two Farey parents. Term i moves right when i is even and left
/// when odd, the last run one step short.
pub open spec fn frame(a: Seq<int>, i: int) -> (int, int, int, int)
    decreases i,
{
    if i <= 0 {
        (0, 1, 1, 0)
    } else {
        let f = frame(a, i - 1);
        let n = if i == a.len() { a[i - 1] - 1 } else { a[i - 1] };
        if (i - 1) % 2 == 0 {
            (f.0 + n * f.1, f.1, f.2 + n * f.3, f.3)
        } else {
            (f.0, f.1 + n * f.0, f.2, f.3 + n * f.2)
        }
    }
}

/// The frame of a rational in the tree: the matrix [[a, b], [c, d]] whose columns are its two
/// Farey parents.
pub fn tree_frame(p: &Big, q: &Big) -> (r: [Big; 4])
    ensures
        (r[0].val(), r[1].val(), r[2].val(), r[3].val()) == frame(
            cf_terms(p.val(), q.val()),
            cf_terms(p.val(), q.val()).len() as int,
        ),
{
    let a = cf(p, q);
    let ghost av = big_vals(a@);
    let mut fa = Big::zero();
    let mut fb = Big::of(1);
    let mut fc = Big::of(1);
    let mut fd = Big::zero();
    let mut i: usize = 0;
    while i < a.len()
        invariant
            0 <= i <= a.len(),
            av == big_vals(a@),
            av.len() == a.len(),
            frame(av, i as int) == (fa.val(), fb.val(), fc.val(), fd.val()),
        decreases a.len() - i,
    {
        let n = if i + 1 == a.len() { a[i].sub(&Big::of(1)) } else { a[i].copy() };
        if i % 2 == 0 {
            fa = fa.add(&n.mul(&fb));
            fc = fc.add(&n.mul(&fd));
        } else {
            fb = fb.add(&n.mul(&fa));
            fd = fd.add(&n.mul(&fc));
        }
        i += 1;
    }
    [fa, fb, fc, fd]
}

/// Every frame's parents are Farey neighbours: b·c − a·d = 1.
pub proof fn lemma_frame_unimodular(a: Seq<int>, i: int)
    requires
        0 <= i <= a.len(),
    ensures
        frame(a, i).1 * frame(a, i).2 - frame(a, i).0 * frame(a, i).3 == 1,
    decreases i,
{
    if i == 0 {
        let g = frame(a, 0);
        assert(g == (0int, 1int, 1int, 0int));
        assert(g.1 * g.2 - g.0 * g.3 == 1) by (nonlinear_arith)
            requires
                g == (0int, 1int, 1int, 0int),
        ;
    } else {
        lemma_frame_unimodular(a, i - 1);
        let f = frame(a, i - 1);
        let n = if i == a.len() { a[i - 1] - 1 } else { a[i - 1] };
        let g = frame(a, i);
        if (i - 1) % 2 == 0 {
            assert(g == (f.0 + n * f.1, f.1, f.2 + n * f.3, f.3));
            let (g0, g1, g2, g3) = g;
            assert(g1 * g2 - g0 * g3 == f.1 * f.2 - f.0 * f.3) by (nonlinear_arith)
                requires
                    g0 == f.0 + n * f.1,
                    g1 == f.1,
                    g2 == f.2 + n * f.3,
                    g3 == f.3,
            ;
            assert(g.1 * g.2 - g.0 * g.3 == 1);
        } else {
            assert(g == (f.0, f.1 + n * f.0, f.2, f.3 + n * f.2));
            let (g0, g1, g2, g3) = g;
            assert(g1 * g2 - g0 * g3 == f.1 * f.2 - f.0 * f.3) by (nonlinear_arith)
                requires
                    g0 == f.0,
                    g1 == f.1 + n * f.0,
                    g2 == f.2,
                    g3 == f.3 + n * f.2,
            ;
            assert(g.1 * g.2 - g.0 * g.3 == 1);
        }
    }
}

/// Before the last term, the frame's columns are the last two convergents, the newer on the
/// side the last term moved.
proof fn lemma_frame_convergents(a: Seq<int>, i: int)
    requires
        1 <= i < a.len(),
    ensures
        ({
            let s = convergents(a, i);
            frame(a, i) == if i % 2 == 1 { (s.0, s.2, s.1, s.3) } else { (s.2, s.0, s.3, s.1) }
        }),
    decreases i,
{
    if i == 1 {
        let f = frame(a, 0);
        lemma_mul_basics(a[0]);
        assert(frame(a, 1) == (f.0 + a[0] * f.1, f.1, f.2 + a[0] * f.3, f.3));
        assert(convergents(a, 1) == (a[0], 1int, 1int, 0int));
    } else {
        lemma_frame_convergents(a, i - 1);
        let s = convergents(a, i - 1);
        let n = a[i - 1];
        assert(convergents(a, i) == (n * s.0 + s.2, n * s.1 + s.3, s.0, s.1));
        let f = frame(a, i - 1);
        if (i - 1) % 2 == 0 {
            assert(f == (s.2, s.0, s.3, s.1));
            assert(frame(a, i) == (f.0 + n * f.1, f.1, f.2 + n * f.3, f.3));
        } else {
            assert(f == (s.0, s.2, s.1, s.3));
            assert(frame(a, i) == (f.0, f.1 + n * f.0, f.2, f.3 + n * f.2));
        }
    }
}

/// The frame's mediant is the rational itself: (a + b) / (c + d) is the last convergent p / q
/// of the terms, so the node sits between its two Farey parents.
pub proof fn lemma_frame_mediant(a: Seq<int>)
    requires
        a.len() >= 1,
    ensures
        ({
            let f = frame(a, a.len() as int);
            let s = convergents(a, a.len() as int);
            f.0 + f.1 == s.0 && f.2 + f.3 == s.1
        }),
{
    let l = a.len() as int;
    let n = a[l - 1] - 1;
    if l == 1 {
        let f = frame(a, 0);
        lemma_mul_basics(n);
        assert(frame(a, 1) == (f.0 + n * f.1, f.1, f.2 + n * f.3, f.3));
        assert(convergents(a, 1) == (a[0], 1int, 1int, 0int));
    } else {
        lemma_frame_convergents(a, l - 1);
        let s = convergents(a, l - 1);
        let f = frame(a, l - 1);
        assert(convergents(a, l) == (a[l - 1] * s.0 + s.2, a[l - 1] * s.1 + s.3, s.0, s.1));
        lemma_mul_is_distributive_sub_other_way(s.0, a[l - 1], 1);
        lemma_mul_is_distributive_sub_other_way(s.1, a[l - 1], 1);
        if (l - 1) % 2 == 0 {
            assert(frame(a, l) == (f.0 + n * f.1, f.1, f.2 + n * f.3, f.3));
        } else {
            assert(frame(a, l) == (f.0, f.1 + n * f.0, f.2, f.3 + n * f.2));
        }
    }
}

// ── Minkowski's ? ────────────────────────────────────────────────────────────

/// num / 2^k with the shared factors of 2 taken out while k > 0.
pub open spec fn reduced(num: int, k: nat) -> (int, nat)
    decreases k,
{
    if k > 0 && num % 2 == 0 { reduced(num / 2, (k - 1) as nat) } else { (num, k) }
}

proof fn lemma_parity(x: int)
    ensures
        (abs(x) % 2 == 0) == (x % 2 == 0),
{
    vstd::arithmetic::div_mod::lemma_fundamental_div_mod(x, 2);
    vstd::arithmetic::div_mod::lemma_fundamental_div_mod(-x, 2);
    assert((abs(x) % 2 == 0) == (x % 2 == 0)) by (nonlinear_arith)
        requires
            x == 2 * (x / 2) + x % 2,
            -x == 2 * ((-x) / 2) + (-x) % 2,
            0 <= x % 2 < 2,
            0 <= (-x) % 2 < 2,
            abs(x) == if x < 0 { -x } else { x },
    ;
}

fn reduce_dyadic(num: Big, k: u32) -> (r: (Big, u32))
    ensures
        (r.0.val(), r.1 as nat) == reduced(num.val(), k as nat),
{
    let mut num = num;
    let mut k = k;
    let ghost whole = reduced(num.val(), k as nat);
    let two = Big::of(2);
    loop
        invariant
            two.val() == 2,
            reduced(num.val(), k as nat) == whole,
        ensures
            (num.val(), k as nat) == whole,
        decreases k,
    {
        if k == 0 {
            break;
        }
        let (_, rem) = big_div_rem(&num, &two);
        proof {
            lemma_parity(num.val());
        }
        if !rem.is_zero() {
            break;
        }
        proof {
            vstd::arithmetic::power2::lemma2_to64();
        }
        num = big_shr(&num, 1);
        k -= 1;
    }
    (num, k)
}

/// The dyadic value of a cell ⟨m|n⟩ (value m·2^n) as (num, k) = num / 2^k: k = −n reduced, or
/// k = 0 when n ≥ 0.
pub open spec fn cell_dyadic_of(m: int, n: int) -> (int, nat) {
    if n >= 0 { (m * pow2(n as nat), 0) } else { reduced(m, (-n) as nat) }
}

/// The dyadic value of a cell ⟨m|n⟩ (value m·2^n) as (num, k) = num / 2^k: k = −n reduced, or
/// k = 0 when n ≥ 0.
pub fn cell_dyadic(m: u16, n: i32) -> (r: (Big, u32))
    requires
        n > i32::MIN,
    ensures
        (r.0.val(), r.1 as nat) == cell_dyadic_of(m as int, n as int),
{
    if n >= 0 {
        (big_shl(&Big::of(m as i64), n as u32), 0)
    } else {
        reduce_dyadic(Big::of(m as i64), (-n) as u32)
    }
}

/// Σ of terms 1..=i of a continued fraction (the terms after the integer part).
pub open spec fn tail_sum(a: Seq<int>, i: int) -> int
    decreases i,
{
    if i <= 0 { 0 } else { tail_sum(a, i - 1) + a[i] }
}

/// Σ_{t < i} (−1)^t · 2^(k − (S_{t+1} − 1)), S the tail sums.
pub open spec fn alt_sum(a: Seq<int>, k: int, i: int) -> int
    decreases i,
{
    if i <= 0 {
        0
    } else {
        alt_sum(a, k, i - 1) + (if (i - 1) % 2 == 0 { 1int } else { -1int }) * pow2((k - (tail_sum(a, i) - 1)) as nat)
    }
}

/// ? can read these terms: there is one, and past the integer part the terms are natural, the
/// first at least 1, their sum within a u32.
pub open spec fn qmark_reads(a: Seq<int>) -> bool {
    &&& a.len() >= 1
    &&& a.len() > 1 ==> {
        &&& a[1] >= 1
        &&& forall|j: int| 1 <= j < a.len() ==> a[j] >= 0
        &&& tail_sum(a, a.len() - 1) <= u32::MAX
    }
}

/// ?([a0; a1, …, an]) = a0 + Σ_{i≥1} (−1)^(i+1) 2^(1 − (a1 + … + ai)), as a dyadic num / 2^k
/// in lowest terms.
pub open spec fn qmark_of(a: Seq<int>) -> (int, nat) {
    if a.len() == 1 {
        (a[0], 0)
    } else {
        let k = tail_sum(a, a.len() - 1) - 1;
        reduced(a[0] * pow2(k as nat) + alt_sum(a, k, a.len() - 1), k as nat)
    }
}

proof fn lemma_tail_sum_mono(a: Seq<int>, i: int, j: int)
    requires
        0 <= i <= j < a.len(),
        forall|t: int| 1 <= t < a.len() ==> a[t] >= 0,
    ensures
        tail_sum(a, i) <= tail_sum(a, j),
    decreases j - i,
{
    if i < j {
        lemma_tail_sum_mono(a, i, j - 1);
    }
}

/// Whether ? can read p/q: exactly the condition `qmark` asks of its terms.
pub fn qmark_readable(p: &Big, q: &Big) -> (r: bool)
    ensures
        r == qmark_reads(cf_terms(p.val(), q.val())),
{
    let a = cf(p, q);
    let ghost av = big_vals(a@);
    assert(av.len() == a.len());
    if a.len() == 0 {
        return false;
    }
    if a.len() == 1 {
        return true;
    }
    if a[1].is_negative() || a[1].is_zero() {
        return false;
    }
    let mut j: usize = 1;
    while j < a.len()
        invariant
            1 <= j <= a.len(),
            av == big_vals(a@),
            av == cf_terms(p.val(), q.val()),
            av.len() == a.len(),
            forall|t: int| 1 <= t < j ==> av[t] >= 0,
        decreases a.len() - j,
    {
        if a[j].is_negative() {
            proof {
                assert(av[j as int] == a@[j as int].val());
            }
            return false;
        }
        j += 1;
    }
    let ghost len = a.len() as int;
    let mut s: u64 = 0;
    let mut i: usize = 1;
    while i < a.len()
        invariant
            1 <= i <= a.len(),
            av == big_vals(a@),
            av == cf_terms(p.val(), q.val()),
            av.len() == a.len(),
            len == a.len(),
            forall|t: int| 1 <= t < len ==> av[t] >= 0,
            s == tail_sum(av, i - 1),
            s <= u32::MAX,
        decreases a.len() - i,
    {
        proof {
            lemma_tail_sum_mono(av, i as int, len - 1);
        }
        proof {
            assert(av[i as int] == a@[i as int].val());
            assert(tail_sum(av, i as int) == tail_sum(av, i - 1) + av[i as int]);
        }
        match big_to_u32(&a[i]) {
            Some(x) => {
                s = s + x as u64;
                if s > 0xFFFF_FFFF {
                    return false;
                }
            },
            None => {
                proof {
                    assert(tail_sum(av, i as int) == tail_sum(av, i - 1) + av[i as int]);
                    lemma_tail_sum_nonneg(av, i - 1);
                }
                return false;
            },
        }
        i += 1;
    }
    true
}

proof fn lemma_tail_sum_nonneg(a: Seq<int>, i: int)
    requires
        0 <= i < a.len(),
        forall|t: int| 1 <= t < a.len() ==> a[t] >= 0,
    ensures
        tail_sum(a, i) >= 0,
    decreases i,
{
    if i > 0 {
        lemma_tail_sum_nonneg(a, i - 1);
    }
}

/// Whether the Stern–Brocot path of p/q can be spelled: exactly the condition `tree_path` asks
/// of its terms.
pub fn path_spellable(p: &Big, q: &Big) -> (r: bool)
    ensures
        r == path_spells(cf_terms(p.val(), q.val())),
{
    let a = cf(p, q);
    let ghost av = big_vals(a@);
    assert(av.len() == a.len());
    let mut i: usize = 0;
    while i < a.len()
        invariant
            0 <= i <= a.len(),
            av == big_vals(a@),
            av == cf_terms(p.val(), q.val()),
            av.len() == a.len(),
            forall|t: int| 0 <= t < i ==> 0 <= #[trigger] av[t] <= u64::MAX,
        decreases a.len() - i,
    {
        if big_to_u64(&a[i]).is_none() {
            proof {
                assert(av[i as int] == a@[i as int].val());
                assert(!(0 <= av[i as int] <= u64::MAX));
            }
            return false;
        }
        proof {
            assert(av[i as int] == a@[i as int].val());
        }
        i += 1;
    }
    if a.len() > 0 && (a[a.len() - 1].is_negative() || a[a.len() - 1].is_zero()) {
        proof {
            assert(av[a.len() - 1] == a@[a.len() - 1].val());
        }
        return false;
    }
    proof {
        if a.len() > 0 {
            assert(av[a.len() - 1] == a@[a.len() - 1].val());
        }
    }
    true
}

/// ?(p/q) as a dyadic num / 2^k, num odd or k = 0.
#[verifier::spinoff_prover]
pub fn qmark(p: &Big, q: &Big) -> (r: (Big, u32))
    requires
        qmark_reads(cf_terms(p.val(), q.val())),
    ensures
        (r.0.val(), r.1 as nat) == qmark_of(cf_terms(p.val(), q.val())),
{
    let a = cf(p, q);
    let ghost av = big_vals(a@);
    assert(av.len() == a.len());
    if a.len() == 1 {
        return (a[0].copy(), 0);
    }
    let ghost len = a.len() as int;
    let mut sums: Vec<u32> = Vec::new();
    let mut s: u32 = 0;
    let mut i: usize = 1;
    while i < a.len()
        invariant
            1 <= i <= a.len(),
            av == big_vals(a@),
            av.len() == a.len(),
            qmark_reads(av),
            len == a.len(),
            len > 1,
            s == tail_sum(av, i - 1),
            sums.len() == i - 1,
            forall|t: int| 0 <= t < sums.len() ==> #[trigger] sums@[t] == tail_sum(av, t + 1),
        decreases a.len() - i,
    {
        proof {
            lemma_tail_sum_mono(av, i as int, len - 1);
        }
        let x = match big_to_u32(&a[i]) {
            Some(v) => v,
            None => {
                proof {
                    assert(av[i as int] >= 0);
                    lemma_tail_sum_mono(av, i as int - 1, i as int);
                }
                0
            },
        };
        s = s + x;
        sums.push(s);
        i += 1;
    }
    proof {
        lemma_tail_sum_mono(av, 1, len - 1);
        assert(tail_sum(av, 0) == 0);
        assert(tail_sum(av, 1) == av[1]);
        assert(s == tail_sum(av, len - 1));
        assert(s >= 1);
    }
    let k = s - 1;
    let mut num = big_shl(&a[0], k);
    let mut t: usize = 0;
    while t < sums.len()
        invariant
            0 <= t <= sums.len(),
            sums.len() == len - 1,
            av == big_vals(a@),
            av.len() == len,
            qmark_reads(av),
            len > 1,
            k == tail_sum(av, len - 1) - 1,
            forall|j: int| 0 <= j < sums.len() ==> #[trigger] sums@[j] == tail_sum(av, j + 1),
            num.val() == av[0] * pow2(k as nat) + alt_sum(av, k as int, t as int),
        decreases sums.len() - t,
    {
        proof {
            lemma_tail_sum_mono(av, 1, t + 1);
            lemma_tail_sum_mono(av, t + 1, len - 1);
            assert(tail_sum(av, 0) == 0);
            assert(tail_sum(av, 1) == av[1]);
            assert(sums@[t as int] == tail_sum(av, t + 1));
        }
        let term = big_shl(&Big::of(1), k - (sums[t] - 1));
        let ghost before = num.val();
        if t % 2 == 0 {
            num = num.add(&term);
        } else {
            num = num.sub(&term);
        }
        proof {
            let e = pow2((k - (tail_sum(av, t + 1) - 1)) as nat) as int;
            assert(term.val() == e);
            let i = t + 1;
            assert((i - 1) % 2 == t % 2);
            assert(alt_sum(av, k as int, i) == alt_sum(av, k as int, i - 1) + (if (i - 1) % 2 == 0 { 1int } else { -1int }) * e);
            if t % 2 == 0 {
                assert(num.val() == before + e);
                assert(alt_sum(av, k as int, i) == alt_sum(av, k as int, t as int) + e);
            } else {
                assert(num.val() == before - e);
                assert((i - 1) % 2 != 0);
                assert((if (i - 1) % 2 == 0 { 1int } else { -1int }) == -1int);
                assert((-1int) * e == -e);
                assert(alt_sum(av, k as int, i) == alt_sum(av, k as int, t as int) - e);
            }
        }
        t += 1;
    }
    reduce_dyadic(num, k)
}

// ── the inverse of ? ─────────────────────────────────────────────────────────

/// n is a power of two.
pub open spec fn power_of_two(n: nat) -> bool
    decreases n,
{
    if n <= 1 { n == 1 } else { n % 2 == 0 && power_of_two(n / 2) }
}

proof fn lemma_nbits(n: nat)
    requires
        n >= 1,
    ensures
        nbits(n) >= 1,
        pow2((nbits(n) - 1) as nat) <= n < pow2(nbits(n)),
        power_of_two(n) <==> n == pow2((nbits(n) - 1) as nat),
    decreases n,
{
    vstd::arithmetic::power2::lemma2_to64();
    if n == 1 {
        assert(nbits(0) == 0);
        assert(nbits(1) == 1);
    } else {
        let h = n / 2;
        lemma_nbits(h);
        let b = nbits(h);
        assert(nbits(n) == b + 1);
        vstd::arithmetic::power2::lemma_pow2_unfold(b);
        vstd::arithmetic::power2::lemma_pow2_unfold(b + 1);
        assert(n == 2 * h + n % 2);
        assert(pow2((b + 1 - 1) as nat) == pow2(b));
        assert(pow2(b) <= n);
        assert(n < pow2(b + 1));
        if power_of_two(n) {
            assert(n % 2 == 0 && power_of_two(h));
        }
        if n == pow2(b) {
            assert(n % 2 == 0);
            assert(h == pow2((b - 1) as nat));
        }
    }
}

proof fn lemma_and_self(m: nat)
    ensures
        bit_and(m, m) == m,
    decreases m,
{
    if m > 0 {
        lemma_and_self(m / 2);
        assert((m % 2) * (m % 2) == m % 2) by (nonlinear_arith)
            requires
                0 <= m % 2 < 2,
        ;
    }
}

/// For r ≥ 1: r & (r − 1) is 0 exactly when r is a power of two.
proof fn lemma_and_pred(r: nat)
    requires
        r >= 1,
    ensures
        (bit_and(r, (r - 1) as nat) == 0) == power_of_two(r),
    decreases r,
{
    if r > 1 {
        let m = r / 2;
        if r % 2 == 0 {
            lemma_and_pred(m);
            let q = (r - 1) as nat;
            assert(q / 2 == m - 1 && q % 2 == 1 && r % 2 == 0 && q != 0);
            assert(bit_and(r, q) == 2 * bit_and(r / 2, q / 2) + (r % 2) * (q % 2));
            assert(bit_and(r, q) == 2 * bit_and(m, (m - 1) as nat));
        } else {
            lemma_and_self(m);
            let q = (r - 1) as nat;
            assert(q / 2 == m && q % 2 == 0 && r % 2 == 1 && q != 0);
            assert(bit_and(r, q) == 2 * bit_and(r / 2, q / 2) + (r % 2) * (q % 2));
            assert(bit_and(r, q) == 2 * bit_and(m, m));
        }
    }
}

/// The greedy terms of ?⁻¹ from remainder r < 2^k after tail sum s: each step takes the largest
/// power of two below r (exactly r when r is one) and reflects r under it.
pub open spec fn inv_terms(r: int, k: int, s: int) -> Seq<int>
    decreases r,
    when 0 <= r && 0 <= k && r < pow2(k as nat)
{
    if r == 0 {
        seq![]
    } else {
        let b = nbits(r as nat) as int;
        let t = k - b;
        let sm1 = if r == pow2((b - 1) as nat) { t + 1 } else { t };
        let si = sm1 + 1;
        proof {
            lemma_inv_step(r, k);
        }
        seq![si - s] + inv_terms(pow2((k - sm1) as nat) - r, k, si)
    }
}

/// One greedy step keeps the remainder below 2^k and shrinks it.
pub proof fn lemma_inv_step(r: int, k: int)
    requires
        0 < r < pow2(k as nat),
        0 <= k,
    ensures
        ({
            let b = nbits(r as nat) as int;
            let t = k - b;
            let sm1 = if r == pow2((b - 1) as nat) { t + 1 } else { t };
            let r2 = pow2((k - sm1) as nat) - r;
            &&& 1 <= b <= k
            &&& 0 <= t
            &&& sm1 <= k
            &&& 0 <= r2 < r
            &&& r2 < pow2(k as nat)
            &&& r2 > 0 ==> nbits(r2 as nat) < b && t + 1 <= k - nbits(r2 as nat)
        }),
{
    lemma_nbits(r as nat);
    let b = nbits(r as nat) as int;
    if b > k {
        vstd::arithmetic::power2::lemma_pow2_strictly_increases(k as nat, (b - 1) as nat);
        if b - 1 == k {
        }
    }
    assert(b <= k) by {
        if b > k {
            if b - 1 > k {
                vstd::arithmetic::power2::lemma_pow2_strictly_increases(k as nat, (b - 1) as nat);
            }
        }
    }
    let t = k - b;
    vstd::arithmetic::power2::lemma_pow2_unfold(b as nat);
    if r != pow2((b - 1) as nat) {
        let r2 = pow2(b as nat) - r;
        assert(0 < r2 < pow2((b - 1) as nat));
        lemma_nbits(r2 as nat);
        let b2 = nbits(r2 as nat) as int;
        if b2 >= b {
            if b2 - 1 > b - 1 {
                vstd::arithmetic::power2::lemma_pow2_strictly_increases((b - 1) as nat, (b2 - 1) as nat);
            }
        }
        if b < k {
            vstd::arithmetic::power2::lemma_pow2_strictly_increases(b as nat, k as nat);
        }
    } else {
        assert((k - (t + 1)) == b - 1);
    }
}

/// ?⁻¹(num / 2^k): the integer part a0 = ⌊num / 2^k⌋ of the reduced dyadic, then the greedy
/// terms of its fractional part, read back as the last convergent (p, q).
pub open spec fn qmark_inv_of(num: int, k: nat) -> (int, int) {
    let (n2, k2) = reduced(num, k);
    let a0 = n2 / pow2(k2) as int;
    let terms = seq![a0] + inv_terms(n2 - a0 * pow2(k2), k2 as int, 0);
    let c = convergents(terms, terms.len() as int);
    (c.0, c.1)
}

proof fn lemma_reduced_k(num: int, k: nat)
    ensures
        reduced(num, k).1 <= k,
    decreases k,
{
    if k > 0 && num % 2 == 0 {
        lemma_reduced_k(num / 2, (k - 1) as nat);
    }
}

/// The alternating value of terms read from the front after tail sum s: the first term
/// closes at s₁ = s + t₀ and gives 2^(k − (s₁ − 1)), less the value of the rest after s₁.
pub open spec fn front_alt(t: Seq<int>, s: int, k: int) -> int
    decreases t.len(),
{
    if t.len() == 0 {
        0
    } else {
        pow2((k - (s + t[0] - 1)) as nat) - front_alt(t.drop_first(), s + t[0], k)
    }
}

/// The tail sum after all of the terms t, starting from s.
pub open spec fn front_end(t: Seq<int>, s: int) -> int
    decreases t.len(),
{
    if t.len() == 0 {
        s
    } else {
        front_end(t.drop_first(), s + t[0])
    }
}

proof fn lemma_pow2_even(e: nat)
    requires
        e >= 1,
    ensures
        pow2(e) % 2 == 0,
{
    vstd::arithmetic::power2::lemma_pow2_unfold(e);
}

/// The greedy terms of an odd remainder below 2^k: each at least 1, the last at least 2, their
/// alternating value is the remainder, and they close at tail sum k + 1.
proof fn lemma_greedy(r: int, k: int, s: int)
    requires
        0 <= k,
        0 < r < pow2(k as nat),
        r % 2 == 1,
        s <= k - nbits(r as nat),
    ensures
        inv_terms(r, k, s).len() >= 1,
        forall|j: int| 0 <= j < inv_terms(r, k, s).len() ==> #[trigger] inv_terms(r, k, s)[j] >= 1,
        inv_terms(r, k, s)[inv_terms(r, k, s).len() - 1] >= 2,
        front_alt(inv_terms(r, k, s), s, k) == r,
        front_end(inv_terms(r, k, s), s) == k + 1,
    decreases r,
{
    lemma_inv_step(r, k);
    lemma_nbits(r as nat);
    let b = nbits(r as nat) as int;
    let t = k - b;
    let sm1 = if r == pow2((b - 1) as nat) { t + 1 } else { t };
    let si = sm1 + 1;
    let r2 = pow2((k - sm1) as nat) - r;
    let rest = inv_terms(r2, k, si);
    let ts = inv_terms(r, k, s);
    assert(ts == seq![si - s] + rest);
    assert(ts.drop_first() =~= rest);
    assert(ts[0] == si - s);
    assert(front_alt(ts, s, k) == pow2((k - sm1) as nat) - front_alt(rest, si, k));
    assert(front_end(ts, s) == front_end(rest, si));
    if r == pow2((b - 1) as nat) {
        assert(r2 == 0);
        if b - 1 >= 1 {
            lemma_pow2_even((b - 1) as nat);
        }
        assert(b == 1);
        assert(rest == Seq::<int>::empty());
        assert(ts =~= seq![si - s]);
        assert(front_alt(rest, si, k) == 0);
        assert(front_end(rest, si) == si);
    } else {
        vstd::arithmetic::power2::lemma_pow2_unfold(b as nat);
        assert(r2 > 0);
        if k - sm1 >= 1 {
            lemma_pow2_even((k - sm1) as nat);
        } else {
            assert(pow2(0) == 1) by {
                vstd::arithmetic::power2::lemma2_to64();
            }
        }
        assert(r2 % 2 == 1);
        lemma_greedy(r2, k, si);
        assert forall|j: int| 0 <= j < ts.len() implies #[trigger] ts[j] >= 1 by {
            if j > 0 {
                assert(ts[j] == rest[j - 1]);
            }
        }
        assert(ts[ts.len() - 1] == rest[rest.len() - 1]);
    }
}

/// Read from the back (as ? sums them) or from the front (as the greedy builds them), the
/// alternating value of the terms past the integer part is the same, and so is their tail sum.
proof fn lemma_alt_from_front(a: Seq<int>, k: int, i: int)
    requires
        a.len() >= 1,
        0 <= i <= a.len() - 1,
    ensures
        alt_sum(a, k, i) + (if i % 2 == 0 { 1int } else { -1int }) * front_alt(a.subrange(i + 1, a.len() as int), tail_sum(a, i), k)
            == front_alt(a.subrange(1, a.len() as int), 0, k),
        front_end(a.subrange(i + 1, a.len() as int), tail_sum(a, i)) == front_end(a.subrange(1, a.len() as int), 0),
    decreases i,
{
    if i > 0 {
        lemma_alt_from_front(a, k, i - 1);
        let u = a.subrange(i, a.len() as int);
        assert(u.drop_first() =~= a.subrange(i + 1, a.len() as int));
        assert(u[0] == a[i]);
        let p = pow2((k - (tail_sum(a, i) - 1)) as nat) as int;
        let f = front_alt(a.subrange(i + 1, a.len() as int), tail_sum(a, i), k);
        let g = front_alt(u, tail_sum(a, i - 1), k);
        assert(g == p - f);
        assert(front_end(u, tail_sum(a, i - 1)) == front_end(a.subrange(i + 1, a.len() as int), tail_sum(a, i)));
        if (i - 1) % 2 == 0 {
            assert((if (i - 1) % 2 == 0 { 1int } else { -1int }) == 1int);
            assert(1int * p == p);
            assert(1int * g == g);
            assert(alt_sum(a, k, i) == alt_sum(a, k, i - 1) + p);
            assert((if i % 2 == 0 { 1int } else { -1int }) == -1int);
            assert((-1int) * f == -f);
        } else {
            assert((if (i - 1) % 2 == 0 { 1int } else { -1int }) == -1int);
            assert((-1int) * p == -p);
            lemma_mul_basics(g);
            vstd::arithmetic::mul::lemma_mul_unary_negation(1, g);
            assert((-1int) * g == -g);
            assert(alt_sum(a, k, i) == alt_sum(a, k, i - 1) - p);
            assert((if i % 2 == 0 { 1int } else { -1int }) == 1int);
            assert(1int * f == f);
        }
    }
}

proof fn lemma_reduced_odd(num: int, k: nat)
    requires
        num >= 0,
    ensures
        reduced(num, k).0 >= 0,
        reduced(num, k).1 == 0 || reduced(num, k).0 % 2 == 1,
        reduced(reduced(num, k).0, reduced(num, k).1) == reduced(num, k),
    decreases k,
{
    if k > 0 && num % 2 == 0 {
        lemma_reduced_odd(num / 2, (k - 1) as nat);
    }
}

/// ? undoes ?⁻¹: for every natural num and k, the continued fraction of the rational partner of
/// num / 2^k carries back, under ?, to num / 2^k in lowest terms — and ? can read it whenever k
/// fits a u32 with room.
pub proof fn lemma_qmark_round_trip(num: int, k: nat)
    requires
        num >= 0,
    ensures
        ({
            let pq = qmark_inv_of(num, k);
            let a = cf_terms(pq.0, pq.1);
            &&& qmark_of(a) == reduced(num, k)
            &&& k < u32::MAX ==> qmark_reads(a)
        }),
{
    let (n2, k2) = reduced(num, k);
    lemma_reduced_odd(num, k);
    lemma_reduced_k(num, k);
    let p = pow2(k2) as int;
    vstd::arithmetic::power2::lemma_pow2_pos(k2);
    vstd::arithmetic::div_mod::lemma_fundamental_div_mod(n2, p);
    let a0 = n2 / p;
    let r = n2 - a0 * p;
    assert(r == n2 % p) by (nonlinear_arith)
        requires
            n2 == p * (n2 / p) + n2 % p,
            a0 == n2 / p,
            r == n2 - a0 * p,
    ;
    assert(a0 >= 0) by {
        vstd::arithmetic::div_mod::lemma_div_pos_is_pos(n2, p);
    }
    let ts = inv_terms(r, k2 as int, 0);
    let terms = seq![a0] + ts;
    let l = terms.len() as int;
    assert(terms.subrange(1, l) =~= ts);
    if k2 == 0 {
        assert(p == 1) by {
            vstd::arithmetic::power2::lemma2_to64();
        }
        assert(r == 0);
        assert(ts == Seq::<int>::empty());
        assert(terms =~= seq![a0]);
        assert(canonical_terms(terms));
        lemma_cf_of_convergent(terms);
        vstd::arithmetic::div_mod::lemma_fundamental_div_mod_converse(n2, 1, n2, 0);
        assert(a0 == n2);
    } else {
        lemma_pow2_even(k2);
        let h = p / 2;
        assert(p == 2 * h);
        lemma_mul_is_associative(a0, 2, h);
        lemma_mul_is_commutative(a0, 2);
        lemma_mul_is_associative(2, a0, h);
        assert(a0 * p == 2 * (a0 * h));
        assert(r % 2 == 1);
        lemma_nbits(r as nat);
        let b = nbits(r as nat);
        if b > k2 {
            if b - 1 > k2 {
                vstd::arithmetic::power2::lemma_pow2_strictly_increases(k2, (b - 1) as nat);
            }
        }
        lemma_greedy(r, k2 as int, 0);
        assert forall|i: int| 1 <= i < terms.len() implies #[trigger] terms[i] >= 1 by {
            assert(terms[i] == ts[i - 1]);
        }
        assert(terms[l - 1] == ts[ts.len() - 1]);
        assert(canonical_terms(terms));
        lemma_cf_of_convergent(terms);
        lemma_alt_from_front(terms, k2 as int, l - 1);
        assert(terms.subrange(l, l) =~= Seq::<int>::empty());
        assert(tail_sum(terms, l - 1) == k2 + 1);
        assert(alt_sum(terms, k2 as int, l - 1) == r);
        assert(a0 * p + r == n2);
        assert(terms[1] == ts[0]);
        if k < u32::MAX {
            assert forall|j: int| 1 <= j < terms.len() implies terms[j] >= 0 by {
                assert(terms[j] >= 1);
            }
        }
    }
}

/// The inverse of ?: the rational whose ? image is num / 2^k. Greedy on the alternating sum.
pub fn qmark_inv(num: &Big, k: u32) -> (r: (Big, Big))
    requires
        k < u32::MAX,
    ensures
        (r.0.val(), r.1.val()) == qmark_inv_of(num.val(), k as nat),
{
    proof {
        lemma_reduced_k(num.val(), k as nat);
    }
    let (num, k) = reduce_dyadic(num.copy(), k);
    let a0 = big_shr(&num, k);
    let mut r = num.sub(&big_shl(&a0, k));
    let ghost p = pow2(k as nat) as int;
    proof {
        vstd::arithmetic::power2::lemma_pow2_pos(k as nat);
        vstd::arithmetic::div_mod::lemma_fundamental_div_mod(num.val(), p);
    }
    let ghost whole = seq![a0.val()] + inv_terms(r.val(), k as int, 0);
    let mut a: Vec<Big> = Vec::new();
    a.push(a0);
    let mut s_prev: u32 = 0;
    proof {
        assert(big_vals(a@) =~= seq![a@[0].val()]);
        if r.val() > 0 {
            lemma_inv_step(r.val(), k as int);
        }
    }
    while !r.is_zero()
        invariant
            k < u32::MAX,
            p == pow2(k as nat),
            0 <= r.val() < p,
            a.len() >= 1,
            big_vals(a@) + inv_terms(r.val(), k as int, s_prev as int) == whole,
            r.val() > 0 ==> s_prev as int <= k - nbits(r.val() as nat),
        decreases r.val(),
    {
        proof {
            lemma_inv_step(r.val(), k as int);
            lemma_nbits(r.val() as nat);
            lemma_and_pred(r.val() as nat);
        }
        let bits = big_bits(&r) as u32;
        let t = k - bits;
        let rm1 = r.sub(&Big::of(1));
        let pw = big_and(&r, &rm1).is_zero();
        let s_minus_1 = if pw { t + 1 } else { t };
        let s_i = s_minus_1 + 1;
        let ghost before = big_vals(a@);
        let ghost r0 = r.val();
        a.push(Big::of_u64((s_i - s_prev) as u64));
        r = big_shl(&Big::of(1), k - s_minus_1).sub(&r);
        proof {
            assert(inv_terms(r0, k as int, s_prev as int) == seq![s_i - s_prev] + inv_terms(r.val(), k as int, s_i as int));
            assert(big_vals(a@) =~= before.push((s_i - s_prev) as int));
            assert(big_vals(a@) + inv_terms(r.val(), k as int, s_i as int) =~= before + inv_terms(r0, k as int, s_prev as int));
        }
        s_prev = s_i;
    }
    proof {
        assert(big_vals(a@) + seq![] =~= big_vals(a@));
    }
    from_cf(a.as_slice())
}

/// The rational partner of the cell ⟨m|n⟩ (value m·2^n): ?⁻¹ applied to its dyadic value, or
/// the integer itself when n ≥ 0.
pub open spec fn cell_partner_of(m: int, n: int) -> (int, int) {
    if n >= 0 { (m * pow2(n as nat), 1) } else { qmark_inv_of(m, (-n) as nat) }
}

/// The rational partner of the cell ⟨m|n⟩ (value m·2^n): ?⁻¹ applied to its dyadic value, or
/// the integer itself when n ≥ 0.
pub fn cell_partner(m: u16, n: i32) -> (r: (Big, Big))
    requires
        n > i32::MIN,
    ensures
        (r.0.val(), r.1.val()) == cell_partner_of(m as int, n as int),
{
    if n >= 0 {
        (big_shl(&Big::of(m as i64), n as u32), Big::of(1))
    } else {
        qmark_inv(&Big::of(m as i64), (-n) as u32)
    }
}

// ── the path ─────────────────────────────────────────────────────────────────

/// The length of run t of the path: term t, the last one step short.
pub open spec fn run_len(a: Seq<int>, t: int) -> int {
    if t == a.len() - 1 { a[t] - 1 } else { a[t] }
}

/// The first i runs of the path: R^a0 L^a1 R^a2 …
pub open spec fn path_chars(a: Seq<int>, i: int) -> Seq<char>
    decreases i,
{
    if i <= 0 {
        seq![]
    } else {
        path_chars(a, i - 1) + Seq::new(run_len(a, i - 1) as nat, |j: int| if (i - 1) % 2 == 0 { 'R' } else { 'L' })
    }
}

/// The path can be spelled: every term is a natural within a u64, the last at least 1.
pub open spec fn path_spells(a: Seq<int>) -> bool {
    &&& forall|t: int| 0 <= t < a.len() ==> 0 <= #[trigger] a[t] <= u64::MAX
    &&& a.len() > 0 ==> a[a.len() - 1] >= 1
}

/// Stern–Brocot path of a rational from its continued fraction: R^a0 L^a1 R^a2 …, the last run
/// one shorter.
pub fn tree_path(p: &Big, q: &Big) -> (s: String)
    requires
        path_spells(cf_terms(p.val(), q.val())),
    ensures
        s@ == path_chars(cf_terms(p.val(), q.val()), cf_terms(p.val(), q.val()).len() as int),
{
    let a = cf(p, q);
    let ghost av = big_vals(a@);
    let mut out: Vec<u8> = Vec::new();
    let ghost mut text: Seq<char> = seq![];
    let mut i: usize = 0;
    while i < a.len()
        invariant
            0 <= i <= a.len(),
            av == big_vals(a@),
            av.len() == a.len(),
            path_spells(av),
            text == path_chars(av, i as int),
            out@ == vstd::utf8::encode_utf8(text),
        decreases a.len() - i,
    {
        let mut n: u64 = match big_to_u64(&a[i]) {
            Some(v) => v,
            None => {
                proof {
                    assert(0 <= av[i as int] <= u64::MAX);
                }
                0
            },
        };
        if i + 1 == a.len() {
            n -= 1;
        }
        let c = if i % 2 == 0 { 'R' } else { 'L' };
        let ghost start = text;
        let mut j: u64 = 0;
        while j < n
            invariant
                j <= n,
                n == run_len(av, i as int),
                text == start + Seq::new(j as nat, |x: int| c),
                out@ == vstd::utf8::encode_utf8(text),
            decreases n - j,
        {
            crate::pf::push_char(&mut out, c);
            proof {
                crate::pf::lemma_encode_concat(text, seq![c]);
                text = text + seq![c];
                assert(text =~= start + Seq::new((j + 1) as nat, |x: int| c));
            }
            j += 1;
        }
        proof {
            assert(Seq::new(n as nat, |x: int| c) =~= Seq::new(run_len(av, i as int) as nat, |x: int| if (i as int) % 2 == 0 { 'R' } else { 'L' }));
        }
        i += 1;
    }
    crate::pf::string_of(&out, Ghost(text))
}

/// The dictionary is one tree read two ways: ? of a cell's rational partner is the cell's own
/// dyadic value, for every cell with a natural core — and ? can read the partner.
pub proof fn lemma_cell_round_trip(m: int, n: int)
    requires
        m >= 0,
        n > i32::MIN,
    ensures
        qmark_of(cf_terms(cell_partner_of(m, n).0, cell_partner_of(m, n).1)) == cell_dyadic_of(m, n),
        qmark_reads(cf_terms(cell_partner_of(m, n).0, cell_partner_of(m, n).1)),
{
    if n >= 0 {
        let x = m * pow2(n as nat);
        assert(x >= 0) by {
            vstd::arithmetic::power2::lemma_pow2_pos(n as nat);
            vstd::arithmetic::mul::lemma_mul_nonnegative(m, pow2(n as nat) as int);
        }
        vstd::arithmetic::div_mod::lemma_fundamental_div_mod_converse(x, 1, x, 0);
        assert(cf_terms(1, 0) == Seq::<int>::empty());
        assert(cf_terms(x, 1) =~= seq![x]);
    } else {
        lemma_qmark_round_trip(m, (-n) as nat);
    }
}

} // verus!
