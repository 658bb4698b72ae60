//! The fold, and the radix kernel over it.
//!
//! Every output row of a weight tensor is folded by (sign, odd core, rung): for each such
//! bucket, the columns that carry it. The fold is static, built once from the Morton grid and
//! the alphabet.
//!
//! The kernel over it:
//!   - activations are prefixed ONCE per token at scale 2^-ACT_FLOOR (the one declared floor);
//!     the tensor's lowest rung is its one denominator, and every bucket lands at the bucket
//!     kernel's scale — the same exact integer, so the same bits;
//!   - a term is ONE ADD: the prefixed activation into its bucket, for every plane riding one
//!     walk of the columns;
//!   - per (sign, odd) the rung chain from the highest rung down: ×2 is one shift, one add per
//!     rung, doubling only;
//!   - per sign the odd chain: Σ(2j+1)·a_j = S_0 + 2·ΣS_j by suffix sums, no multiply;
//!   - the two signs subtract, one collapse per plane at the gather.

use vstd::arithmetic::power2::*;
use vstd::prelude::*;

use crate::cells::{cell_m, cell_n, decompose, finite, is_finite, lemma_cell_bounds, sheet_of};
use crate::lanes::{lemma_shl_exact, lemma_wrap_add, lemma_wrap_add_right, lemma_wrap_congruent, lemma_wrap_range, lemma_wrap_small, wrap256, p256, in_lane};
use crate::surfaces::{Atoms, Grid};
use crate::matmul::{grid_row, term, wcell_out, wdot, ids_in, act_m, act_n, act_term, collapse_fits, collapse_spec, dropped, frac_for, row_sticky, Bucket, Wide, ACT_FLOOR};
use crate::lanes::lemma_wrap_sub;

verus! {

// ── the prefixed plane ───────────────────────────────────────────────────────

/// One activation plane prefixed at the declared floor: value·2^ACT_FLOOR exactly, signed;
/// an activation below 2^-ACT_FLOOR is dropped with sticky.
pub struct Plane {
    pub v: Vec<i128>,
    pub sticky: bool,
}

impl Plane {
    /// The plane is the prefix of the patterns `x`.
    pub open spec fn reads(&self, x: Seq<u16>) -> bool {
        &&& self.v.len() == x.len()
        &&& forall|i: int| 0 <= i < x.len() ==> #[trigger] self.v[i] == act_term(x[i])
        &&& self.sticky == row_sticky(x)
    }
}

/// A pattern the prefix accepts: finite, and at most 2^22·core when kept (the lane's top).
pub open spec fn prefixable(p: u16) -> bool {
    &&& finite(p)
    &&& (cell_m(p) != 0 && cell_n(p) + 90 >= 0 ==> cell_n(p) + 90 <= 112)
}

pub fn prefix(x: &[u16]) -> (pl: Plane)
    requires
        forall|i: int| 0 <= i < x.len() ==> prefixable(#[trigger] x[i]),
    ensures
        pl.reads(x@),
{
    let mut v: Vec<i128> = Vec::new();
    let mut sticky = false;
    let mut i: usize = 0;
    while i < x.len()
        invariant
            0 <= i <= x.len(),
            forall|j: int| 0 <= j < x.len() ==> prefixable(#[trigger] x[j]),
            v.len() == i,
            forall|j: int| 0 <= j < i ==> #[trigger] v[j] == act_term(x@[j]),
            sticky == exists|j: int| 0 <= j < i && dropped(#[trigger] x@[j]),
        decreases x.len() - i,
    {
        let p = x[i];
        let (s, m, n) = decompose(p);
        proof {
            lemma_cell_bounds(p);
            crate::cells::lemma_fields(p);
        }
        let sh: i32 = n as i32 + ACT_FLOOR;
        let t: i128 = if m == 0 {
            0
        } else if sh >= 0 {
            proof {
                lemma2_to64();
                crate::lanes::lemma_pow2_128();
                lemma_pow2_adds(112, 8);
                lemma_pow2_strictly_increases(120, 127);
                lemma_pow2_strictly_increases(127, 128);
                if sh < 112 {
                    lemma_pow2_strictly_increases(sh as nat, 112);
                }
                assert(m as int * pow2(sh as nat) <= 255 * pow2(112)) by (nonlinear_arith)
                    requires m < 256, pow2(sh as nat) <= pow2(112), pow2(sh as nat) >= 0;
                lemma_pow2_pos(112);
                assert(255 * pow2(112) < pow2(120)) by (nonlinear_arith)
                    requires pow2(120) == pow2(112) * pow2(8), pow2(8) == 256, pow2(112) > 0;
                lemma_pow2_unfold(128);
                lemma_shl_exact(m as u128, sh as u128);
            }
            let u: u128 = (m as u128) << (sh as u128);
            proof {
                assert(u < 0x8000_0000_0000_0000_0000_0000_0000_0000);
            }
            u as i128
        } else {
            sticky = true;
            0
        };
        let val = if s != 0 { -t } else { t };
        v.push(val);
        proof {
            assert(val == act_term(p));
            if dropped(p) {
                assert(exists|j: int| 0 <= j < i + 1 && dropped(#[trigger] x@[j])) by {
                    assert(dropped(x@[i as int]));
                }
            }
        }
        i += 1;
    }
    Plane { v, sticky }
}

// ── the odd chain ────────────────────────────────────────────────────────────

/// Σ_{i ≥ j} a_i.
pub open spec fn suffix(a: Seq<int>, j: int) -> int
    decreases a.len() - j,
{
    if j < 0 || j >= a.len() {
        0
    } else {
        a[j] + suffix(a, j + 1)
    }
}

/// Σ_{i ≥ j} (i − j + 1)·a_i, as a sum of suffix sums.
pub open spec fn suffix_tri(a: Seq<int>, j: int) -> int
    decreases a.len() - j,
{
    if j < 0 || j >= a.len() {
        0
    } else {
        suffix_tri(a, j + 1) + suffix(a, j)
    }
}

/// Σ_{i ≥ j} (2i + 1)·a_i: every lane weighted by its odd.
pub open spec fn odd_weighted(a: Seq<int>, j: int) -> int
    decreases a.len() - j,
{
    if j < 0 || j >= a.len() {
        0
    } else {
        (2 * j + 1) * a[j] + odd_weighted(a, j + 1)
    }
}

proof fn lemma_odd_weighted(a: Seq<int>, j: int)
    requires
        0 <= j <= a.len(),
    ensures
        odd_weighted(a, j) == 2 * suffix_tri(a, j) + (2 * j - 1) * suffix(a, j),
    decreases a.len() - j,
{
    if j < a.len() {
        lemma_odd_weighted(a, j + 1);
        let s1 = suffix(a, j + 1);
        let t1 = suffix_tri(a, j + 1);
        assert((2 * j + 1) * a[j] + (2 * t1 + (2 * (j + 1) - 1) * s1) == 2 * (t1 + (a[j] + s1)) + (2 * j - 1) * (a[j]
            + s1)) by (nonlinear_arith);
    }
}

/// The lanes' values as integers.
pub open spec fn vals(a: Seq<Wide>) -> Seq<int> {
    Seq::new(a.len(), |i: int| a[i].val())
}

pub proof fn lemma_wrap_mul(x: int, m: int)
    ensures
        wrap256(wrap256(x) * m) == wrap256(x * m),
{
    let k = lemma_wrap_range(x);
    assert(wrap256(x) * m == x * m + (k * m) * p256()) by (nonlinear_arith)
        requires wrap256(x) == x + k * p256();
    lemma_wrap_congruent(x * m, k * m);
}

/// Σ_j (2j + 1)·a_j by suffix sums: one add per lane into the running suffix, one add of the
/// suffix into the total, and one shift at the end. No multiply.
proof fn lemma_chain_step(av: Seq<int>, j: int, s0: int, t0: int)
    requires
        0 <= j < av.len(),
        s0 == wrap256(suffix(av, j + 1)),
        t0 == wrap256(suffix_tri(av, j + 1)),
    ensures
        wrap256(s0 + av[j]) == wrap256(suffix(av, j)),
        wrap256(t0 + wrap256(suffix(av, j))) == wrap256(suffix_tri(av, j)),
{
    lemma_wrap_add(suffix(av, j + 1), av[j]);
    lemma_wrap_add(suffix_tri(av, j + 1), suffix(av, j));
    lemma_wrap_add_right(suffix_tri(av, j + 1), suffix(av, j));
}

proof fn lemma_chain_close(av: Seq<int>, s1: int, t1: int)
    requires
        av.len() >= 1,
        s1 == wrap256(suffix(av, 1)),
        t1 == wrap256(suffix_tri(av, 1)),
    ensures
        wrap256(wrap256(s1 + av[0]) + wrap256(t1 * pow2(1))) == wrap256(odd_weighted(av, 0)),
{
    lemma2_to64();
    assert(suffix(av, 0) == av[0] + suffix(av, 1));
    assert(suffix_tri(av, 0) == suffix_tri(av, 1) + suffix(av, 0));
    lemma_wrap_add(suffix(av, 1), av[0]);
    lemma_wrap_mul(suffix_tri(av, 1), 2);
    lemma_wrap_add(suffix(av, 0), wrap256(suffix_tri(av, 1) * 2));
    lemma_wrap_add_right(suffix(av, 0), suffix_tri(av, 1) * 2);
    lemma_odd_weighted(av, 0);
    let a = wrap256(s1 + av[0]);
    let b = wrap256(t1 * pow2(1));
    assert(a == wrap256(suffix(av, 0)));
    assert(pow2(1) == 2);
    assert(b == wrap256(suffix_tri(av, 1) * 2));
    let s0 = suffix(av, 0);
    assert((2 * 0 - 1) * s0 == -s0) by (nonlinear_arith);
    assert(odd_weighted(av, 0) == 2 * suffix_tri(av, 0) + (2 * 0 - 1) * s0);
    assert(odd_weighted(av, 0) == suffix(av, 0) + suffix_tri(av, 1) * 2);
    assert(wrap256(a + b) == wrap256(suffix(av, 0) + suffix_tri(av, 1) * 2));
}

/// Σ_j (2j + 1)·a_j by suffix sums: one add per lane into the running suffix, one add of the
/// suffix into the total, and one shift at the end. No multiply.
pub fn odd_chain(a: &[Wide]) -> (r: Wide)
    requires
        a.len() == 128,
    ensures
        r.val() == wrap256(odd_weighted(vals(a@), 0)),
{
    let ghost av = vals(a@);
    let mut s = Wide::zero();
    let mut t = Wide::zero();
    proof {
        lemma_wrap_small(0);
    }
    let mut j: usize = 128;
    while j > 1
        invariant
            1 <= j <= 128,
            a.len() == 128,
            av == vals(a@),
            s.val() == wrap256(suffix(av, j as int)),
            t.val() == wrap256(suffix_tri(av, j as int)),
        decreases j,
    {
        j -= 1;
        proof {
            lemma_chain_step(av, j as int, s.val(), t.val());
            assert(a@[j as int].val() == av[j as int]);
        }
        s.add(a[j]);
        t.add(s);
    }
    proof {
        assert(a@[0].val() == av[0]);
        lemma_chain_close(av, s.val(), t.val());
    }
    s.add(a[0]);
    let t2 = t.shl(1);
    s.add(t2);
    s
}


// ── the fold of one row ──────────────────────────────────────────────────────

/// Buckets of one output row, sorted by (sign, odd, rung DESCENDING) so the rung chain walks
/// them in Horner order; `cols` holds the columns of every bucket back to back.
pub struct RowFold {
    /// (bucket key, count). key = sign·128·rspan + odd_idx·rspan + (rmax − rung)
    pub buckets: Vec<(u16, u16)>,
    pub cols: Vec<u16>,
}

/// Where bucket i's columns start: the counts before it.
pub open spec fn bstart(b: Seq<(u16, u16)>, i: int) -> int
    decreases i,
{
    if i <= 0 {
        0
    } else {
        bstart(b, i - 1) + b[i - 1].1
    }
}

/// Σ_{u ∈ [a, e)} v[cols[u]]: a plane's sum over a run of columns.
pub open spec fn colsum(v: Seq<i128>, cols: Seq<u16>, a: int, e: int) -> int
    decreases e - a,
{
    if e <= a {
        0
    } else {
        colsum(v, cols, a, e - 1) + v[cols[e - 1] as int]
    }
}

/// A lane's weight: its odd core, negated on the negative sheet.
pub open spec fn lane_weight(l: int) -> int {
    if l < 128 {
        2 * (l % 128) + 1
    } else {
        -(2 * (l % 128) + 1)
    }
}

/// A key's weight at the landing scale: sign and odd core of its lane, and the doublings from
/// its rung down to the tensor's lowest rung.
pub open spec fn key_weight(k: int, r: int) -> int {
    lane_weight(k / r) * pow2((r - 1 - k % r) as nat)
}

/// Bucket i's column sum for plane v.
pub open spec fn bucket_sum(v: Seq<i128>, b: Seq<(u16, u16)>, cols: Seq<u16>, i: int) -> int {
    colsum(v, cols, bstart(b, i), bstart(b, i) + b[i].1)
}

/// Σ over the first i buckets of key weight × column sum: the exact row value of plane v.
pub open spec fn fold_dot(v: Seq<i128>, b: Seq<(u16, u16)>, cols: Seq<u16>, r: int, i: int) -> int
    decreases i,
{
    if i <= 0 {
        0
    } else {
        fold_dot(v, b, cols, r, i - 1) + key_weight(b[i - 1].0 as int, r) * bucket_sum(v, b, cols, i - 1)
    }
}

impl RowFold {
    /// Buckets are nonempty, their keys strictly increase and address 256 lanes of `rspan`
    /// rungs, their counts cover the columns, and every column is below `in_f`.
    pub open spec fn wf(&self, rspan: int, in_f: int) -> bool {
        &&& 1 <= rspan <= 256
        &&& forall|q: int| 0 <= q < self.buckets.len() ==> #[trigger] self.buckets[q].1 >= 1
        &&& forall|q: int| 0 <= q < self.buckets.len() ==> (#[trigger] self.buckets[q].0) < 256 * rspan
        &&& forall|q1: int, q2: int|
            0 <= q1 < q2 < self.buckets.len() ==> (#[trigger] self.buckets[q1].0) < (#[trigger] self.buckets[q2].0)
        &&& bstart(self.buckets@, self.buckets.len() as int) == self.cols.len()
        &&& forall|u: int| 0 <= u < self.cols.len() ==> (#[trigger] self.cols[u]) < in_f
    }
}

/// Every running column sum of every bucket fits an i128.
pub open spec fn sums_fit(v: Seq<i128>, b: Seq<(u16, u16)>, cols: Seq<u16>) -> bool {
    forall|i: int, e: int|
        0 <= i < b.len() && bstart(b, i) <= e <= bstart(b, i) + b[i].1 ==> i128::MIN <= #[trigger] colsum(
            v,
            cols,
            bstart(b, i),
            e,
        ) <= i128::MAX
}

pub(crate) proof fn lemma_bstart_mono(b: Seq<(u16, u16)>, i: int, j: int)
    requires
        0 <= i <= j <= b.len(),
    ensures
        bstart(b, i) <= bstart(b, j),
        bstart(b, i) >= 0,
    decreases j,
{
    lemma_bstart_nonneg(b, i);
    if i < j {
        lemma_bstart_mono(b, i, j - 1);
    }
}

proof fn lemma_bstart_nonneg(b: Seq<(u16, u16)>, i: int)
    ensures
        bstart(b, i) >= 0,
    decreases i,
{
    if i > 0 {
        lemma_bstart_nonneg(b, i - 1);
    }
}


// ── the kernel's bookkeeping: lanes, groups, Horner ──────────────────────────

/// The lane (sign·128 + odd index) of bucket q.
pub open spec fn lane_of(b: Seq<(u16, u16)>, r: int, q: int) -> int {
    b[q].0 as int / r
}

/// The rung offset (rmax − rung) of bucket q.
pub open spec fn dk_of(b: Seq<(u16, u16)>, r: int, q: int) -> int {
    b[q].0 as int % r
}

/// Bucket q landed at the lowest rung: its column sum doubled down to rmin.
pub open spec fn landed(v: Seq<i128>, b: Seq<(u16, u16)>, cols: Seq<u16>, r: int, q: int) -> int {
    bucket_sum(v, b, cols, q) * pow2((r - 1 - dk_of(b, r, q)) as nat)
}

/// Σ of the landed buckets below i that fall in lane l.
pub open spec fn lane_sum(v: Seq<i128>, b: Seq<(u16, u16)>, cols: Seq<u16>, r: int, i: int, l: int) -> int
    decreases i,
{
    if i <= 0 {
        0
    } else {
        lane_sum(v, b, cols, r, i - 1, l) + (if lane_of(b, r, i - 1) == l {
            landed(v, b, cols, r, i - 1)
        } else {
            0
        })
    }
}

/// Σ_{l < n} lane_weight(l) · lane_sum(l) after i buckets.
pub open spec fn lanes_total(v: Seq<i128>, b: Seq<(u16, u16)>, cols: Seq<u16>, r: int, i: int, n: int) -> int
    decreases n,
{
    if n <= 0 {
        0
    } else {
        lanes_total(v, b, cols, r, i, n - 1) + lane_weight(n - 1) * lane_sum(v, b, cols, r, i, n - 1)
    }
}

/// The Horner value of the group from bucket i0 up to j: each new bucket doubles the carriage
/// by the gap in rungs, then adds its column sum.
pub open spec fn horner(v: Seq<i128>, b: Seq<(u16, u16)>, cols: Seq<u16>, r: int, i0: int, j: int) -> int
    decreases j - i0,
{
    if j <= i0 {
        0
    } else if j - 1 == i0 {
        bucket_sum(v, b, cols, i0)
    } else {
        horner(v, b, cols, r, i0, j - 1) * pow2((dk_of(b, r, j - 1) - dk_of(b, r, j - 2)) as nat) + bucket_sum(
            v,
            b,
            cols,
            j - 1,
        )
    }
}

/// Σ of the landed buckets in [i0, j).
pub open spec fn group_sum(v: Seq<i128>, b: Seq<(u16, u16)>, cols: Seq<u16>, r: int, i0: int, j: int) -> int
    decreases j - i0,
{
    if j <= i0 {
        0
    } else {
        group_sum(v, b, cols, r, i0, j - 1) + landed(v, b, cols, r, j - 1)
    }
}

/// Keys strictly increase.
pub open spec fn keys_increase(b: Seq<(u16, u16)>) -> bool {
    forall|q1: int, q2: int| 0 <= q1 < q2 < b.len() ==> (#[trigger] b[q1].0) < (#[trigger] b[q2].0)
}

proof fn lemma_horner_lands(v: Seq<i128>, b: Seq<(u16, u16)>, cols: Seq<u16>, r: int, i0: int, j: int)
    requires
        1 <= r,
        0 <= i0 < j <= b.len(),
        keys_increase(b),
        forall|q: int| i0 <= q < j ==> #[trigger] lane_of(b, r, q) == lane_of(b, r, i0),
    ensures
        horner(v, b, cols, r, i0, j) * pow2((r - 1 - dk_of(b, r, j - 1)) as nat) == group_sum(v, b, cols, r, i0, j),
        forall|q1: int, q2: int| i0 <= q1 < q2 < j ==> dk_of(b, r, q1) < dk_of(b, r, q2),
    decreases j - i0,
{
    assert forall|q1: int, q2: int| i0 <= q1 < q2 < j implies dk_of(b, r, q1) < dk_of(b, r, q2) by {
        assert(b[q1].0 < b[q2].0);
        assert(lane_of(b, r, q1) == lane_of(b, r, q2));
        vstd::arithmetic::div_mod::lemma_fundamental_div_mod(b[q1].0 as int, r);
        vstd::arithmetic::div_mod::lemma_fundamental_div_mod(b[q2].0 as int, r);
    }
    if j - 1 > i0 {
        lemma_horner_lands(v, b, cols, r, i0, j - 1);
        let d1 = dk_of(b, r, j - 2);
        let d2 = dk_of(b, r, j - 1);
        assert(d1 < d2);
        vstd::arithmetic::div_mod::lemma_mod_pos_bound(b[j - 1].0 as int, r);
        let g = (d2 - d1) as nat;
        let f = (r - 1 - d2) as nat;
        lemma_pow2_adds(g, f);
        assert(g + f == (r - 1 - d1) as nat);
        let h = horner(v, b, cols, r, i0, j - 1);
        assert(h * pow2(g) * pow2(f) == h * pow2((r - 1 - d1) as nat)) by (nonlinear_arith)
            requires pow2(g + f) == pow2(g) * pow2(f), g + f == (r - 1 - d1) as nat;
        assert((h * pow2(g) + bucket_sum(v, b, cols, j - 1)) * pow2(f) == h * pow2(g) * pow2(f) + bucket_sum(
            v,
            b,
            cols,
            j - 1,
        ) * pow2(f)) by (nonlinear_arith);
        assert(horner(v, b, cols, r, i0, j) == h * pow2(g) + bucket_sum(v, b, cols, j - 1));
        assert(h * pow2((r - 1 - d1) as nat) == group_sum(v, b, cols, r, i0, j - 1));
        assert(landed(v, b, cols, r, j - 1) == bucket_sum(v, b, cols, j - 1) * pow2(f));
        assert(group_sum(v, b, cols, r, i0, j) == group_sum(v, b, cols, r, i0, j - 1) + landed(v, b, cols, r, j - 1));
    } else {
        assert(horner(v, b, cols, r, i0, j) == bucket_sum(v, b, cols, i0));
        assert(group_sum(v, b, cols, r, i0, j) == group_sum(v, b, cols, r, i0, i0) + landed(v, b, cols, r, i0));
    }
}

proof fn lemma_lane_sum_group(v: Seq<i128>, b: Seq<(u16, u16)>, cols: Seq<u16>, r: int, i0: int, j: int, l: int)
    requires
        0 <= i0 <= j <= b.len(),
        forall|q: int| i0 <= q < j ==> #[trigger] lane_of(b, r, q) == lane_of(b, r, i0),
    ensures
        lane_sum(v, b, cols, r, j, l) == lane_sum(v, b, cols, r, i0, l) + (if l == lane_of(b, r, i0) {
            group_sum(v, b, cols, r, i0, j)
        } else {
            0
        }),
    decreases j - i0,
{
    if j > i0 {
        lemma_lane_sum_group(v, b, cols, r, i0, j - 1, l);
        assert(lane_of(b, r, j - 1) == lane_of(b, r, i0));
    }
}

proof fn lemma_lane_fresh(v: Seq<i128>, b: Seq<(u16, u16)>, cols: Seq<u16>, r: int, i: int, l: int)
    requires
        1 <= r,
        0 <= i <= b.len(),
        keys_increase(b),
        i > 0 ==> lane_of(b, r, i - 1) < l,
    ensures
        lane_sum(v, b, cols, r, i, l) == 0,
    decreases i,
{
    if i > 0 {
        if i > 1 {
            assert(b[i - 2].0 < b[i - 1].0);
            vstd::arithmetic::div_mod::lemma_div_is_ordered(b[i - 2].0 as int, b[i - 1].0 as int, r);
        }
        lemma_lane_fresh(v, b, cols, r, i - 1, l);
    }
}

proof fn lemma_lanes_total_step(v: Seq<i128>, b: Seq<(u16, u16)>, cols: Seq<u16>, r: int, i: int, n: int)
    requires
        0 <= i,
        0 <= n,
    ensures
        lanes_total(v, b, cols, r, i + 1, n) == lanes_total(v, b, cols, r, i, n) + (if 0 <= lane_of(b, r, i) < n {
            lane_weight(lane_of(b, r, i)) * landed(v, b, cols, r, i)
        } else {
            0
        }),
    decreases n,
{
    if n > 0 {
        lemma_lanes_total_step(v, b, cols, r, i, n - 1);
        let ls = lane_sum(v, b, cols, r, i, n - 1);
        let w = lane_weight(n - 1);
        if lane_of(b, r, i) == n - 1 {
            assert(w * (ls + landed(v, b, cols, r, i)) == w * ls + w * landed(v, b, cols, r, i)) by (nonlinear_arith);
        }
    }
}

/// The bucket sum regrouped by lanes: Σ_l lane_weight(l)·lane_sum(l) is the fold's exact value.
pub proof fn lemma_lanes_are_the_fold(v: Seq<i128>, b: Seq<(u16, u16)>, cols: Seq<u16>, r: int, i: int)
    requires
        1 <= r,
        0 <= i <= b.len(),
        forall|q: int| 0 <= q < b.len() ==> (#[trigger] b[q].0) < 256 * r,
    ensures
        lanes_total(v, b, cols, r, i, 256) == fold_dot(v, b, cols, r, i),
    decreases i,
{
    if i > 0 {
        lemma_lanes_are_the_fold(v, b, cols, r, i - 1);
        lemma_lanes_total_step(v, b, cols, r, i - 1, 256);
        let k = b[i - 1].0 as int;
        assert(0 <= k / r < 256) by {
            vstd::arithmetic::div_mod::lemma_div_is_ordered(k, 256 * r - 1, r);
            vstd::arithmetic::div_mod::lemma_fundamental_div_mod(256 * r - 1, r);
            vstd::arithmetic::div_mod::lemma_div_pos_is_pos(k, r);
            vstd::arithmetic::div_mod::lemma_fundamental_div_mod_converse(256 * r - 1, r, 255, r - 1);
        }
        assert(key_weight(k, r) * bucket_sum(v, b, cols, i - 1) == lane_weight(lane_of(b, r, i - 1)) * landed(
            v,
            b,
            cols,
            r,
            i - 1,
        )) by (nonlinear_arith)
            requires
                key_weight(k, r) == lane_weight(k / r) * pow2((r - 1 - k % r) as nat),
                lane_of(b, r, i - 1) == k / r,
                landed(v, b, cols, r, i - 1) == bucket_sum(v, b, cols, i - 1) * pow2((r - 1 - k % r) as nat),
        ;
        assert(fold_dot(v, b, cols, r, i) == fold_dot(v, b, cols, r, i - 1) + key_weight(k, r) * bucket_sum(
            v,
            b,
            cols,
            i - 1,
        ));
        assert(0 <= lane_of(b, r, i - 1) < 256);
        let im = i - 1;
        assert(im + 1 == i);
        assert(lanes_total(v, b, cols, r, im + 1, 256) == lanes_total(v, b, cols, r, im, 256) + lane_weight(
            lane_of(b, r, im),
        ) * landed(v, b, cols, r, im));
    } else {
        lemma_lanes_total_empty(v, b, cols, r, 256);
    }
}

proof fn lemma_lanes_total_empty(v: Seq<i128>, b: Seq<(u16, u16)>, cols: Seq<u16>, r: int, n: int)
    ensures
        lanes_total(v, b, cols, r, 0, n) == 0,
    decreases n,
{
    if n > 0 {
        lemma_lanes_total_empty(v, b, cols, r, n - 1);
    }
}

/// Σ_{l < n} (2l + 1)·x_l.
pub open spec fn odd_prefix(x: Seq<int>, n: int) -> int
    decreases n,
{
    if n <= 0 {
        0
    } else {
        odd_prefix(x, n - 1) + (2 * (n - 1) + 1) * x[n - 1]
    }
}

proof fn lemma_odd_prefix_suffix(x: Seq<int>, n: int)
    requires
        0 <= n <= x.len(),
    ensures
        odd_prefix(x, n) + odd_weighted(x, n) == odd_weighted(x, 0),
    decreases n,
{
    if n > 0 {
        lemma_odd_prefix_suffix(x, n - 1);
    }
}

/// The two signs' lane sums, as sequences of 128.
pub open spec fn sign_lanes(v: Seq<i128>, b: Seq<(u16, u16)>, cols: Seq<u16>, r: int, i: int, sign: int) -> Seq<int> {
    Seq::new(128, |j: int| lane_sum(v, b, cols, r, i, sign * 128 + j))
}

proof fn lemma_lanes_total_split(v: Seq<i128>, b: Seq<(u16, u16)>, cols: Seq<u16>, r: int, i: int, n: int)
    requires
        0 <= n <= 256,
    ensures
        n <= 128 ==> lanes_total(v, b, cols, r, i, n) == odd_prefix(sign_lanes(v, b, cols, r, i, 0), n),
        n > 128 ==> lanes_total(v, b, cols, r, i, n) == odd_prefix(sign_lanes(v, b, cols, r, i, 0), 128) - odd_prefix(
            sign_lanes(v, b, cols, r, i, 1),
            n - 128,
        ),
    decreases n,
{
    if n > 0 {
        lemma_lanes_total_split(v, b, cols, r, i, n - 1);
        let l = n - 1;
        if l < 128 {
            assert(sign_lanes(v, b, cols, r, i, 0)[l] == lane_sum(v, b, cols, r, i, l));
            assert(l % 128 == l);
        } else {
            assert(sign_lanes(v, b, cols, r, i, 1)[l - 128] == lane_sum(v, b, cols, r, i, l));
            assert(l % 128 == l - 128);
            assert(lane_weight(l) * lane_sum(v, b, cols, r, i, l) == -((2 * (l - 128) + 1) * lane_sum(v, b, cols, r, i, l)))
                by (nonlinear_arith)
                requires lane_weight(l) == -(2 * (l - 128) + 1);
            let s1 = sign_lanes(v, b, cols, r, i, 1);
            assert(odd_prefix(s1, n - 128) == odd_prefix(s1, n - 129) + (2 * (n - 129) + 1) * s1[n - 129]);
            if n == 129 {
                assert(odd_prefix(s1, 0) == 0);
            }
        }
    }
}

pub(crate) proof fn lemma_odd_weighted_wrap(a: Seq<int>, x: Seq<int>, j: int)
    requires
        a.len() == x.len(),
        0 <= j <= a.len(),
        forall|q: int| 0 <= q < a.len() ==> #[trigger] a[q] == wrap256(x[q]),
    ensures
        wrap256(odd_weighted(a, j)) == wrap256(odd_weighted(x, j)),
    decreases a.len() - j,
{
    if j < a.len() {
        lemma_odd_weighted_wrap(a, x, j + 1);
        let c = 2 * j + 1;
        lemma_wrap_mul(x[j], c);
        assert(wrap256(a[j] * c) == wrap256(x[j] * c));
        assert(c * a[j] == a[j] * c && c * x[j] == x[j] * c) by (nonlinear_arith);
        let ra = odd_weighted(a, j + 1);
        let rx = odd_weighted(x, j + 1);
        lemma_wrap_add(a[j] * c, ra);
        lemma_wrap_add(x[j] * c, rx);
        lemma_wrap_add_right(a[j] * c, ra);
        lemma_wrap_add_right(x[j] * c, rx);
        lemma_wrap_add(a[j] * c, wrap256(ra));
        lemma_wrap_add(x[j] * c, wrap256(rx));
        assert(wrap256(wrap256(a[j] * c) + wrap256(ra)) == wrap256(wrap256(x[j] * c) + wrap256(rx)));
    }
}


// ── the tensor fold and the radix kernel ─────────────────────────────────────

pub struct TensorFold {
    pub rows: usize,
    pub cols: usize,
    /// lowest rung in the tensor: the one denominator 2^rmin
    pub rmin: i32,
    pub rmax: i32,
    pub rspan: usize,
    pub rows_f: Vec<RowFold>,
}

/// Planes per walk of a row's columns: the transcript positions that ride one read of the ids.
pub const PLANES: usize = 64;

/// The pattern a plane (values v, sticky) collapses to over one row fold: the exact fold
/// value, rounded once.
pub open spec fn fold_cell(v: Seq<i128>, sticky: bool, row: RowFold, rspan: int, rmin: int) -> int {
    collapse_spec(fold_dot(v, row.buckets@, row.cols@, rspan, row.buckets.len() as int), sticky, ACT_FLOOR - rmin)
}

/// The plane can ride the walk: it covers the columns, its bucket sums fit, its exact value
/// fits the 256-bit lane (so nothing wraps), and its cell fits bf16.
pub open spec fn plane_ok(v: Seq<i128>, sticky: bool, row: RowFold, in_f: int, rspan: int, rmin: int) -> bool {
    &&& v.len() == in_f
    &&& sums_fit(v, row.buckets@, row.cols@)
    &&& in_lane(fold_dot(v, row.buckets@, row.cols@, rspan, row.buckets.len() as int))
    &&& collapse_fits(fold_dot(v, row.buckets@, row.cols@, rspan, row.buckets.len() as int), sticky, ACT_FLOOR - rmin)
}

proof fn lemma_horner_step(v: Seq<i128>, b: Seq<(u16, u16)>, cols: Seq<u16>, r: int, i0: int, j: int, a: int, gap: nat)
    requires
        0 <= i0 <= j,
        a == wrap256(horner(v, b, cols, r, i0, j)),
        j > i0 ==> gap == dk_of(b, r, j) - dk_of(b, r, j - 1),
        j == i0 ==> a == 0,
    ensures
        j > i0 ==> wrap256(wrap256(a * pow2(gap)) + bucket_sum(v, b, cols, j)) == wrap256(horner(v, b, cols, r, i0, j + 1)),
        j == i0 ==> wrap256(a + bucket_sum(v, b, cols, j)) == wrap256(horner(v, b, cols, r, i0, j + 1)),
{
    if j > i0 {
        let h = horner(v, b, cols, r, i0, j);
        lemma_wrap_mul(h, pow2(gap) as int);
        lemma_wrap_add(h * pow2(gap), bucket_sum(v, b, cols, j));
        assert(horner(v, b, cols, r, i0, j + 1) == h * pow2(gap) + bucket_sum(v, b, cols, j));
    }
}

proof fn lemma_lane_of_mono(b: Seq<(u16, u16)>, r: int, q1: int, q2: int)
    requires
        1 <= r,
        keys_increase(b),
        0 <= q1 < q2 < b.len(),
    ensures
        lane_of(b, r, q1) <= lane_of(b, r, q2),
{
    assert(b[q1].0 < b[q2].0);
    vstd::arithmetic::div_mod::lemma_div_is_ordered(b[q1].0 as int, b[q2].0 as int, r);
}

/// The fold's exact row value, read as the two signs' odd-weighted lane sums.
pub(crate) proof fn lemma_fold_by_signs(v: Seq<i128>, b: Seq<(u16, u16)>, cols: Seq<u16>, r: int)
    requires
        1 <= r,
        forall|q: int| 0 <= q < b.len() ==> (#[trigger] b[q].0) < 256 * r,
    ensures
        fold_dot(v, b, cols, r, b.len() as int) == odd_weighted(sign_lanes(v, b, cols, r, b.len() as int, 0), 0)
            - odd_weighted(sign_lanes(v, b, cols, r, b.len() as int, 1), 0),
{
    let n = b.len() as int;
    lemma_odd_prefix_suffix(sign_lanes(v, b, cols, r, n, 0), 128);
    lemma_odd_prefix_suffix(sign_lanes(v, b, cols, r, n, 1), 128);
    lemma_lanes_total_split(v, b, cols, r, n, 256);
    lemma_lanes_are_the_fold(v, b, cols, r, n);
}

proof fn lemma_kernel_close(v: Seq<i128>, b: Seq<(u16, u16)>, cols: Seq<u16>, r: int, lanes: Seq<Wide>, pv: int, nv: int)
    requires
        1 <= r,
        lanes.len() == 256,
        forall|q: int| 0 <= q < b.len() ==> (#[trigger] b[q].0) < 256 * r,
        forall|l: int| 0 <= l < 256 ==> (#[trigger] lanes[l]).val() == wrap256(lane_sum(v, b, cols, r, b.len() as int, l)),
        pv == wrap256(odd_weighted(vals(lanes.subrange(0, 128)), 0)),
        nv == wrap256(odd_weighted(vals(lanes.subrange(128, 256)), 0)),
    ensures
        wrap256(pv - nv) == wrap256(fold_dot(v, b, cols, r, b.len() as int)),
{
    let n = b.len() as int;
    let s0 = sign_lanes(v, b, cols, r, n, 0);
    let s1 = sign_lanes(v, b, cols, r, n, 1);
    let a0 = vals(lanes.subrange(0, 128));
    let a1 = vals(lanes.subrange(128, 256));
    assert forall|q: int| 0 <= q < 128 implies #[trigger] a0[q] == wrap256(s0[q]) by {
        assert(lanes.subrange(0, 128)[q] == lanes[q]);
    }
    assert forall|q: int| 0 <= q < 128 implies #[trigger] a1[q] == wrap256(s1[q]) by {
        assert(lanes.subrange(128, 256)[q] == lanes[128 + q]);
    }
    lemma_odd_weighted_wrap(a0, s0, 0);
    lemma_odd_weighted_wrap(a1, s1, 0);
    lemma_odd_prefix_suffix(s0, 128);
    lemma_odd_prefix_suffix(s1, 128);
    lemma_lanes_total_split(v, b, cols, r, n, 256);
    lemma_lanes_are_the_fold(v, b, cols, r, n);
    let x0 = odd_weighted(s0, 0);
    let x1 = odd_weighted(s1, 0);
    assert(fold_dot(v, b, cols, r, n) == x0 - x1);
    lemma_wrap_sub(pv, x1);
    lemma_wrap_sub(pv, odd_weighted(a1, 0));
    lemma_wrap_add(x0, -x1);
    lemma_wrap_add(odd_weighted(a0, 0), -x1);
    assert(wrap256(pv - nv) == wrap256(pv - x1));
    assert(wrap256(pv - x1) == wrap256(x0 - x1)) by {
        lemma_wrap_add(odd_weighted(a0, 0), -x1);
        lemma_wrap_add(x0, -x1);
    }
}

/// The radix kernel for one output row against up to PLANES planes: one pattern per plane into
/// `out`. `lane` is scratch (256 lanes per plane), overwritten.
pub fn row_kernel(f: &TensorFold, row: &RowFold, planes: &[Plane], out: &mut Vec<u16>, lane: &mut Vec<Wide>)
    requires
        1 <= planes.len() <= PLANES,
        row.wf(f.rspan as int, f.cols as int),
        -0x1000_0000 < f.rmin < 0x1000_0000,
        old(out).len() >= planes.len(),
        forall|p: int| 0 <= p < planes.len() ==> plane_ok((#[trigger] planes[p]).v@, planes[p].sticky, *row, f.cols as int, f.rspan as int, f.rmin as int),
    ensures
        final(out).len() == old(out).len(),
        forall|p: int| 0 <= p < planes.len() ==> final(out)[p] == fold_cell((#[trigger] planes[p]).v@, planes[p].sticky, *row, f.rspan as int, f.rmin as int),
        forall|p: int| planes.len() <= p < old(out).len() ==> #[trigger] final(out)[p] == old(out)[p],
{
    let np = planes.len();
    let rspan = f.rspan;
    let nb = row.buckets.len();
    let ghost r = rspan as int;
    let ghost b = row.buckets@;
    let ghost cols = row.cols@;
    proof {
        lemma_wrap_small(0);
    }
    lane.clear();
    let mut q: usize = 0;
    while q < np * 256
        invariant
            0 <= q <= np * 256,
            np <= PLANES,
            lane.len() == q,
            forall|x: int| 0 <= x < q ==> (#[trigger] lane[x]).val() == 0,
        decreases np * 256 - q,
    {
        lane.push(Wide::zero());
        q += 1;
    }
    let mut c0: usize = 0;
    let mut i: usize = 0;
    while i < nb
        invariant
            0 <= i <= nb,
            nb == row.buckets.len(),
            np == planes.len(),
            1 <= np <= PLANES,
            rspan == f.rspan,
            r == rspan as int,
            b == row.buckets@,
            cols == row.cols@,
            row.wf(f.rspan as int, f.cols as int),
            forall|p: int| 0 <= p < np ==> plane_ok((#[trigger] planes[p]).v@, planes[p].sticky, *row, f.cols as int, f.rspan as int, f.rmin as int),
            c0 == bstart(b, i as int),
            lane.len() == np * 256,
            forall|p: int, l: int|
                0 <= p < np && 0 <= l < 256 ==> (#[trigger] lane[p * 256 + l]).val() == wrap256(
                    lane_sum(planes[p].v@, b, cols, r, i as int, l),
                ),
            0 < i < nb ==> lane_of(b, r, i - 1) < lane_of(b, r, i as int),
        decreases nb - i,
    {
        let (key, _cnt) = row.buckets[i];
        let lane_idx = (key as usize) / rspan;
        proof {
            vstd::arithmetic::div_mod::lemma_fundamental_div_mod(key as int, r);
            vstd::arithmetic::div_mod::lemma_mod_pos_bound(key as int, r);
            assert(lane_idx < 256) by {
                vstd::arithmetic::div_mod::lemma_div_is_ordered(key as int, 256 * r - 1, r);
                vstd::arithmetic::div_mod::lemma_fundamental_div_mod_converse(256 * r - 1, r, 255, r - 1);
            }
            assert(lane_idx * rspan <= key) by (nonlinear_arith)
                requires key as int == r * lane_idx + (key as int) % r, (key as int) % r >= 0, r == rspan;
        }
        let group_base = lane_idx * rspan;
        let mut acc: Vec<Wide> = Vec::new();
        let mut p: usize = 0;
        while p < np
            invariant
                0 <= p <= np,
                acc.len() == p,
                forall|x: int| 0 <= x < p ==> (#[trigger] acc[x]).val() == 0,
            decreases np - p,
        {
            acc.push(Wide::zero());
            p += 1;
        }
        let mut prev_k: usize = 0;
        let mut j: usize = i;
        let mut c: usize = c0;
        while j < nb && (row.buckets[j].0 as usize) / rspan == lane_idx
            invariant
                i <= j <= nb,
                i < nb,
                nb == row.buckets.len(),
                np == planes.len(),
                1 <= np,
                rspan == f.rspan,
                r == rspan as int,
                b == row.buckets@,
                cols == row.cols@,
                row.wf(f.rspan as int, f.cols as int),
                forall|p2: int| 0 <= p2 < np ==> plane_ok((#[trigger] planes[p2]).v@, planes[p2].sticky, *row, f.cols as int, f.rspan as int, f.rmin as int),
                lane_idx == lane_of(b, r, i as int),
                group_base == lane_idx * rspan,
                c == bstart(b, j as int),
                forall|x: int| i <= x < j ==> #[trigger] lane_of(b, r, x) == lane_of(b, r, i as int),
                j > i ==> prev_k == dk_of(b, r, j - 1),
                acc.len() == np,
                forall|x: int| 0 <= x < np ==> (#[trigger] acc[x]).val() == wrap256(horner(planes[x].v@, b, cols, r, i as int, j as int)),
            decreases nb - j,
        {
            let (k2, n2) = row.buckets[j];
            proof {
                vstd::arithmetic::div_mod::lemma_fundamental_div_mod(k2 as int, r);
                vstd::arithmetic::div_mod::lemma_mod_pos_bound(k2 as int, r);
                assert(group_base <= k2) by (nonlinear_arith)
                    requires
                        group_base == lane_idx * rspan,
                        k2 as int == r * lane_idx + (k2 as int) % r,
                        (k2 as int) % r >= 0,
                        r == rspan;
            }
            let dk = k2 as usize - group_base;
            proof {
                assert(dk == dk_of(b, r, j as int)) by (nonlinear_arith)
                    requires
                        dk == k2 - group_base,
                        group_base == lane_idx * rspan,
                        k2 as int == r * lane_idx + (k2 as int) % r,
                        dk_of(b, r, j as int) == (k2 as int) % r,
                        r == rspan;
                lemma_bstart_mono(b, j as int + 1, nb as int);
                assert(keys_increase(b));
                assert(lane_of(b, r, j as int) == lane_idx);
                if j > i {
                    lemma_horner_lands(planes[0].v@, b, cols, r, i as int, j as int + 1);
                }
            }
            let gap: u32 = if j > i { (dk - prev_k) as u32 } else { 0 };
            let mut p: usize = 0;
            while p < np
                invariant
                    0 <= p <= np,
                    i <= j < nb,
                    nb == row.buckets.len(),
                    np == planes.len(),
                    b == row.buckets@,
                    cols == row.cols@,
                    r == rspan as int,
                    row.wf(f.rspan as int, f.cols as int),
                    forall|p2: int| 0 <= p2 < np ==> plane_ok((#[trigger] planes[p2]).v@, planes[p2].sticky, *row, f.cols as int, f.rspan as int, f.rmin as int),
                    c == bstart(b, j as int),
                    n2 == b[j as int].1,
                    c + n2 <= cols.len(),
                    j > i ==> gap == dk_of(b, r, j as int) - dk_of(b, r, j - 1),
                    gap < 256,
                    acc.len() == np,
                    forall|x: int| 0 <= x < p ==> (#[trigger] acc[x]).val() == wrap256(horner(planes[x].v@, b, cols, r, i as int, j + 1)),
                    forall|x: int| p <= x < np ==> (#[trigger] acc[x]).val() == wrap256(horner(planes[x].v@, b, cols, r, i as int, j as int)),
                decreases np - p,
            {
                let pv = &planes[p].v;
                let ghost v = planes[p as int].v@;
                let mut s: i128 = 0;
                let mut u: usize = c;
                while u < c + n2 as usize
                    invariant
                        c <= u <= c + n2,
                        c + n2 <= cols.len(),
                        c == bstart(b, j as int),
                        n2 == b[j as int].1,
                        0 <= j < b.len(),
                        v == pv@,
                        cols == row.cols@,
                        pv.len() == f.cols,
                        row.wf(f.rspan as int, f.cols as int),
                        sums_fit(v, b, cols),
                        s == colsum(v, cols, c as int, u as int),
                    decreases c + n2 - u,
                {
                    let col = row.cols[u] as usize;
                    proof {
                        assert(i128::MIN <= colsum(v, cols, bstart(b, j as int), u + 1) <= i128::MAX);
                    }
                    s = s + pv[col];
                    u += 1;
                }
                let a = acc[p];
                let a2 = if j > i { a.shl(gap) } else { a };
                let mut a3 = a2;
                a3.add(Wide::from_i128(s));
                proof {
                    lemma_horner_step(v, b, cols, r, i as int, j as int, a.val(), gap as nat);
                }
                acc.set(p, a3);
                p += 1;
            }
            prev_k = dk;
            c = c + n2 as usize;
            j += 1;
        }
        proof {
            assert(j > i);
            if j < nb {
                lemma_lane_of_mono(b, r, j - 1, j as int);
            }
        }
        proof {
            vstd::arithmetic::div_mod::lemma_mod_pos_bound(b[j - 1].0 as int, r);
            lemma_horner_lands(planes[0].v@, b, cols, r, i as int, j as int);
        }
        let fin: u32 = (rspan - 1 - prev_k) as u32;
        let mut p: usize = 0;
        while p < np
            invariant
                0 <= p <= np,
                i < j <= nb,
                nb == row.buckets.len(),
                np == planes.len(),
                np <= PLANES,
                b == row.buckets@,
                cols == row.cols@,
                r == rspan as int,
                1 <= r <= 256,
                keys_increase(b),
                lane_idx == lane_of(b, r, i as int),
                lane_idx < 256,
                fin == r - 1 - dk_of(b, r, j - 1),
                forall|x: int| i <= x < j ==> #[trigger] lane_of(b, r, x) == lane_of(b, r, i as int),
                0 < i ==> lane_of(b, r, i - 1) < lane_of(b, r, i as int),
                acc.len() == np,
                forall|x: int| 0 <= x < np ==> (#[trigger] acc[x]).val() == wrap256(horner(planes[x].v@, b, cols, r, i as int, j as int)),
                lane.len() == np * 256,
                forall|p2: int, l: int|
                    0 <= p2 < p && 0 <= l < 256 ==> (#[trigger] lane[p2 * 256 + l]).val() == wrap256(
                        lane_sum(planes[p2].v@, b, cols, r, j as int, l),
                    ),
                forall|p2: int, l: int|
                    p <= p2 < np && 0 <= l < 256 ==> (#[trigger] lane[p2 * 256 + l]).val() == wrap256(
                        lane_sum(planes[p2].v@, b, cols, r, i as int, l),
                    ),
            decreases np - p,
        {
            let ghost v = planes[p as int].v@;
            let w = acc[p].shl(fin);
            proof {
                lemma_horner_lands(v, b, cols, r, i as int, j as int);
                lemma_wrap_mul(horner(v, b, cols, r, i as int, j as int), pow2(fin as nat) as int);
                lemma_lane_fresh(v, b, cols, r, i as int, lane_idx as int);
                lemma_lane_sum_group(v, b, cols, r, i as int, j as int, lane_idx as int);
                assert(w.val() == wrap256(lane_sum(v, b, cols, r, j as int, lane_idx as int)));
                lemma_flat_bound(p as int, lane_idx as int, np as int);
            }
            let ghost before = lane@;
            lane.set(p * 256 + lane_idx, w);
            proof {
                assert forall|p2: int, l: int|
                    0 <= p2 < p + 1 && 0 <= l < 256 implies (#[trigger] lane[p2 * 256 + l]).val() == wrap256(
                        lane_sum(planes[p2].v@, b, cols, r, j as int, l),
                    ) by {
                    lemma_flat_distinct(p2, l, p as int, lane_idx as int);
                    if p2 < p {
                        assert(lane[p2 * 256 + l] == before[p2 * 256 + l]);
                    } else if l != lane_idx {
                        assert(lane[p2 * 256 + l] == before[p2 * 256 + l]);
                        lemma_lane_sum_group(v, b, cols, r, i as int, j as int, l);
                    }
                }
                assert forall|p2: int, l: int|
                    p + 1 <= p2 < np && 0 <= l < 256 implies (#[trigger] lane[p2 * 256 + l]).val() == wrap256(
                        lane_sum(planes[p2].v@, b, cols, r, i as int, l),
                    ) by {
                    lemma_flat_distinct(p2, l, p as int, lane_idx as int);
                    assert(lane[p2 * 256 + l] == before[p2 * 256 + l]);
                }
            }
            p += 1;
        }
        c0 = c;
        i = j;
    }
    let frac = frac_for(f.rmin);
    let ghost out0 = out@;
    let mut p: usize = 0;
    while p < np
        invariant
            0 <= p <= np,
            np == planes.len(),
            np <= PLANES,
            nb == row.buckets.len(),
            b == row.buckets@,
            cols == row.cols@,
            r == rspan as int,
            rspan == f.rspan,
            1 <= r <= 256,
            frac == ACT_FLOOR - f.rmin,
            -0x1000_0000 < f.rmin < 0x1000_0000,
            row.wf(f.rspan as int, f.cols as int),
            forall|p2: int| 0 <= p2 < np ==> plane_ok((#[trigger] planes[p2]).v@, planes[p2].sticky, *row, f.cols as int, f.rspan as int, f.rmin as int),
            lane.len() == np * 256,
            forall|p2: int, l: int|
                0 <= p2 < np && 0 <= l < 256 ==> (#[trigger] lane[p2 * 256 + l]).val() == wrap256(
                    lane_sum(planes[p2].v@, b, cols, r, nb as int, l),
                ),
            out.len() == out0.len(),
            out0.len() >= np,
            forall|p2: int| 0 <= p2 < p ==> out[p2] == fold_cell((#[trigger] planes[p2]).v@, planes[p2].sticky, *row, f.rspan as int, f.rmin as int),
            forall|p2: int| p <= p2 < out0.len() ==> #[trigger] out[p2] == out0[p2],
        decreases np - p,
    {
        proof {
            lemma_flat_bound(p as int, 255, np as int);
        }
        let ls = lane.as_slice();
        let base = p * 256;
        let pos = odd_chain(&ls[base..base + 128]);
        let neg = odd_chain(&ls[base + 128..base + 256]);
        let mut total = pos;
        total.sub(neg);
        let ghost v = planes[p as int].v@;
        proof {
            let lanes = lane@.subrange(base as int, base + 256);
            assert forall|l: int| 0 <= l < 256 implies (#[trigger] lanes[l]).val() == wrap256(lane_sum(v, b, cols, r, nb as int, l)) by {
                assert(lanes[l] == lane@[p * 256 + l]);
            }
            assert(ls@.subrange(base as int, base + 128) =~= lanes.subrange(0, 128));
            assert(ls@.subrange(base + 128, base + 256) =~= lanes.subrange(128, 256));
            lemma_kernel_close(v, b, cols, r, lanes, pos.val(), neg.val());
            crate::lanes::lemma_wrap_in_lane(fold_dot(v, b, cols, r, nb as int));
        }
        let cell = Bucket { acc: total, sticky: planes[p].sticky, frac }.collapse();
        out.set(p, cell);
        p += 1;
    }
}

proof fn lemma_flat_bound(p: int, l: int, n: int)
    requires
        0 <= p < n,
        0 <= l < 256,
    ensures
        0 <= p * 256 + l < n * 256,
        p * 256 + 256 <= n * 256,
{
    assert(p * 256 + 256 <= n * 256) by (nonlinear_arith)
        requires p < n;
}

proof fn lemma_flat_distinct(p1: int, l1: int, p2: int, l2: int)
    requires
        0 <= l1 < 256,
        0 <= l2 < 256,
        0 <= p1,
        0 <= p2,
    ensures
        (p1 * 256 + l1 == p2 * 256 + l2) <==> (p1 == p2 && l1 == l2),
{
    if p1 * 256 + l1 == p2 * 256 + l2 {
        assert(p1 == p2) by (nonlinear_arith)
            requires p1 * 256 + l1 == p2 * 256 + l2, 0 <= l1 < 256, 0 <= l2 < 256;
    }
}


/// The prefixed values of a row of patterns.
pub open spec fn prefix_vals(x: Seq<u16>) -> Seq<i128> {
    Seq::new(x.len(), |i: int| act_term(x[i]) as i128)
}

/// The tensor fold is well formed: one row fold per output row, each over `cols` columns and
/// `rspan` rungs.
pub open spec fn tensor_wf(f: TensorFold) -> bool {
    &&& f.rows_f.len() == f.rows
    &&& 1 <= f.rspan <= 256
    &&& -0x1000_0000 < f.rmin < 0x1000_0000
    &&& forall|o: int| 0 <= o < f.rows ==> (#[trigger] f.rows_f[o]).wf(f.rspan as int, f.cols as int)
}

/// Prefix every row of a row-major pattern matrix.
pub(crate) fn planes_of(x: &[u16], rows: usize, cols: usize) -> (r: Vec<Plane>)
    requires
        x.len() == rows * cols,
        forall|i: int| 0 <= i < x.len() ==> prefixable(#[trigger] x[i]),
    ensures
        r.len() == rows,
        forall|s: int| 0 <= s < rows ==> (#[trigger] r[s]).reads(crate::matmul::row(x@, s, cols as int)),
{
    let mut out: Vec<Plane> = Vec::new();
    let mut s: usize = 0;
    while s < rows
        invariant
            0 <= s <= rows,
            x.len() == rows * cols,
            forall|i: int| 0 <= i < x.len() ==> prefixable(#[trigger] x[i]),
            out.len() == s,
            forall|t: int| 0 <= t < s ==> (#[trigger] out[t]).reads(crate::matmul::row(x@, t, cols as int)),
        decreases rows - s,
    {
        proof {
            crate::matmul::lemma_row_bounds(s as int, rows as int, cols as int);
        }
        let pl = prefix(&x[s * cols..(s + 1) * cols]);
        out.push(pl);
        s += 1;
    }
    out
}

pub(crate) proof fn lemma_reads_vals(pl: Plane, x: Seq<u16>)
    requires
        pl.reads(x),
    ensures
        pl.v@ == prefix_vals(x),
{
    assert(pl.v@ =~= prefix_vals(x));
}

/// `y = x · Wᵀ` over the fold: `x` is `[seq, in_f]` patterns, up to PLANES planes per walk of a
/// row's columns.
pub fn matmul_fold(x: &[u16], seq: usize, in_f: usize, f: &TensorFold) -> (y: Vec<u16>)
    requires
        x.len() == seq * in_f,
        f.cols == in_f,
        tensor_wf(*f),
        seq * f.rows <= usize::MAX,
        forall|i: int| 0 <= i < x.len() ==> prefixable(#[trigger] x[i]),
        forall|s: int, o: int|
            0 <= s < seq && 0 <= o < f.rows ==> plane_ok(
                prefix_vals(#[trigger] crate::matmul::row(x@, s, in_f as int)),
                row_sticky(crate::matmul::row(x@, s, in_f as int)),
                #[trigger] f.rows_f[o],
                in_f as int,
                f.rspan as int,
                f.rmin as int,
            ),
    ensures
        y.len() == seq * f.rows,
        forall|s: int, o: int|
            0 <= s < seq && 0 <= o < f.rows ==> y[s * f.rows + o] == fold_cell(
                prefix_vals(#[trigger] crate::matmul::row(x@, s, in_f as int)),
                row_sticky(crate::matmul::row(x@, s, in_f as int)),
                #[trigger] f.rows_f[o],
                f.rspan as int,
                f.rmin as int,
            ),
{
    let out_f = f.rows;
    let planes_all = planes_of(x, seq, in_f);
    let mut y: Vec<u16> = Vec::new();
    let mut t: usize = 0;
    while t < seq * out_f
        invariant
            out_f == f.rows,
            seq * f.rows <= usize::MAX,
            0 <= t <= seq * out_f,
            y.len() == t,
        decreases seq * out_f - t,
    {
        y.push(0);
        t += 1;
    }
    let mut outbuf: Vec<u16> = Vec::new();
    let mut q: usize = 0;
    while q < PLANES
        invariant
            0 <= q <= PLANES,
            outbuf.len() == q,
        decreases PLANES - q,
    {
        outbuf.push(0);
        q += 1;
    }
    let mut lane: Vec<Wide> = Vec::new();
    let mut o: usize = 0;
    while o < out_f
        invariant
            0 <= o <= out_f,
            out_f == f.rows,
            f.cols == in_f,
            x.len() == seq * in_f,
            tensor_wf(*f),
            seq * out_f <= usize::MAX,
            y.len() == seq * out_f,
            outbuf.len() == PLANES,
            planes_all.len() == seq,
            forall|s: int| 0 <= s < seq ==> (#[trigger] planes_all[s]).reads(crate::matmul::row(x@, s, in_f as int)),
            forall|s: int, o2: int|
                0 <= s < seq && 0 <= o2 < f.rows ==> plane_ok(
                    prefix_vals(#[trigger] crate::matmul::row(x@, s, in_f as int)),
                    row_sticky(crate::matmul::row(x@, s, in_f as int)),
                    #[trigger] f.rows_f[o2],
                    in_f as int,
                    f.rspan as int,
                    f.rmin as int,
                ),
            forall|s: int, o2: int|
                0 <= s < seq && 0 <= o2 < o ==> y[s * out_f + o2] == fold_cell(
                    prefix_vals(#[trigger] crate::matmul::row(x@, s, in_f as int)),
                    row_sticky(crate::matmul::row(x@, s, in_f as int)),
                    #[trigger] f.rows_f[o2],
                    f.rspan as int,
                    f.rmin as int,
                ),
        decreases out_f - o,
    {
        let row = &f.rows_f[o];
        let mut s0: usize = 0;
        while s0 < seq
            invariant
                0 <= s0 <= seq,
                o < out_f,
                out_f == f.rows,
                f.cols == in_f,
                x.len() == seq * in_f,
                tensor_wf(*f),
                seq * out_f <= usize::MAX,
                y.len() == seq * out_f,
                outbuf.len() == PLANES,
                planes_all.len() == seq,
                *row == f.rows_f[o as int],
                forall|s: int| 0 <= s < seq ==> (#[trigger] planes_all[s]).reads(crate::matmul::row(x@, s, in_f as int)),
                forall|s: int, o2: int|
                    0 <= s < seq && 0 <= o2 < f.rows ==> plane_ok(
                        prefix_vals(#[trigger] crate::matmul::row(x@, s, in_f as int)),
                        row_sticky(crate::matmul::row(x@, s, in_f as int)),
                        #[trigger] f.rows_f[o2],
                        in_f as int,
                        f.rspan as int,
                        f.rmin as int,
                    ),
                forall|s: int, o2: int|
                    0 <= s < seq && 0 <= o2 < o ==> y[s * out_f + o2] == fold_cell(
                        prefix_vals(#[trigger] crate::matmul::row(x@, s, in_f as int)),
                        row_sticky(crate::matmul::row(x@, s, in_f as int)),
                        #[trigger] f.rows_f[o2],
                        f.rspan as int,
                        f.rmin as int,
                    ),
                forall|s: int|
                    0 <= s < s0 ==> y[s * out_f + o] == fold_cell(
                        prefix_vals(#[trigger] crate::matmul::row(x@, s, in_f as int)),
                        row_sticky(crate::matmul::row(x@, s, in_f as int)),
                        f.rows_f[o as int],
                        f.rspan as int,
                        f.rmin as int,
                    ),
            decreases seq - s0,
        {
            let np = if seq - s0 < PLANES { seq - s0 } else { PLANES };
            let pls = &planes_all.as_slice()[s0..s0 + np];
            proof {
                assert forall|p: int| 0 <= p < np implies plane_ok(
                    (#[trigger] pls[p]).v@,
                    pls[p].sticky,
                    *row,
                    f.cols as int,
                    f.rspan as int,
                    f.rmin as int,
                ) by {
                    assert(pls[p] == planes_all[s0 + p]);
                    lemma_reads_vals(planes_all[s0 + p], crate::matmul::row(x@, s0 + p, in_f as int));
                    assert(plane_ok(
                        prefix_vals(crate::matmul::row(x@, s0 + p, in_f as int)),
                        row_sticky(crate::matmul::row(x@, s0 + p, in_f as int)),
                        f.rows_f[o as int],
                        in_f as int,
                        f.rspan as int,
                        f.rmin as int,
                    ));
                }
            }
            row_kernel(f, row, pls, &mut outbuf, &mut lane);
            let mut p: usize = 0;
            while p < np
                invariant
                    0 <= p <= np,
                    np <= PLANES,
                    s0 + np <= seq,
                    o < out_f,
                    out_f == f.rows,
                    seq * out_f <= usize::MAX,
                    y.len() == seq * out_f,
                    outbuf.len() == PLANES,
                    planes_all.len() == seq,
                    *row == f.rows_f[o as int],
                    pls@ == planes_all@.subrange(s0 as int, s0 + np),
                    forall|s: int| 0 <= s < seq ==> (#[trigger] planes_all[s]).reads(crate::matmul::row(x@, s, in_f as int)),
                    forall|q2: int| 0 <= q2 < np ==> outbuf[q2] == fold_cell(
                        (#[trigger] pls[q2]).v@,
                        pls[q2].sticky,
                        *row,
                        f.rspan as int,
                        f.rmin as int,
                    ),
                    forall|s: int, o2: int|
                        0 <= s < seq && 0 <= o2 < o ==> y[s * out_f + o2] == fold_cell(
                            prefix_vals(#[trigger] crate::matmul::row(x@, s, in_f as int)),
                            row_sticky(crate::matmul::row(x@, s, in_f as int)),
                            #[trigger] f.rows_f[o2],
                            f.rspan as int,
                            f.rmin as int,
                        ),
                    forall|s: int|
                        0 <= s < s0 + p ==> y[s * out_f + o] == fold_cell(
                            prefix_vals(#[trigger] crate::matmul::row(x@, s, in_f as int)),
                            row_sticky(crate::matmul::row(x@, s, in_f as int)),
                            f.rows_f[o as int],
                            f.rspan as int,
                            f.rmin as int,
                        ),
                decreases np - p,
            {
                proof {
                    crate::matmul::lemma_flat_index((s0 + p) as int, o as int, seq as int, out_f as int);
                }
                let ghost y0 = y@;
                y.set((s0 + p) * out_f + o, outbuf[p]);
                proof {
                    let sp = (s0 + p) as int;
                    assert(pls[p as int] == planes_all[sp]);
                    lemma_reads_vals(planes_all[sp], crate::matmul::row(x@, sp, in_f as int));
                    assert forall|s: int, o2: int|
                        0 <= s < seq && 0 <= o2 < o implies y[s * out_f + o2] == fold_cell(
                            prefix_vals(#[trigger] crate::matmul::row(x@, s, in_f as int)),
                            row_sticky(crate::matmul::row(x@, s, in_f as int)),
                            #[trigger] f.rows_f[o2],
                            f.rspan as int,
                            f.rmin as int,
                        ) by {
                        crate::matmul::lemma_flat_index(s, o2, seq as int, out_f as int);
                        lemma_flat_ne(s, o2, sp, o as int, out_f as int);
                        assert(y[s * out_f + o2] == y0[s * out_f + o2]);
                    }
                    assert forall|s: int|
                        0 <= s < s0 + p + 1 implies y[s * out_f + o] == fold_cell(
                            prefix_vals(#[trigger] crate::matmul::row(x@, s, in_f as int)),
                            row_sticky(crate::matmul::row(x@, s, in_f as int)),
                            f.rows_f[o as int],
                            f.rspan as int,
                            f.rmin as int,
                        ) by {
                        if s < sp {
                            crate::matmul::lemma_flat_index(s, o as int, seq as int, out_f as int);
                            lemma_flat_ne(s, o as int, sp, o as int, out_f as int);
                            assert(y[s * out_f + o] == y0[s * out_f + o]);
                        }
                    }
                }
                p += 1;
            }
            s0 += np;
        }
        o += 1;
    }
    y
}

proof fn lemma_flat_ne(s1: int, o1: int, s2: int, o2: int, n: int)
    requires
        0 <= o1 < n,
        0 <= o2 < n,
        s1 != s2 || o1 != o2,
    ensures
        s1 * n + o1 != s2 * n + o2,
{
    if s1 * n + o1 == s2 * n + o2 {
        assert(s1 == s2) by (nonlinear_arith)
            requires s1 * n + o1 == s2 * n + o2, 0 <= o1 < n, 0 <= o2 < n;
    }
}


// ── building the fold: keys, counts, and the stable placement ────────────────

/// The columns below n whose key is k, ascending.
pub open spec fn sel(ks: Seq<int>, k: int, n: int) -> Seq<int>
    decreases n,
{
    if n <= 0 {
        seq![]
    } else if ks[n - 1] == k {
        sel(ks, k, n - 1).push(n - 1)
    } else {
        sel(ks, k, n - 1)
    }
}

/// The columns of the keys below k2, key by key, each key's columns ascending.
pub open spec fn flat(ks: Seq<int>, k2: int, n: int) -> Seq<int>
    decreases k2,
{
    if k2 <= 0 {
        seq![]
    } else {
        flat(ks, k2 - 1, n) + sel(ks, k2 - 1, n)
    }
}

/// The buckets of the keys below k2 that carry a column: (key, count), ascending.
pub open spec fn bucket_list(ks: Seq<int>, k2: int, n: int) -> Seq<(u16, u16)>
    decreases k2,
{
    if k2 <= 0 {
        seq![]
    } else if sel(ks, k2 - 1, n).len() > 0 {
        bucket_list(ks, k2 - 1, n).push(((k2 - 1) as u16, sel(ks, k2 - 1, n).len() as u16))
    } else {
        bucket_list(ks, k2 - 1, n)
    }
}

proof fn lemma_sel_props(ks: Seq<int>, k: int, n: int)
    requires
        0 <= n <= ks.len(),
    ensures
        sel(ks, k, n).len() <= n,
        forall|j: int| 0 <= j < sel(ks, k, n).len() ==> 0 <= #[trigger] sel(ks, k, n)[j] < n && ks[sel(ks, k, n)[j]] == k,
        forall|j1: int, j2: int|
            0 <= j1 < j2 < sel(ks, k, n).len() ==> #[trigger] sel(ks, k, n)[j1] < #[trigger] sel(ks, k, n)[j2],
    decreases n,
{
    if n > 0 {
        lemma_sel_props(ks, k, n - 1);
    }
}

proof fn lemma_sel_grows(ks: Seq<int>, k: int, n1: int, n2: int)
    requires
        0 <= n1 <= n2 <= ks.len(),
    ensures
        sel(ks, k, n1).len() <= sel(ks, k, n2).len(),
        forall|j: int| 0 <= j < sel(ks, k, n1).len() ==> #[trigger] sel(ks, k, n2)[j] == sel(ks, k, n1)[j],
        n1 < n2 && ks[n1] == k ==> sel(ks, k, n1).len() < sel(ks, k, n2).len(),
    decreases n2,
{
    if n1 < n2 {
        lemma_sel_grows(ks, k, n1, n2 - 1);
        if ks[n1] == k && n1 == n2 - 1 {
        }
        if ks[n1] == k && n1 < n2 - 1 {
            lemma_sel_grows(ks, k, n1 + 1, n2 - 1);
        }
    }
}

proof fn lemma_flat_len_mono(ks: Seq<int>, k1: int, k2: int, n: int)
    requires
        0 <= k1 <= k2,
    ensures
        flat(ks, k1, n).len() + sel(ks, k1, n).len() <= flat(ks, k2, n).len() || k1 == k2,
        flat(ks, k1, n).len() <= flat(ks, k2, n).len(),
        forall|t: int| 0 <= t < flat(ks, k1, n).len() ==> #[trigger] flat(ks, k2, n)[t] == flat(ks, k1, n)[t],
    decreases k2,
{
    if k1 < k2 {
        lemma_flat_len_mono(ks, k1, k2 - 1, n);
        if k1 == k2 - 1 {
        }
    }
}

proof fn lemma_bucket_list_props(ks: Seq<int>, k2: int, n: int)
    requires
        0 <= k2,
        0 <= n <= ks.len(),
        n < 65536,
        k2 <= 65536,
    ensures
        bstart(bucket_list(ks, k2, n), bucket_list(ks, k2, n).len() as int) == flat(ks, k2, n).len(),
        forall|q: int| 0 <= q < bucket_list(ks, k2, n).len() ==> #[trigger] bucket_list(ks, k2, n)[q].1 >= 1,
        forall|q: int| 0 <= q < bucket_list(ks, k2, n).len() ==> (#[trigger] bucket_list(ks, k2, n)[q].0) < k2,
        keys_increase(bucket_list(ks, k2, n)),
        forall|q: int|
            0 <= q < bucket_list(ks, k2, n).len() ==> {
                &&& bstart(bucket_list(ks, k2, n), q) == flat(ks, (#[trigger] bucket_list(ks, k2, n)[q]).0 as int, n).len()
                &&& bucket_list(ks, k2, n)[q].1 == sel(ks, bucket_list(ks, k2, n)[q].0 as int, n).len()
            },
    decreases k2,
{
    if k2 > 0 {
        lemma_bucket_list_props(ks, k2 - 1, n);
        lemma_sel_props(ks, k2 - 1, n);
        let bl0 = bucket_list(ks, k2 - 1, n);
        let bl = bucket_list(ks, k2, n);
        if sel(ks, k2 - 1, n).len() > 0 {
            assert(bl == bl0.push(((k2 - 1) as u16, sel(ks, k2 - 1, n).len() as u16)));
            assert forall|q: int| 0 <= q < bl0.len() implies bstart(bl, q) == bstart(bl0, q) by {
                lemma_bstart_prefix(bl0, bl, q);
            }
            lemma_bstart_prefix(bl0, bl, bl0.len() as int);
            assert(bstart(bl, bl.len() as int) == bstart(bl, bl0.len() as int) + bl[bl0.len() as int].1);
        }
    }
}

proof fn lemma_bstart_prefix(a: Seq<(u16, u16)>, b: Seq<(u16, u16)>, q: int)
    requires
        0 <= q <= a.len() <= b.len(),
        forall|x: int| 0 <= x < a.len() ==> #[trigger] a[x] == b[x],
    ensures
        bstart(a, q) == bstart(b, q),
    decreases q,
{
    if q > 0 {
        lemma_bstart_prefix(a, b, q - 1);
    }
}


/// The bucket key of a weight pattern, or −1 for an exact zero (which no bucket carries).
pub open spec fn key_of(p: u16, rmax: int, r: int) -> int {
    if cell_m(p) == 0 {
        -1
    } else {
        sheet_of(p) * 128 * r + ((cell_m(p) - 1) / 2) * r + (rmax - cell_n(p))
    }
}

/// The keys of row o of a grid, column by column.
pub open spec fn row_keys(g: Grid, atoms: Atoms, o: int, r: int) -> Seq<int> {
    Seq::new(g.cols as nat, |c: int| key_of(atoms.pattern[g.at(o, c) as int], g.rmax as int, r))
}

/// Every nonzero weight of the grid has its rung within [rmin, rmax].
pub open spec fn rungs_in(g: Grid, atoms: Atoms) -> bool {
    forall|o: int, c: int|
        0 <= o < g.rows && 0 <= c < g.cols ==> {
            let p = atoms.pattern[#[trigger] g.at(o, c) as int];
            cell_m(p) != 0 ==> g.rmin <= cell_n(p) <= g.rmax
        }
}

/// The fold of one grid row: the keys of its columns, counted, placed stably by key, and
/// run-length coded.
fn fold_row(g: &Grid, atoms: &Atoms, o: usize, rspan: usize) -> (row: RowFold)
    requires
        g.wf(),
        atoms.wf(),
        ids_in(*g, *atoms),
        rungs_in(*g, *atoms),
        o < g.rows,
        g.cols < 65536,
        1 <= rspan <= 256,
        rspan == g.rmax - g.rmin + 1,
    ensures
        row.cols.len() == flat(row_keys(*g, *atoms, o as int, rspan as int), 256 * rspan, g.cols as int).len(),
        forall|t: int|
            0 <= t < row.cols.len() ==> #[trigger] row.cols[t] == flat(
                row_keys(*g, *atoms, o as int, rspan as int),
                256 * rspan,
                g.cols as int,
            )[t],
        row.buckets@ == bucket_list(row_keys(*g, *atoms, o as int, rspan as int), 256 * rspan, g.cols as int),
{
    let ghost r = rspan as int;
    let ghost ks = row_keys(*g, *atoms, o as int, r);
    let ghost ncols = g.cols as int;
    let kk: usize = 256 * rspan;
    let none: u32 = 0xFFFF_FFFF;
    // the keys, column by column, walking the row's lines
    let mut keys: Vec<u32> = Vec::new();
    let tcs = g.tile_cols();
    let tw = g.tw;
    proof {
        assert(tcs == g.place.tile_cols) by (nonlinear_arith)
            requires tcs == g.cols / g.tw, g.cols == g.place.tile_cols * g.tw, g.tw > 0;
    }
    let mut tc: usize = 0;
    while tc < tcs
        invariant
            0 <= tc <= tcs,
            tcs == g.place.tile_cols,
            tw == g.tw,
            g.wf(),
            atoms.wf(),
            ids_in(*g, *atoms),
            rungs_in(*g, *atoms),
            o < g.rows,
            r == rspan as int,
            1 <= rspan <= 256,
            rspan == g.rmax - g.rmin + 1,
            ks == row_keys(*g, *atoms, o as int, r),
            none == 0xFFFF_FFFF,
            keys.len() == tc * tw,
            forall|c: int| 0 <= c < keys.len() ==> (#[trigger] keys[c] == none && ks[c] == -1) || (keys[c] != none
                && keys[c] == ks[c] && 0 <= ks[c] < 256 * rspan),
        decreases tcs - tc,
    {
        let line = g.line(o, tc);
        proof {
            assert(tc * tw + tw <= g.cols) by (nonlinear_arith)
                requires tc < tcs, g.cols == tcs * tw;
        }
        let mut j: usize = 0;
        while j < tw
            invariant
                0 <= j <= tw,
                tc < tcs,
                tcs == g.place.tile_cols,
                tw == g.tw,
                tc * tw + tw <= g.cols,
                line.len() == tw,
                forall|q: int| 0 <= q < tw ==> #[trigger] line[q] == g.at(o as int, tc * tw + q),
                g.wf(),
                atoms.wf(),
                ids_in(*g, *atoms),
                rungs_in(*g, *atoms),
                o < g.rows,
                r == rspan as int,
                1 <= rspan <= 256,
                rspan == g.rmax - g.rmin + 1,
                ks == row_keys(*g, *atoms, o as int, r),
                none == 0xFFFF_FFFF,
                keys.len() == tc * tw + j,
                forall|c: int| 0 <= c < keys.len() ==> (#[trigger] keys[c] == none && ks[c] == -1) || (keys[c] != none
                    && keys[c] == ks[c] && 0 <= ks[c] < 256 * rspan),
            decreases tw - j,
        {
            let id = line[j] as usize;
            let ghost c = tc * tw + j;
            proof {
                crate::matmul::lemma_at_in(*g, *atoms, o as int, c);
                let pp = atoms.pattern[id as int];
                assert(atoms.sheet[id as int] == sheet_of(pp));
                lemma_cell_bounds(pp);
                crate::cells::lemma_fields(pp);
                assert(ks[c] == key_of(pp, g.rmax as int, r));
            }
            let m = atoms.m[id];
            if m == 0 {
                keys.push(none);
            } else {
                let sh = atoms.sheet[id] as usize;
                let n = atoms.n[id] as i32;
                proof {
                    let pp = atoms.pattern[id as int];
                    assert(g.rmin <= n <= g.rmax);
                    assert(((m - 1) / 2) < 128);
                    assert(sh * 128 * rspan + ((m - 1) / 2) * rspan + (g.rmax - n) < 256 * rspan) by (nonlinear_arith)
                        requires sh <= 1, (m - 1) / 2 < 128, 0 <= g.rmax - n < rspan, rspan <= 256;
                }
                let k = sh * 128 * rspan + ((m as usize - 1) / 2) * rspan + (g.rmax - n) as usize;
                keys.push(k as u32);
            }
            j += 1;
        }
        proof {
            assert(tc * tw + tw == (tc + 1) * tw) by (nonlinear_arith);
        }
        tc += 1;
    }
    proof {
        assert(keys.len() == g.cols) by (nonlinear_arith)
            requires keys.len() == tcs * tw, tcs == g.place.tile_cols, tw == g.tw, g.cols == g.place.tile_cols * g.tw;
    }
    // counts per key
    let mut count: Vec<u32> = Vec::new();
    let mut k: usize = 0;
    while k < kk
        invariant
            0 <= k <= kk,
            count.len() == k,
            forall|x: int| 0 <= x < k ==> #[trigger] count[x] == 0,
        decreases kk - k,
    {
        count.push(0);
        k += 1;
    }
    let mut c: usize = 0;
    while c < keys.len()
        invariant
            0 <= c <= keys.len(),
            keys.len() == ncols,
            ncols == ks.len(),
            ncols < 65536,
            kk == 256 * rspan,
            none == 0xFFFF_FFFF,
            count.len() == kk,
            forall|x: int| 0 <= x < keys.len() ==> (#[trigger] keys[x] == none && ks[x] == -1) || (keys[x] != none
                && keys[x] == ks[x] && 0 <= ks[x] < 256 * rspan),
            forall|x: int| 0 <= x < kk ==> #[trigger] count[x] == sel(ks, x, c as int).len(),
        decreases keys.len() - c,
    {
        if keys[c] != none {
            let key = keys[c] as usize;
            proof {
                lemma_sel_props(ks, key as int, c as int);
            }
            count.set(key, count[key] + 1);
        }
        c += 1;
    }
    // starts: the columns of all smaller keys
    let mut start: Vec<u32> = Vec::new();
    let mut acc: u32 = 0;
    let mut k: usize = 0;
    while k < kk
        invariant
            0 <= k <= kk,
            kk == 256 * rspan,
            count.len() == kk,
            ncols == ks.len(),
            ncols < 65536,
            forall|x: int| 0 <= x < kk ==> #[trigger] count[x] == sel(ks, x, ncols).len(),
            start.len() == k,
            acc == flat(ks, k as int, ncols).len(),
            forall|x: int| 0 <= x < k ==> #[trigger] start[x] == flat(ks, x, ncols).len(),
        decreases kk - k,
    {
        proof {
            lemma_flat_total(ks, k as int + 1, ncols);
        }
        start.push(acc);
        acc = acc + count[k];
        k += 1;
    }
    let total = acc as usize;
    proof {
        lemma_flat_total(ks, kk as int, ncols);
    }
    // the stable placement
    let mut out: Vec<u16> = Vec::new();
    let mut t: usize = 0;
    while t < total
        invariant
            0 <= t <= total,
            out.len() == t,
        decreases total - t,
    {
        out.push(0);
        t += 1;
    }
    let mut pos: Vec<u32> = Vec::new();
    let mut k: usize = 0;
    while k < kk
        invariant
            0 <= k <= kk,
            start.len() == kk,
            pos.len() == k,
            forall|x: int| 0 <= x < k ==> #[trigger] pos[x] == start[x],
        decreases kk - k,
    {
        pos.push(start[k]);
        k += 1;
    }
    let mut c: usize = 0;
    while c < keys.len()
        invariant
            0 <= c <= keys.len(),
            keys.len() == ncols,
            ncols == ks.len(),
            ncols < 65536,
            kk == 256 * rspan,
            none == 0xFFFF_FFFF,
            count.len() == kk,
            start.len() == kk,
            pos.len() == kk,
            total == flat(ks, kk as int, ncols).len(),
            total <= ncols,
            out.len() == total,
            forall|x: int| 0 <= x < keys.len() ==> (#[trigger] keys[x] == none && ks[x] == -1) || (keys[x] != none
                && keys[x] == ks[x] && 0 <= ks[x] < 256 * rspan),
            forall|x: int| 0 <= x < kk ==> #[trigger] start[x] == flat(ks, x, ncols).len(),
            forall|x: int| 0 <= x < kk ==> #[trigger] pos[x] == start[x] + sel(ks, x, c as int).len(),
            forall|x: int, q: int|
                0 <= x < kk && 0 <= q < sel(ks, x, c as int).len() ==> out[start[x] + q] == #[trigger] sel(ks, x, c as int)[q],
        decreases keys.len() - c,
    {
        if keys[c] != none {
            let key = keys[c] as usize;
            let ghost k0 = key as int;
            proof {
                lemma_sel_grows(ks, k0, c as int, ncols);
                lemma_flat_len_mono(ks, k0, kk as int, ncols);
                lemma_flat_len_mono(ks, k0 + 1, kk as int, ncols);
                assert(flat(ks, k0 + 1, ncols).len() == flat(ks, k0, ncols).len() + sel(ks, k0, ncols).len());
            }
            let ghost before = out@;
            proof {
                assert(ks[c as int] == k0);
            }
            out.set(pos[key] as usize, c as u16);
            pos.set(key, pos[key] + 1);
            proof {
                assert forall|x: int, q: int|
                    0 <= x < kk && 0 <= q < sel(ks, x, c + 1).len() implies out[start[x] + q] == #[trigger] sel(
                        ks,
                        x,
                        c + 1,
                    )[q] by {
                    let q0 = sel(ks, k0, c as int).len() as int;
                    if x == k0 && q == q0 {
                        assert(sel(ks, k0, c + 1) == sel(ks, k0, c as int).push(c as int));
                    } else {
                        lemma_slots_disjoint(ks, x, q, k0, q0, kk as int, ncols, c as int);
                        assert(out[start[x] + q] == before[start[x] + q]);
                        if x == k0 {
                            assert(sel(ks, k0, c + 1) == sel(ks, k0, c as int).push(c as int));
                            assert(sel(ks, x, c + 1)[q] == sel(ks, x, c as int)[q]);
                        } else {
                            assert(sel(ks, x, c + 1) == sel(ks, x, c as int));
                        }
                        assert(before[start[x] + q] == sel(ks, x, c as int)[q]);
                    }
                }
            }
        } else {
            proof {
                assert(ks[c as int] == -1);
                assert forall|x: int| 0 <= x < kk implies #[trigger] sel(ks, x, c + 1) == sel(ks, x, c as int) by {
                }
            }
        }
        c += 1;
    }
    // the buckets
    let mut buckets: Vec<(u16, u16)> = Vec::new();
    let mut k: usize = 0;
    while k < kk
        invariant
            0 <= k <= kk,
            kk == 256 * rspan,
            kk <= 65536,
            count.len() == kk,
            ncols == ks.len(),
            ncols < 65536,
            forall|x: int| 0 <= x < kk ==> #[trigger] count[x] == sel(ks, x, ncols).len(),
            buckets@ == bucket_list(ks, k as int, ncols),
        decreases kk - k,
    {
        if count[k] > 0 {
            proof {
                lemma_sel_props(ks, k as int, ncols);
            }
            buckets.push((k as u16, count[k] as u16));
        }
        k += 1;
    }
    proof {
        lemma_place_is_flat(ks, kk as int, ncols, out@, start@);
    }
    RowFold { buckets, cols: out }
}

proof fn lemma_flat_step(ks: Seq<int>, k: int, n: int)
    requires
        0 <= k,
        1 <= n <= ks.len(),
    ensures
        flat(ks, k, n).len() == flat(ks, k, n - 1).len() + (if 0 <= ks[n - 1] < k { 1int } else { 0 }),
    decreases k,
{
    if k > 0 {
        lemma_flat_step(ks, k - 1, n);
    }
}

proof fn lemma_flat_total(ks: Seq<int>, k: int, n: int)
    requires
        0 <= k,
        0 <= n <= ks.len(),
    ensures
        flat(ks, k, n).len() <= n,
    decreases n,
{
    if n > 0 {
        lemma_flat_total(ks, k, n - 1);
        lemma_flat_step(ks, k, n);
    } else {
        lemma_flat_empty(ks, k);
    }
}

proof fn lemma_flat_empty(ks: Seq<int>, k: int)
    requires
        0 <= k,
    ensures
        flat(ks, k, 0).len() == 0,
    decreases k,
{
    if k > 0 {
        lemma_flat_empty(ks, k - 1);
    }
}

proof fn lemma_slots_disjoint(ks: Seq<int>, x: int, q: int, k0: int, q0: int, kk: int, n: int, c: int)
    requires
        0 <= x < kk,
        0 <= k0 < kk,
        0 <= q < sel(ks, x, c + 1).len(),
        q0 == sel(ks, k0, c).len(),
        !(x == k0 && q == q0),
        0 <= c < n <= ks.len(),
        ks[c] == k0,
    ensures
        flat(ks, x, n).len() + q != flat(ks, k0, n).len() + q0,
        flat(ks, x, n).len() + q < flat(ks, kk, n).len(),
{
    lemma_sel_grows(ks, x, c + 1, n);
    lemma_sel_grows(ks, k0, c, n);
    lemma_flat_len_mono(ks, x + 1, kk, n);
    assert(flat(ks, x + 1, n).len() == flat(ks, x, n).len() + sel(ks, x, n).len());
    if x == k0 {
        assert(sel(ks, k0, c + 1).len() == q0 + 1);
    } else if x < k0 {
        lemma_flat_len_mono(ks, x + 1, k0, n);
        assert(flat(ks, x + 1, n).len() == flat(ks, x, n).len() + sel(ks, x, n).len());
    } else {
        lemma_flat_len_mono(ks, k0 + 1, x, n);
        assert(flat(ks, k0 + 1, n).len() == flat(ks, k0, n).len() + sel(ks, k0, n).len());
    }
}

proof fn lemma_place_is_flat(ks: Seq<int>, kk: int, n: int, out: Seq<u16>, start: Seq<u32>)
    requires
        0 <= kk <= start.len(),
        out.len() >= flat(ks, kk, n).len(),
        forall|x: int| 0 <= x < kk ==> #[trigger] start[x] == flat(ks, x, n).len(),
        forall|x: int, q: int|
            0 <= x < kk && 0 <= q < sel(ks, x, n).len() ==> out[start[x] + q] == #[trigger] sel(ks, x, n)[q],
    ensures
        forall|t: int| 0 <= t < flat(ks, kk, n).len() ==> #[trigger] out[t] == flat(ks, kk, n)[t],
    decreases kk,
{
    if kk > 0 {
        lemma_place_is_flat(ks, kk - 1, n, out, start);
        let f0 = flat(ks, kk - 1, n);
        let sl = sel(ks, kk - 1, n);
        assert forall|t: int| 0 <= t < flat(ks, kk, n).len() implies #[trigger] out[t] == flat(ks, kk, n)[t] by {
            if t >= f0.len() {
                let q = t - f0.len();
                assert(out[start[kk - 1] + q] == sl[q]);
            }
        }
    }
}


proof fn lemma_flat_elems(ks: Seq<int>, k: int, n: int)
    requires
        0 <= k,
        0 <= n <= ks.len(),
    ensures
        forall|t: int| 0 <= t < flat(ks, k, n).len() ==> 0 <= #[trigger] flat(ks, k, n)[t] < n,
    decreases k,
{
    if k > 0 {
        lemma_flat_elems(ks, k - 1, n);
        lemma_sel_props(ks, k - 1, n);
        let f0 = flat(ks, k - 1, n);
        assert forall|t: int| 0 <= t < flat(ks, k, n).len() implies 0 <= #[trigger] flat(ks, k, n)[t] < n by {
            if t >= f0.len() {
                assert(flat(ks, k, n)[t] == sel(ks, k - 1, n)[t - f0.len()]);
            }
        }
    }
}

/// Row o of the tensor fold is the fold of grid row o.
pub open spec fn folds_row(f: TensorFold, g: Grid, atoms: Atoms, o: int) -> bool {
    let ks = row_keys(g, atoms, o, f.rspan as int);
    let fl = flat(ks, 256 * f.rspan, g.cols as int);
    &&& f.rows_f[o].cols.len() == fl.len()
    &&& forall|t: int| 0 <= t < fl.len() ==> #[trigger] f.rows_f[o].cols[t] == fl[t]
    &&& f.rows_f[o].buckets@ == bucket_list(ks, 256 * f.rspan, g.cols as int)
}

impl TensorFold {
    /// The fold of every row of a grid, over the dictionary's cells.
    pub fn from_grid(g: &Grid, atoms: &Atoms) -> (f: TensorFold)
        requires
            g.wf(),
            atoms.wf(),
            ids_in(*g, *atoms),
            rungs_in(*g, *atoms),
            g.cols < 65536,
            -0x1000_0000 < g.rmin <= g.rmax < 0x1000_0000,
            256 * (g.rmax - g.rmin + 1) <= 65536,
        ensures
            f.rows == g.rows,
            f.cols == g.cols,
            f.rmin == g.rmin,
            f.rmax == g.rmax,
            f.rspan == g.rmax - g.rmin + 1,
            tensor_wf(f),
            forall|o: int| 0 <= o < g.rows ==> #[trigger] folds_row(f, *g, *atoms, o),
    {
        let rspan = (g.rmax - g.rmin + 1) as usize;
        let n = g.rows;
        let mut rows_f: Vec<RowFold> = Vec::new();
        let mut o: usize = 0;
        while o < n
            invariant
                0 <= o <= n,
                n == g.rows,
                g.wf(),
                atoms.wf(),
                ids_in(*g, *atoms),
                rungs_in(*g, *atoms),
                g.cols < 65536,
                rspan == g.rmax - g.rmin + 1,
                1 <= rspan <= 256,
                rows_f.len() == o,
                forall|q: int|
                    0 <= q < o ==> {
                        let ks = row_keys(*g, *atoms, q, rspan as int);
                        let fl = flat(ks, 256 * rspan, g.cols as int);
                        &&& (#[trigger] rows_f[q]).cols.len() == fl.len()
                        &&& forall|t: int| 0 <= t < fl.len() ==> #[trigger] rows_f[q].cols[t] == fl[t]
                        &&& rows_f[q].buckets@ == bucket_list(ks, 256 * rspan, g.cols as int)
                        &&& rows_f[q].wf(rspan as int, g.cols as int)
                    },
            decreases n - o,
        {
            let row = fold_row(g, atoms, o, rspan);
            proof {
                let ks = row_keys(*g, *atoms, o as int, rspan as int);
                let kk = 256 * rspan;
                lemma_bucket_list_props(ks, kk as int, g.cols as int);
                lemma_flat_elems(ks, kk as int, g.cols as int);
                assert(keys_increase(row.buckets@));
            }
            rows_f.push(row);
            o += 1;
        }
        TensorFold { rows: g.rows, cols: g.cols, rmin: g.rmin, rmax: g.rmax, rspan, rows_f }
    }

    pub fn bytes(&self) -> (r: usize)
        requires
            forall|o: int| 0 <= o < self.rows_f.len() ==> (#[trigger] self.rows_f[o]).buckets.len() <= 65536 && self.rows_f[o].cols.len() <= 65536,
            self.rows_f.len() * 0x6_0000 <= usize::MAX,
        ensures
            r == rows_bytes(self.rows_f@, self.rows_f.len() as int),
    {
        let mut total: usize = 0;
        let mut o: usize = 0;
        while o < self.rows_f.len()
            invariant
                0 <= o <= self.rows_f.len(),
                forall|q: int| 0 <= q < self.rows_f.len() ==> (#[trigger] self.rows_f[q]).buckets.len() <= 65536 && self.rows_f[q].cols.len() <= 65536,
                self.rows_f.len() * 0x6_0000 <= usize::MAX,
                total == rows_bytes(self.rows_f@, o as int),
                total <= o * 0x6_0000,
            decreases self.rows_f.len() - o,
        {
            let r = &self.rows_f[o];
            proof {
                assert(total + 0x6_0000 <= (o + 1) * 0x6_0000) by (nonlinear_arith)
                    requires total <= o * 0x6_0000;
                assert((o + 1) * 0x6_0000 <= self.rows_f.len() * 0x6_0000) by (nonlinear_arith)
                    requires o < self.rows_f.len();
            }
            total = total + r.buckets.len() * 4 + r.cols.len() * 2;
            o += 1;
        }
        total
    }
}

/// The bytes a fold's first k rows take: 4 per bucket, 2 per column.
pub open spec fn rows_bytes(rows: Seq<RowFold>, k: int) -> int
    decreases k,
{
    if k <= 0 {
        0
    } else {
        rows_bytes(rows, k - 1) + rows[k - 1].buckets.len() * 4 + rows[k - 1].cols.len() * 2
    }
}


// ── the fold is the bucket ───────────────────────────────────────────────────

/// Σ of v over the columns below n whose key is k.
pub open spec fn csum(v: Seq<i128>, ks: Seq<int>, k: int, n: int) -> int
    decreases n,
{
    if n <= 0 {
        0
    } else {
        csum(v, ks, k, n - 1) + (if ks[n - 1] == k { v[n - 1] as int } else { 0 })
    }
}

/// Σ_{k < k2} key_weight(k)·csum(k): the row by keys.
pub open spec fn ksum(v: Seq<i128>, ks: Seq<int>, r: int, k2: int, n: int) -> int
    decreases k2,
{
    if k2 <= 0 {
        0
    } else {
        ksum(v, ks, r, k2 - 1, n) + key_weight(k2 - 1, r) * csum(v, ks, k2 - 1, n)
    }
}

/// Σ over the columns below n with a key below k2 of key_weight(key)·v: the row by columns.
pub open spec fn colw(v: Seq<i128>, ks: Seq<int>, r: int, k2: int, n: int) -> int
    decreases n,
{
    if n <= 0 {
        0
    } else {
        colw(v, ks, r, k2, n - 1) + (if 0 <= ks[n - 1] < k2 { key_weight(ks[n - 1], r) * v[n - 1] } else { 0 })
    }
}

/// Σ_{j < m} v[s[j]].
pub open spec fn ssum(v: Seq<i128>, s: Seq<int>, m: int) -> int
    decreases m,
{
    if m <= 0 {
        0
    } else {
        ssum(v, s, m - 1) + v[s[m - 1]] as int
    }
}

proof fn lemma_ssum_prefix(v: Seq<i128>, a: Seq<int>, b: Seq<int>, m: int)
    requires
        0 <= m <= a.len(),
        m <= b.len(),
        forall|j: int| 0 <= j < m ==> #[trigger] a[j] == b[j],
    ensures
        ssum(v, a, m) == ssum(v, b, m),
    decreases m,
{
    if m > 0 {
        lemma_ssum_prefix(v, a, b, m - 1);
    }
}

proof fn lemma_sel_sum(v: Seq<i128>, ks: Seq<int>, k: int, n: int)
    requires
        0 <= n <= ks.len(),
    ensures
        ssum(v, sel(ks, k, n), sel(ks, k, n).len() as int) == csum(v, ks, k, n),
    decreases n,
{
    if n > 0 {
        lemma_sel_sum(v, ks, k, n - 1);
        let s0 = sel(ks, k, n - 1);
        if ks[n - 1] == k {
            let s1 = s0.push(n - 1);
            lemma_ssum_prefix(v, s0, s1, s0.len() as int);
        }
    }
}

proof fn lemma_colsum_run(v: Seq<i128>, cols: Seq<u16>, a: int, s: Seq<int>, m: int)
    requires
        0 <= m <= s.len(),
        0 <= a,
        a + m <= cols.len(),
        forall|j: int| 0 <= j < m ==> cols[a + j] == #[trigger] s[j],
    ensures
        colsum(v, cols, a, a + m) == ssum(v, s, m),
    decreases m,
{
    if m > 0 {
        lemma_colsum_run(v, cols, a, s, m - 1);
        assert(cols[a + m - 1] == s[m - 1]);
    }
}

proof fn lemma_fold_dot_prefix(v: Seq<i128>, a: Seq<(u16, u16)>, b: Seq<(u16, u16)>, cols: Seq<u16>, r: int, i: int)
    requires
        0 <= i <= a.len() <= b.len(),
        forall|x: int| 0 <= x < a.len() ==> #[trigger] a[x] == b[x],
    ensures
        fold_dot(v, a, cols, r, i) == fold_dot(v, b, cols, r, i),
    decreases i,
{
    if i > 0 {
        lemma_fold_dot_prefix(v, a, b, cols, r, i - 1);
        lemma_bstart_prefix(a, b, i - 1);
    }
}

/// Over the buckets and columns a fold is built from, the fold's value is the row by keys.
proof fn lemma_fold_by_keys(v: Seq<i128>, ks: Seq<int>, cols: Seq<u16>, r: int, k2: int, n: int)
    requires
        0 <= k2 <= 65536,
        0 <= n <= ks.len(),
        n < 65536,
        cols.len() >= flat(ks, k2, n).len(),
        forall|t: int| 0 <= t < flat(ks, k2, n).len() ==> cols[t] == #[trigger] flat(ks, k2, n)[t],
    ensures
        fold_dot(v, bucket_list(ks, k2, n), cols, r, bucket_list(ks, k2, n).len() as int) == ksum(v, ks, r, k2, n),
    decreases k2,
{
    if k2 > 0 {
        let k = k2 - 1;
        lemma_flat_len_mono(ks, k, k2, n);
        assert forall|t: int| 0 <= t < flat(ks, k, n).len() implies cols[t] == #[trigger] flat(ks, k, n)[t] by {
            assert(flat(ks, k2, n)[t] == flat(ks, k, n)[t]);
        }
        lemma_fold_by_keys(v, ks, cols, r, k, n);
        let bl0 = bucket_list(ks, k, n);
        let bl = bucket_list(ks, k2, n);
        let sl = sel(ks, k, n);
        lemma_sel_sum(v, ks, k, n);
        if sl.len() > 0 {
            lemma_fold_dot_prefix(v, bl0, bl, cols, r, bl0.len() as int);
            lemma_bucket_list_props(ks, k2, n);
            let q = bl0.len() as int;
            assert(bl[q].0 == k);
            assert(bstart(bl, q) == flat(ks, k, n).len());
            let a = flat(ks, k, n).len() as int;
            assert forall|j: int| 0 <= j < sl.len() implies cols[a + j] == #[trigger] sl[j] by {
                assert(flat(ks, k2, n)[a + j] == sl[j]);
            }
            lemma_colsum_run(v, cols, a, sl, sl.len() as int);
            assert(bucket_sum(v, bl, cols, q) == csum(v, ks, k, n));
            assert(k as u16 == k);
        } else {
            assert(csum(v, ks, k, n) == 0);
        }
    }
}

proof fn lemma_keys_to_columns(v: Seq<i128>, ks: Seq<int>, r: int, k2: int, n: int)
    requires
        0 <= k2,
        0 <= n <= ks.len(),
    ensures
        ksum(v, ks, r, k2, n) == colw(v, ks, r, k2, n),
    decreases n,
{
    if n > 0 {
        lemma_keys_to_columns(v, ks, r, k2, n - 1);
        lemma_ksum_step(v, ks, r, k2, n);
    } else {
        lemma_ksum_empty(v, ks, r, k2);
    }
}

proof fn lemma_ksum_empty(v: Seq<i128>, ks: Seq<int>, r: int, k2: int)
    ensures
        ksum(v, ks, r, k2, 0) == 0,
    decreases k2,
{
    if k2 > 0 {
        lemma_ksum_empty(v, ks, r, k2 - 1);
    }
}

proof fn lemma_ksum_step(v: Seq<i128>, ks: Seq<int>, r: int, k2: int, n: int)
    requires
        1 <= n <= ks.len(),
    ensures
        ksum(v, ks, r, k2, n) == ksum(v, ks, r, k2, n - 1) + (if 0 <= ks[n - 1] < k2 {
            key_weight(ks[n - 1], r) * v[n - 1]
        } else {
            0
        }),
    decreases k2,
{
    if k2 > 0 {
        lemma_ksum_step(v, ks, r, k2 - 1, n);
        let k = k2 - 1;
        let w = key_weight(k, r);
        let c0 = csum(v, ks, k, n - 1);
        if ks[n - 1] == k {
            assert(w * (c0 + v[n - 1]) == w * c0 + w * v[n - 1]) by (nonlinear_arith);
        }
    }
}

/// A column's key weight times its prefixed activation is the bucket's exact term.
proof fn lemma_column_term(xp: u16, wp: u16, rmin: int, rmax: int, r: int)
    requires
        r == rmax - rmin + 1,
        1 <= r <= 256,
        cell_m(wp) != 0 ==> rmin <= cell_n(wp) <= rmax,
    ensures
        key_of(wp, rmax, r) >= 0 ==> key_weight(key_of(wp, rmax, r), r) * act_term(xp) == term(
            sheet_of(xp),
            act_m(xp),
            act_n(xp),
            sheet_of(wp),
            cell_m(wp),
            cell_n(wp),
            ACT_FLOOR - rmin,
        ),
        key_of(wp, rmax, r) < 0 ==> term(
            sheet_of(xp),
            act_m(xp),
            act_n(xp),
            sheet_of(wp),
            cell_m(wp),
            cell_n(wp),
            ACT_FLOOR - rmin,
        ) == 0,
        key_of(wp, rmax, r) < 256 * r,
{
    lemma_cell_bounds(wp);
    lemma_cell_bounds(xp);
    crate::cells::lemma_fields(wp);
    crate::cells::lemma_fields(xp);
    if cell_m(wp) != 0 {
        let m = cell_m(wp);
        let n = cell_n(wp);
        let sw = sheet_of(wp);
        let odd = (m - 1) / 2;
        assert(m == 2 * odd + 1);
        let d = rmax - n;
        let k = sw * 128 * r + odd * r + d;
        assert(k == (sw * 128 + odd) * r + d) by (nonlinear_arith)
            requires k == sw * 128 * r + odd * r + d;
        assert(0 <= d < r);
        vstd::arithmetic::div_mod::lemma_fundamental_div_mod_converse(k, r, sw * 128 + odd, d);
        assert(k / r == sw * 128 + odd);
        assert(k % r == d);
        assert((sw * 128 + odd) % 128 == odd) by {
            vstd::arithmetic::div_mod::lemma_fundamental_div_mod_converse(sw * 128 + odd, 128, sw, odd);
        }
        assert(k < 256 * r) by (nonlinear_arith)
            requires k == (sw * 128 + odd) * r + d, 0 <= sw <= 1, 0 <= odd < 128, 0 <= d < r, r >= 1;
        assert(lane_weight(k / r) == if sw == 1 { -m } else { m });
        let e = (r - 1 - d) as nat;
        assert(e == n - rmin);
        if act_m(xp) != 0 {
            let mx = act_m(xp);
            let nx = act_n(xp);
            assert(nx + 90 >= 0) by {
                lemma_cell_bounds(xp);
            }
            let ex = (nx + 0 + 90) as nat;
            lemma_pow2_adds(ex, e);
            assert(ex + e == (nx + n + (ACT_FLOOR - rmin)) as nat);
            let t = mx * 1 * pow2(ex);
            let tx = if sheet_of(xp) != 0 { -t } else { t };
            assert(act_term(xp) == tx);
            let lw = if sw == 1 { -m } else { m };
            let full = mx * m * pow2(ex + e);
            assert(lw * pow2(e) * tx == if sheet_of(xp) != sw { -full } else { full }) by (nonlinear_arith)
                requires
                    pow2(ex + e) == pow2(ex) * pow2(e),
                    t == mx * 1 * pow2(ex),
                    tx == (if sheet_of(xp) != 0 { -t } else { t }),
                    lw == (if sw == 1 { -m } else { m }),
                    full == mx * m * pow2(ex + e),
                    0 <= sheet_of(xp) <= 1,
                    0 <= sw <= 1,
            ;
        } else {
            assert(act_term(xp) == 0);
        }
    }
}

proof fn lemma_columns_are_the_bucket(x: Seq<u16>, wr: Seq<u16>, ks: Seq<int>, rmin: int, rmax: int, r: int, n: int)
    requires
        r == rmax - rmin + 1,
        1 <= r <= 256,
        0 <= n <= x.len(),
        x.len() == wr.len(),
        ks.len() == wr.len(),
        forall|c: int| 0 <= c < wr.len() ==> #[trigger] ks[c] == key_of(wr[c], rmax, r),
        forall|c: int| 0 <= c < wr.len() ==> cell_m(#[trigger] wr[c]) != 0 ==> rmin <= cell_n(wr[c]) <= rmax,
        forall|c: int| 0 <= c < x.len() ==> prefixable(#[trigger] x[c]),
    ensures
        colw(prefix_vals(x), ks, r, 256 * r, n) == wdot(x, wr, n, ACT_FLOOR - rmin),
    decreases n,
{
    if n > 0 {
        lemma_columns_are_the_bucket(x, wr, ks, rmin, rmax, r, n - 1);
        let c = n - 1;
        lemma_column_term(x[c], wr[c], rmin, rmax, r);
        lemma_prefix_fits(x[c]);
        assert(prefix_vals(x)[c] as int == act_term(x[c]));
    }
}

proof fn lemma_prefix_fits(p: u16)
    requires
        prefixable(p),
    ensures
        i128::MIN <= act_term(p) <= i128::MAX,
{
    lemma_cell_bounds(p);
    if act_m(p) != 0 {
        let sh = (act_n(p) + 90) as nat;
        lemma2_to64();
        crate::lanes::lemma_pow2_128();
        lemma_pow2_adds(112, 8);
        lemma_pow2_strictly_increases(120, 127);
        lemma_pow2_unfold(128);
        if sh < 112 {
            lemma_pow2_strictly_increases(sh, 112);
        }
        lemma_pow2_pos(112);
        assert(act_m(p) * 1 * pow2(sh) <= 255 * pow2(112)) by (nonlinear_arith)
            requires act_m(p) < 256, pow2(sh) <= pow2(112), pow2(sh) >= 0;
        assert(255 * pow2(112) < pow2(127)) by (nonlinear_arith)
            requires pow2(120) == pow2(112) * pow2(8), pow2(8) == 256, pow2(120) < pow2(127), pow2(112) > 0;
    }
}

/// The fold is the bucket: over a fold built from a grid, a row's exact value is the grid
/// kernel's exact dot product, term for term, so the cells are bit-identical.
pub proof fn lemma_fold_is_the_bucket(x: Seq<u16>, g: Grid, atoms: Atoms, f: TensorFold, o: int)
    requires
        g.wf(),
        atoms.wf(),
        ids_in(g, atoms),
        rungs_in(g, atoms),
        g.cols < 65536,
        0 <= o < g.rows,
        f.rspan == g.rmax - g.rmin + 1,
        1 <= f.rspan <= 256,
        f.rmin == g.rmin,
        f.rows_f.len() == g.rows,
        folds_row(f, g, atoms, o),
        x.len() == g.cols,
        forall|c: int| 0 <= c < x.len() ==> prefixable(#[trigger] x[c]),
    ensures
        fold_dot(prefix_vals(x), f.rows_f[o].buckets@, f.rows_f[o].cols@, f.rspan as int, f.rows_f[o].buckets.len() as int)
            == wdot(x, grid_row(g, atoms, o), x.len() as int, ACT_FLOOR - g.rmin),
        fold_cell(prefix_vals(x), row_sticky(x), f.rows_f[o], f.rspan as int, f.rmin as int) == wcell_out(
            x,
            grid_row(g, atoms, o),
            ACT_FLOOR - g.rmin,
        ),
{
    let r = f.rspan as int;
    let ks = row_keys(g, atoms, o, r);
    let wr = grid_row(g, atoms, o);
    let n = g.cols as int;
    let row = f.rows_f[o];
    let v = prefix_vals(x);
    lemma_fold_by_keys(v, ks, row.cols@, r, 256 * r, n);
    lemma_keys_to_columns(v, ks, r, 256 * r, n);
    assert forall|c: int| 0 <= c < wr.len() implies cell_m(#[trigger] wr[c]) != 0 ==> g.rmin <= cell_n(wr[c]) <= g.rmax by {
        let p = atoms.pattern[g.at(o, c) as int];
        assert(wr[c] == p);
    }
    lemma_columns_are_the_bucket(x, wr, ks, g.rmin as int, g.rmax as int, r, n);
}
} // verus!
