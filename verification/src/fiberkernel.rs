//! The kernel that walks positions.
//!
//! The id side: every atom of the dictionary is a point (sign, k, n) of the bundle — k its
//! position on the 16-bit torus (m = ±5^k mod 2^16), n its rung. The activation row is
//! decomposed to points once per token. A term is then: signs xor, positions ADD, the odd
//! product SELECTED from the antilog (exact: the product of two 8-bit odds is a 16-bit
//! residue), rungs add, one shift, one add into the same 256-bit lane as the bucket. The same
//! terms in the same order as `matmul::matmul_grid`, so the cells are bit-identical.

use vstd::arithmetic::power2::*;
use vstd::prelude::*;

use crate::cells::{cell_m, cell_n, finite, lemma_cell_bounds, sheet_of};
use crate::fiber::{
    lemma_product_is_position_sum, lemma_residue_odd, lemma_residue_periodic, odd_at, period_of, residue,
    Fiber,
};
use crate::lanes::{lemma_wrap_add, lemma_wrap_small, wrap256};
use crate::matmul::{
    act_m, act_n, collapse_fits, collapse_spec, frac_for, grid_row, ids_in, row, row_sticky, term, term_fits,
    wcell_ok, wcell_out, wdot, Bucket, XRow, ACT_FLOOR,
};
use crate::surfaces::{Atoms, Grid};

verus! {

proof fn lemma_core_odd(p: u16)
    ensures
        cell_m(p) != 0 ==> cell_m(p) % 2 == 1,
        0 <= cell_m(p) < 256,
{
    lemma_cell_bounds(p);
    if crate::cells::significand(p) == 0 {
        assert(cell_m(p) == 0);
    }
}

/// The dictionary read as positions: one point per atom id.
pub struct FiberAtoms {
    /// the value's sign (beside the cell)
    pub sign: Vec<u8>,
    /// the residue's sign: m = (−1)^neg · 5^k mod 2^16
    pub neg: Vec<u8>,
    pub k: Vec<u32>,
    pub n: Vec<i32>,
    /// position → odd residue mod 2^16 (the value side, selected once per term)
    pub antilog: Vec<u32>,
}

/// The odd core an atom's point stands for.
pub open spec fn point_m(neg: u8, k: u32) -> int {
    odd_at(16, neg == 1, k as nat)
}

impl FiberAtoms {
    /// Every id is a point of the 16-bit torus whose odd core is an 8-bit odd.
    pub open spec fn wf(&self) -> bool {
        &&& self.neg.len() == self.sign.len()
        &&& self.k.len() == self.sign.len()
        &&& self.n.len() == self.sign.len()
        &&& self.antilog.len() == period_of(16)
        &&& forall|j: int| 0 <= j < self.antilog.len() ==> #[trigger] self.antilog[j] == residue(16, j as nat)
        &&& forall|id: int|
            0 <= id < self.sign.len() ==> {
                &&& #[trigger] self.sign[id] <= 1
                &&& self.neg[id] <= 1
                &&& self.k[id] < period_of(16)
                &&& -133 <= self.n[id] <= 128
                &&& 0 < point_m(self.neg[id], self.k[id]) < 256
            }
    }

    /// The points are the atoms of the dictionary.
    pub open spec fn reads(&self, atoms: Atoms) -> bool {
        &&& self.wf()
        &&& self.sign.len() == atoms.pattern.len()
        &&& forall|id: int|
            0 <= id < self.sign.len() ==> {
                &&& #[trigger] self.sign[id] == sheet_of(atoms.pattern[id])
                &&& point_m(self.neg[id], self.k[id]) == cell_m(atoms.pattern[id])
                &&& self.n[id] == cell_n(atoms.pattern[id])
            }
    }

    /// Every atom of the dictionary as a point. The torus has no zero, so every atom's core
    /// must be odd (no exact zero in the dictionary).
    #[verifier::spinoff_prover]
    pub fn from_atoms(atoms: &Atoms) -> (fa: FiberAtoms)
        requires
            atoms.wf(),
            forall|id: int| 0 <= id < atoms.m.len() ==> #[trigger] atoms.m[id] != 0,
        ensures
            fa.reads(*atoms),
    {
        let f = Fiber::new(16);
        let n_ids = atoms.m.len();
        let mut out = FiberAtoms { sign: Vec::new(), neg: Vec::new(), k: Vec::new(), n: Vec::new(), antilog: Vec::new() };
        proof {
            lemma2_to64();
        }
        let mut j: usize = 0;
        while j < f.antilog.len()
            invariant
                f.wf(),
                f.bits == 16,
                0 <= j <= f.antilog.len(),
                out.antilog.len() == j,
                out.sign.len() == 0,
                out.neg.len() == 0,
                out.k.len() == 0,
                out.n.len() == 0,
                forall|q: int| 0 <= q < j ==> #[trigger] out.antilog[q] == residue(16, q as nat),
            decreases f.antilog.len() - j,
        {
            out.antilog.push(f.antilog[j]);
            j += 1;
        }
        let mut id: usize = 0;
        while id < n_ids
            invariant
                f.wf(),
                f.bits == 16,
                atoms.wf(),
                n_ids == atoms.m.len(),
                forall|q: int| 0 <= q < atoms.m.len() ==> #[trigger] atoms.m[q] != 0,
                0 <= id <= n_ids,
                out.sign.len() == id,
                out.neg.len() == id,
                out.k.len() == id,
                out.n.len() == id,
                out.antilog.len() == period_of(16),
                forall|q: int| 0 <= q < out.antilog.len() ==> #[trigger] out.antilog[q] == residue(16, q as nat),
                forall|q: int|
                    0 <= q < id ==> {
                        &&& #[trigger] out.sign[q] == sheet_of(atoms.pattern[q])
                        &&& out.neg[q] <= 1
                        &&& out.k[q] < period_of(16)
                        &&& point_m(out.neg[q], out.k[q]) == cell_m(atoms.pattern[q])
                        &&& out.n[q] == cell_n(atoms.pattern[q])
                    },
            decreases n_ids - id,
        {
            let m = atoms.m[id] as u32;
            proof {
                assert(atoms.sheet[id as int] == sheet_of(atoms.pattern[id as int]));
                lemma_core_odd(atoms.pattern[id as int]);
                lemma2_to64();
            }
            let (s, k) = f.position(m);
            let ghost (s0, g0, k0, n0) = (out.sign@, out.neg@, out.k@, out.n@);
            out.sign.push(atoms.sheet[id]);
            out.neg.push(if s { 1u8 } else { 0u8 });
            out.k.push(k);
            out.n.push(atoms.n[id] as i32);
            proof {
                assert(odd_at(16, s, k as nat) == cell_m(atoms.pattern[id as int]));
                assert(point_m(out.neg[id as int], out.k[id as int]) == cell_m(atoms.pattern[id as int]));
                assert(out.k[id as int] < period_of(16));
                assert(out.n[id as int] == cell_n(atoms.pattern[id as int]));
                assert(out.sign[id as int] == sheet_of(atoms.pattern[id as int]));
                assert forall|q: int| 0 <= q < id + 1 implies {
                    &&& #[trigger] out.sign[q] == sheet_of(atoms.pattern[q])
                    &&& out.neg[q] <= 1
                    &&& out.k[q] < period_of(16)
                    &&& point_m(out.neg[q], out.k[q]) == cell_m(atoms.pattern[q])
                    &&& out.n[q] == cell_n(atoms.pattern[q])
                } by {
                    if q < id {
                        assert(out.sign[q] == s0[q]);
                        assert(out.neg[q] == g0[q]);
                        assert(out.k[q] == k0[q]);
                        assert(out.n[q] == n0[q]);
                    }
                }
            }
            id += 1;
        }
        proof {
            assert forall|q: int| 0 <= q < out.sign.len() implies {
                &&& #[trigger] out.sign[q] <= 1
                &&& out.neg[q] <= 1
                &&& out.k[q] < period_of(16)
                &&& -133 <= out.n[q] <= 128
                &&& 0 < point_m(out.neg[q], out.k[q]) < 256
            } by {
                lemma_cell_bounds(atoms.pattern[q]);
                crate::cells::lemma_fields(atoms.pattern[q]);
                assert(out.sign[q] == sheet_of(atoms.pattern[q]));
                assert(atoms.sheet[q] == sheet_of(atoms.pattern[q]));
                assert(atoms.m[q] != 0);
            }
        }
        out
    }

    pub fn bytes(&self) -> (r: usize)
        requires
            self.sign.len() * 10 + self.antilog.len() * 4 <= usize::MAX,
        ensures
            r == self.sign.len() * (1 + 1 + 4 + 4) + self.antilog.len() * 4,
    {
        self.sign.len() * (1 + 1 + 4 + 4) + self.antilog.len() * 4
    }
}

/// One activation row as points (zero cells flagged; the floor and sticky as in `XRow`).
pub struct XPos {
    pub sign: Vec<u8>,
    pub neg: Vec<u8>,
    pub k: Vec<u32>,
    pub n: Vec<i32>,
    pub zero: Vec<bool>,
    pub sticky: bool,
}

impl XPos {
    /// The row holds the points of the patterns `x`, read above the floor.
    pub open spec fn reads(&self, x: Seq<u16>) -> bool {
        &&& self.sign.len() == x.len()
        &&& self.neg.len() == x.len()
        &&& self.k.len() == x.len()
        &&& self.n.len() == x.len()
        &&& self.zero.len() == x.len()
        &&& forall|i: int|
            0 <= i < x.len() ==> {
                &&& #[trigger] self.sign[i] == sheet_of(x[i])
                &&& self.n[i] == act_n(x[i])
                &&& self.zero[i] == (act_m(x[i]) == 0)
                &&& self.neg[i] <= 1
                &&& self.k[i] < period_of(16)
                &&& (!self.zero[i] ==> point_m(self.neg[i], self.k[i]) == act_m(x[i]))
                &&& (self.zero[i] ==> self.neg[i] == 0 && self.k[i] == 0)
            }
        &&& self.sticky == row_sticky(x)
    }

    #[verifier::spinoff_prover]
    #[verifier::rlimit(40)]
    pub fn new(x: &[u16], f: &Fiber) -> (p: XPos)
        requires
            f.wf(),
            f.bits == 16,
            forall|i: int| 0 <= i < x.len() ==> finite(#[trigger] x[i]),
        ensures
            p.reads(x@),
    {
        let r = XRow::new(x);
        let len = r.m.len();
        let mut p = XPos { sign: Vec::new(), neg: Vec::new(), k: Vec::new(), n: Vec::new(), zero: Vec::new(), sticky: r.sticky };
        let mut i: usize = 0;
        while i < len
            invariant
                f.wf(),
                f.bits == 16,
                r.reads(x@),
                len == x.len(),
                0 <= i <= len,
                p.sticky == row_sticky(x@),
                p.sign.len() == i,
                p.neg.len() == i,
                p.k.len() == i,
                p.n.len() == i,
                p.zero.len() == i,
                forall|q: int|
                    0 <= q < i ==> {
                        &&& #[trigger] p.sign[q] == sheet_of(x@[q])
                        &&& p.n[q] == act_n(x@[q])
                        &&& p.zero[q] == (act_m(x@[q]) == 0)
                        &&& p.neg[q] <= 1
                        &&& p.k[q] < period_of(16)
                        &&& (!p.zero[q] ==> point_m(p.neg[q], p.k[q]) == act_m(x@[q]))
                    },
                forall|q: int| 0 <= q < i ==> (#[trigger] p.zero[q] ==> p.neg[q] == 0 && p.k[q] == 0),
            decreases len - i,
        {
            proof {
                assert(r.sheet[i as int] == sheet_of(x@[i as int]));
            }
            let ghost (s0, n0, z0, g0, k0) = (p.sign@, p.n@, p.zero@, p.neg@, p.k@);
            p.n.push(r.n[i]);
            if r.m[i] == 0 {
                p.sign.push(r.sheet[i]);
                p.neg.push(0);
                p.k.push(0);
                p.zero.push(true);
            } else {
                proof {
                    assert(r.sheet[i as int] == sheet_of(x@[i as int]));
                    lemma_core_odd(x@[i as int]);
                    lemma2_to64();
                }
                let (s, k) = f.position(r.m[i]);
                p.sign.push(r.sheet[i]);
                p.neg.push(if s { 1u8 } else { 0u8 });
                p.k.push(k);
                p.zero.push(false);
                proof {
                    assert(odd_at(16, s, k as nat) == act_m(x@[i as int]));
                }
            }
            proof {
                assert(p.sign[i as int] == sheet_of(x@[i as int]));
                assert(p.n[i as int] == act_n(x@[i as int]));
                assert(p.zero[i as int] == (act_m(x@[i as int]) == 0));
                assert(!p.zero[i as int] ==> point_m(p.neg[i as int], p.k[i as int]) == act_m(x@[i as int]));
                assert(p.zero[i as int] ==> p.neg[i as int] == 0 && p.k[i as int] == 0);
                lemma_pow2_pos(14);
                assert(p.neg[i as int] <= 1);
                assert(p.k[i as int] < period_of(16));
                assert forall|q: int| 0 <= q < i + 1 implies {
                    &&& #[trigger] p.sign[q] == sheet_of(x@[q])
                    &&& p.n[q] == act_n(x@[q])
                    &&& p.zero[q] == (act_m(x@[q]) == 0)
                    &&& p.neg[q] <= 1
                    &&& p.k[q] < period_of(16)
                    &&& (!p.zero[q] ==> point_m(p.neg[q], p.k[q]) == act_m(x@[q]))
                } by {
                    if q < i {
                        assert(p.sign[q] == s0[q]);
                        assert(p.n[q] == n0[q]);
                        assert(p.zero[q] == z0[q]);
                        assert(p.neg[q] == g0[q]);
                        assert(p.k[q] == k0[q]);
                    }
                }
                assert forall|q: int| 0 <= q < i + 1 implies (#[trigger] p.zero[q] ==> p.neg[q] == 0 && p.k[q] == 0) by {
                    if q < i {
                        assert(p.zero[q] == z0[q]);
                        assert(p.neg[q] == g0[q]);
                        assert(p.k[q] == k0[q]);
                    }
                }
            }
            i += 1;
        }
        assert(i == x@.len());
        assert(p.reads(x@));
        p
    }
}

// ── the walk ─────────────────────────────────────────────────────────────────

/// The atom ids of output row `o` of a grid, in column order.
pub open spec fn grid_ids(w: Grid, o: int) -> Seq<u16> {
    Seq::new(w.cols as nat, |i: int| w.at(o, i))
}

/// Σ_{i<k} of the exact terms of activation row x against the points of the ids, at 2^-frac.
pub open spec fn pdot(x: Seq<u16>, fa: FiberAtoms, ids: Seq<u16>, k: int, frac: int) -> int
    decreases k,
{
    if k <= 0 {
        0
    } else {
        let id = ids[k - 1] as int;
        pdot(x, fa, ids, k - 1, frac) + term(
            sheet_of(x[k - 1]),
            act_m(x[k - 1]),
            act_n(x[k - 1]),
            fa.sign[id] as int,
            point_m(fa.neg[id], fa.k[id]),
            fa.n[id] as int,
            frac,
        )
    }
}

/// Every id names a point, every term fits the lane, the exact sum fits the 256-bit lane (so
/// nothing wraps), and it fits bf16.
pub open spec fn pcell_ok(x: Seq<u16>, fa: FiberAtoms, ids: Seq<u16>, frac: int) -> bool {
    &&& x.len() == ids.len()
    &&& forall|i: int| 0 <= i < ids.len() ==> (#[trigger] ids[i] as int) < fa.sign.len()
    &&& forall|i: int|
        0 <= i < x.len() ==> term_fits(
            act_m(#[trigger] x[i]),
            act_n(x[i]),
            point_m(fa.neg[ids[i] as int], fa.k[ids[i] as int]),
            fa.n[ids[i] as int] as int,
            frac,
        )
    &&& crate::lanes::in_lane(pdot(x, fa, ids, x.len() as int, frac))
    &&& collapse_fits(pdot(x, fa, ids, x.len() as int, frac), row_sticky(x), frac)
}

/// The pattern one output cell of the walk collapses to: the exact sum, rounded once.
pub open spec fn pcell_out(x: Seq<u16>, fa: FiberAtoms, ids: Seq<u16>, frac: int) -> int {
    collapse_spec(pdot(x, fa, ids, x.len() as int, frac), row_sticky(x), frac)
}

/// Walking positions is walking the bucket: over a dictionary that the points read, the
/// walk's exact sum is the grid's exact sum, term for term.
pub proof fn lemma_positions_are_the_bucket(x: Seq<u16>, w: Grid, atoms: Atoms, fa: FiberAtoms, o: int, k: int, frac: int)
    requires
        fa.reads(atoms),
        w.wf(),
        ids_in(w, atoms),
        0 <= o < w.rows,
        0 <= k <= w.cols,
    ensures
        pdot(x, fa, grid_ids(w, o), k, frac) == wdot(x, grid_row(w, atoms, o), k, frac),
    decreases k,
{
    if k > 0 {
        lemma_positions_are_the_bucket(x, w, atoms, fa, o, k - 1, frac);
        crate::matmul::lemma_at_in(w, atoms, o, k - 1);
    }
}

/// The walk's cells are the grid's cells: where the points read the dictionary, a cell that
/// the bucket can compute the walk computes, and to the same pattern.
pub proof fn lemma_positions_match_grid(x: Seq<u16>, w: Grid, atoms: Atoms, fa: FiberAtoms, o: int, frac: int)
    requires
        fa.reads(atoms),
        w.wf(),
        ids_in(w, atoms),
        0 <= o < w.rows,
        x.len() == w.cols,
        wcell_ok(x, grid_row(w, atoms, o), frac),
    ensures
        pcell_ok(x, fa, grid_ids(w, o), frac),
        pcell_out(x, fa, grid_ids(w, o), frac) == wcell_out(x, grid_row(w, atoms, o), frac),
{
    lemma_positions_are_the_bucket(x, w, atoms, fa, o, x.len() as int, frac);
    assert forall|i: int| 0 <= i < w.cols implies (#[trigger] grid_ids(w, o)[i] as int) < fa.sign.len() by {
        crate::matmul::lemma_at_in(w, atoms, o, i);
    }
    assert forall|i: int|
        0 <= i < x.len() implies term_fits(
            act_m(#[trigger] x[i]),
            act_n(x[i]),
            point_m(fa.neg[grid_ids(w, o)[i] as int], fa.k[grid_ids(w, o)[i] as int]),
            fa.n[grid_ids(w, o)[i] as int] as int,
            frac,
        ) by {
        crate::matmul::lemma_at_in(w, atoms, o, i);
        let id = grid_ids(w, o)[i] as int;
        assert(grid_row(w, atoms, o)[i] == atoms.pattern[id]);
        assert(fa.sign[id] == sheet_of(atoms.pattern[id]));
    }
}

/// The odd product of two points, selected from the antilog: positions add, the residue's
/// sign picks 5^k or 2^16 − 5^k.
fn select_product(fa: &FiberAtoms, xneg: u8, xk: u32, fneg: u8, fk: u32) -> (prod: u32)
    requires
        fa.wf(),
        xneg <= 1,
        fneg <= 1,
        xk < period_of(16),
        fk < period_of(16),
        0 < point_m(xneg, xk) < 256,
        0 < point_m(fneg, fk) < 256,
    ensures
        prod == point_m(xneg, xk) * point_m(fneg, fk),
{
    proof {
        lemma2_to64();
    }
    let sum = xk + fk;
    let kk = sum & 0x3FFF;
    assert(kk == sum % 16384) by (bit_vector)
        requires kk == sum & 0x3FFF;
    let r = fa.antilog[kk as usize] as i32;
    let d = xneg ^ fneg;
    assert(d <= 1 && (d == 1 <==> ((xneg == 1) != (fneg == 1)))) by (bit_vector)
        requires xneg <= 1, fneg <= 1, d == xneg ^ fneg;
    let mask = -(d as i32);
    proof {
        lemma_residue_odd(16, kk as nat);
        lemma_residue_periodic(16, sum as nat);
        lemma_product_is_position_sum(16, xneg == 1, xk as nat, fneg == 1, fk as nat);
        let a = point_m(xneg, xk);
        let b = point_m(fneg, fk);
        assert(0 < a * b < 65536) by (nonlinear_arith)
            requires 0 < a < 256, 0 < b < 256;
        vstd::arithmetic::div_mod::lemma_small_mod((a * b) as nat, 65536);
    }
    let t = 65536 - 2 * r;
    let u = t & mask;
    assert(d == 0 ==> u == 0) by (bit_vector)
        requires u == t & mask, mask == -(d as i32), d <= 1;
    assert(d == 1 ==> u == t) by (bit_vector)
        requires u == t & mask, mask == -(d as i32), d <= 1;
    (r + u) as u32
}

/// One output cell against grid row `o`, walking positions.
fn pos_cell(xr: &XPos, w: &Grid, fa: &FiberAtoms, o: usize, frac: i32, Ghost(x): Ghost<Seq<u16>>) -> (r: u16)
    requires
        xr.reads(x),
        w.wf(),
        fa.wf(),
        o < w.rows,
        x.len() == w.cols,
        -0x2000_0000 < frac < 0x2000_0000,
        pcell_ok(x, *fa, grid_ids(*w, o as int), frac as int),
    ensures
        r == pcell_out(x, *fa, grid_ids(*w, o as int), frac as int),
{
    let ghost ids = grid_ids(*w, o as int);
    let mut b = Bucket::new(frac);
    b.sticky = xr.sticky;
    let tcs = w.tile_cols();
    let tw = w.tw;
    proof {
        lemma_wrap_small(0);
        assert(tcs == w.place.tile_cols) by (nonlinear_arith)
            requires tcs == w.cols / w.tw, w.cols == w.place.tile_cols * w.tw, w.tw > 0;
    }
    let mut tc: usize = 0;
    while tc < tcs
        invariant
            0 <= tc <= tcs,
            tcs == w.place.tile_cols,
            tw == w.tw,
            xr.reads(x),
            w.wf(),
            fa.wf(),
            o < w.rows,
            x.len() == w.cols,
            ids == grid_ids(*w, o as int),
            -0x2000_0000 < frac < 0x2000_0000,
            pcell_ok(x, *fa, ids, frac as int),
            b.frac == frac,
            b.sticky == row_sticky(x),
            b.acc.val() == wrap256(pdot(x, *fa, ids, tc * tw, frac as int)),
        decreases tcs - tc,
    {
        let line = w.line(o, tc);
        proof {
            assert(tc * tw + tw <= w.cols) by (nonlinear_arith)
                requires tc < tcs, w.cols == tcs * tw;
        }
        let base = tc * tw;
        let mut j: usize = 0;
        while j < tw
            invariant
                0 <= j <= tw,
                tc < tcs,
                tcs == w.place.tile_cols,
                tw == w.tw,
                base == tc * tw,
                base + tw <= w.cols,
                line.len() == tw,
                forall|q: int| 0 <= q < tw ==> #[trigger] line[q] == w.at(o as int, tc * tw + q),
                xr.reads(x),
                w.wf(),
                fa.wf(),
                o < w.rows,
                x.len() == w.cols,
                ids == grid_ids(*w, o as int),
                -0x2000_0000 < frac < 0x2000_0000,
                pcell_ok(x, *fa, ids, frac as int),
                b.frac == frac,
                b.sticky == row_sticky(x),
                b.acc.val() == wrap256(pdot(x, *fa, ids, base + j, frac as int)),
            decreases tw - j,
        {
            let id = line[j] as usize;
            let i = base + j;
            proof {
                assert(ids[i as int] == id);
                lemma_cell_bounds(x[i as int]);
                assert(xr.sign[i as int] == sheet_of(x[i as int]));
                assert(fa.sign[id as int] <= 1);
            }
            let ghost t = term(
                sheet_of(x[i as int]),
                act_m(x[i as int]),
                act_n(x[i as int]),
                fa.sign[id as int] as int,
                point_m(fa.neg[id as int], fa.k[id as int]),
                fa.n[id as int] as int,
                frac as int,
            );
            if xr.zero[i] {
                proof {
                    assert(t == 0);
                    lemma_wrap_add(pdot(x, *fa, ids, i as int, frac as int), 0);
                }
            } else {
                let prod = select_product(fa, xr.neg[i], xr.k[i], fa.neg[id], fa.k[id]);
                let sign = xr.sign[i] ^ fa.sign[id];
                proof {
                    let sx = xr.sign[i as int];
                    let sw = fa.sign[id as int];
                    assert(sx <= 1) by {
                        crate::cells::lemma_fields(x[i as int]);
                    }
                    assert(sign != 0 <==> sx != sw) by (bit_vector)
                        requires sign == sx ^ sw, sx <= 1, sw <= 1;
                    assert(term_fits(
                        act_m(x[i as int]),
                        act_n(x[i as int]),
                        point_m(fa.neg[id as int], fa.k[id as int]),
                        fa.n[id as int] as int,
                        frac as int,
                    ));
                }
                b.add_product(sign, prod, xr.n[i] + fa.n[id]);
                proof {
                    lemma_wrap_add(pdot(x, *fa, ids, i as int, frac as int), t);
                    if sign != 0 {
                        assert(t == -(prod * pow2((xr.n[i as int] + fa.n[id as int] + frac) as nat)));
                    } else {
                        assert(t == prod * pow2((xr.n[i as int] + fa.n[id as int] + frac) as nat));
                    }
                }
            }
            j += 1;
        }
        proof {
            assert(base + tw == (tc + 1) * tw) by (nonlinear_arith)
                requires base == tc * tw;
        }
        tc += 1;
    }
    proof {
        assert(tcs * tw == x.len()) by (nonlinear_arith)
            requires tcs == w.place.tile_cols, tw == w.tw, x.len() == w.cols, w.cols == w.place.tile_cols * w.tw;
        crate::lanes::lemma_wrap_in_lane(pdot(x, *fa, ids, x.len() as int, frac as int));
    }
    b.collapse()
}


/// Every row of a row-major pattern matrix as points.
fn xpos_rows(x: &[u16], rows: usize, cols: usize, f: &Fiber) -> (r: Vec<XPos>)
    requires
        f.wf(),
        f.bits == 16,
        x.len() == rows * cols,
        forall|i: int| 0 <= i < x.len() ==> finite(#[trigger] x[i]),
    ensures
        r.len() == rows,
        forall|s: int| 0 <= s < rows ==> (#[trigger] r[s]).reads(row(x@, s, cols as int)),
{
    let mut out: Vec<XPos> = Vec::new();
    let mut s: usize = 0;
    while s < rows
        invariant
            f.wf(),
            f.bits == 16,
            0 <= s <= rows,
            x.len() == rows * cols,
            forall|i: int| 0 <= i < x.len() ==> finite(#[trigger] x[i]),
            out.len() == s,
            forall|t: int| 0 <= t < s ==> (#[trigger] out[t]).reads(row(x@, t, cols as int)),
        decreases rows - s,
    {
        proof {
            crate::matmul::lemma_row_bounds(s as int, rows as int, cols as int);
        }
        let xr = XPos::new(&x[s * cols..(s + 1) * cols], f);
        out.push(xr);
        s += 1;
    }
    out
}

/// `y = x · Wᵀ` over the grid, walking positions: activations `x` [seq, in_f] against the
/// tiled weight grid `w` read through the dictionary's points `fa`.
pub fn matmul_positions(x: &[u16], seq: usize, in_f: usize, w: &Grid, fa: &FiberAtoms) -> (y: Vec<u16>)
    requires
        x.len() == seq * in_f,
        w.cols == in_f,
        w.wf(),
        fa.wf(),
        seq * w.rows <= usize::MAX,
        -0x1000_0000 < w.rmin < 0x1000_0000,
        forall|i: int| 0 <= i < x.len() ==> finite(#[trigger] x[i]),
        forall|s: int, o: int|
            0 <= s < seq && 0 <= o < w.rows ==> pcell_ok(
                #[trigger] row(x@, s, in_f as int),
                *fa,
                #[trigger] grid_ids(*w, o),
                ACT_FLOOR - w.rmin,
            ),
    ensures
        y.len() == seq * w.rows,
        forall|s: int, o: int|
            0 <= s < seq && 0 <= o < w.rows ==> y[s * w.rows + o] == pcell_out(
                #[trigger] row(x@, s, in_f as int),
                *fa,
                #[trigger] grid_ids(*w, o),
                ACT_FLOOR - w.rmin,
            ),
{
    let out_f = w.rows;
    let frac = frac_for(w.rmin);
    let f = Fiber::new(16);
    let rows = xpos_rows(x, seq, in_f, &f);
    let mut y: Vec<u16> = Vec::new();
    let mut s: usize = 0;
    while s < seq
        invariant
            0 <= s <= seq,
            out_f == w.rows,
            rows.len() == seq,
            x.len() == seq * in_f,
            w.cols == in_f,
            w.wf(),
            fa.wf(),
            seq * out_f <= usize::MAX,
            frac == ACT_FLOOR - w.rmin,
            -0x2000_0000 < frac < 0x2000_0000,
            forall|t: int| 0 <= t < seq ==> (#[trigger] rows[t]).reads(row(x@, t, in_f as int)),
            forall|s2: int, o: int|
                0 <= s2 < seq && 0 <= o < out_f ==> pcell_ok(
                    #[trigger] row(x@, s2, in_f as int),
                    *fa,
                    #[trigger] grid_ids(*w, o),
                    frac as int,
                ),
            y.len() == s * out_f,
            forall|s2: int, o: int|
                0 <= s2 < s && 0 <= o < out_f ==> y[s2 * out_f + o] == pcell_out(
                    #[trigger] row(x@, s2, in_f as int),
                    *fa,
                    #[trigger] grid_ids(*w, o),
                    frac as int,
                ),
        decreases seq - s,
    {
        proof {
            crate::matmul::lemma_row_bounds(s as int, seq as int, out_f as int);
            crate::matmul::lemma_row_bounds(s as int, seq as int, in_f as int);
        }
        let mut o: usize = 0;
        while o < out_f
            invariant
                0 <= s < seq,
                0 <= o <= out_f,
                out_f == w.rows,
                rows.len() == seq,
                x.len() == seq * in_f,
                w.cols == in_f,
                w.wf(),
                fa.wf(),
                seq * out_f <= usize::MAX,
                (s + 1) * out_f <= seq * out_f,
                s * out_f + out_f == (s + 1) * out_f,
                0 <= s * in_f,
                (s + 1) * in_f <= seq * in_f,
                s * in_f + in_f == (s + 1) * in_f,
                -0x2000_0000 < frac < 0x2000_0000,
                forall|t: int| 0 <= t < seq ==> (#[trigger] rows[t]).reads(row(x@, t, in_f as int)),
                forall|s2: int, o2: int|
                    0 <= s2 < seq && 0 <= o2 < out_f ==> pcell_ok(
                        #[trigger] row(x@, s2, in_f as int),
                        *fa,
                        #[trigger] grid_ids(*w, o2),
                        frac as int,
                    ),
                y.len() == s * out_f + o,
                forall|s2: int, o2: int|
                    0 <= s2 < s && 0 <= o2 < out_f ==> y[s2 * out_f + o2] == pcell_out(
                        #[trigger] row(x@, s2, in_f as int),
                        *fa,
                        #[trigger] grid_ids(*w, o2),
                        frac as int,
                    ),
                forall|o2: int|
                    0 <= o2 < o ==> y[s * out_f + o2] == pcell_out(
                        row(x@, s as int, in_f as int),
                        *fa,
                        #[trigger] grid_ids(*w, o2),
                        frac as int,
                    ),
            decreases out_f - o,
        {
            proof {
                assert(row(x@, s as int, in_f as int).len() == in_f);
            }
            let v = pos_cell(&rows[s], w, fa, o, frac, Ghost(row(x@, s as int, in_f as int)));
            let ghost y0 = y@;
            y.push(v);
            proof {
                assert forall|s2: int, o2: int|
                    0 <= s2 < s && 0 <= o2 < out_f implies y[s2 * out_f + o2] == pcell_out(
                        #[trigger] row(x@, s2, in_f as int),
                        *fa,
                        #[trigger] grid_ids(*w, o2),
                        frac as int,
                    ) by {
                    crate::matmul::lemma_flat_index(s2, o2, s as int, out_f as int);
                    assert(y[s2 * out_f + o2] == y0[s2 * out_f + o2]);
                }
            }
            o += 1;
        }
        proof {
            assert forall|s2: int, o2: int|
                0 <= s2 < s + 1 && 0 <= o2 < out_f implies y[s2 * out_f + o2] == pcell_out(
                    #[trigger] row(x@, s2, in_f as int),
                    *fa,
                    #[trigger] grid_ids(*w, o2),
                    frac as int,
                ) by {
                if s2 < s {
                } else {
                    assert(s2 == s);
                }
            }
        }
        s += 1;
    }
    y
}
} // verus!
