//! The card's readback: each cell comes back as two 288-bit sums in nine 32-bit limbs, one of
//! the positive terms and one of the negative; the cell is their difference, refused where it
//! leaves 256 bits, then collapsed once to bf16. Before that the host packs the atoms for the card
//! and cuts each grid's cells into dispatches.

use vstd::prelude::*;

use crate::lanes::{in_lane, lemma_wrap_in_lane, lemma_wrap_unique, p128, p255, p256, wrap256};
use crate::matmul::{collapse_fits, collapse_spec, Bucket, Wide};

verus! {

/// 2^32.
pub open spec fn p32() -> int {
    0x1_0000_0000int
}

/// The value of the first k limbs, least significant first.
pub open spec fn limbs_val(l: Seq<u32>, k: int) -> int
    decreases k,
{
    if k <= 0 {
        0
    } else {
        limbs_val(l, k - 1) + l[k - 1] * pow32(k - 1)
    }
}

/// 2^(32·k).
pub open spec fn pow32(k: int) -> int
    decreases k,
{
    if k <= 0 { 1 } else { p32() * pow32(k - 1) }
}

/// The cell a readback holds: the positive sum less the negative one.
pub open spec fn readback_val(p: Seq<u32>, n: Seq<u32>) -> int {
    limbs_val(p, 9) - limbs_val(n, 9)
}

proof fn lemma_pow32_values()
    ensures
        pow32(0) == 1,
        pow32(4) == p128(),
        pow32(8) == p256(),
        pow32(9) == p256() * p32(),
{
    reveal_with_fuel(pow32, 10);
}

proof fn lemma_limbs_bound(l: Seq<u32>, k: int)
    requires
        0 <= k <= l.len(),
    ensures
        0 <= limbs_val(l, k) < pow32(k),
    decreases k,
{
    if k > 0 {
        lemma_limbs_bound(l, k - 1);
        let a = limbs_val(l, k - 1);
        let b = pow32(k - 1);
        assert(0 <= a + l[k - 1] * b < p32() * b) by (nonlinear_arith)
            requires 0 <= a < b, 0 <= l[k - 1] < p32();
    }
}

/// The cell's difference, refused (`None`) where it leaves [−2^256, 2^256); else collapsed to
/// bf16 as the 256-bit lane holds it (the exact difference whenever that fits the lane).
pub fn collapse_limbs(p: &[u32], n: &[u32], sticky: bool, frac: i32) -> (r: Option<u16>)
    requires
        p.len() == 9,
        n.len() == 9,
        -p256() <= readback_val(p@, n@) < p256() ==> collapse_fits(wrap256(readback_val(p@, n@)), sticky, frac as int),
    ensures
        r is None <==> !(-p256() <= readback_val(p@, n@) < p256()),
        r matches Some(y) ==> y == collapse_spec(wrap256(readback_val(p@, n@)), sticky, frac as int),
        r matches Some(y) ==> (in_lane(readback_val(p@, n@)) ==> y == collapse_spec(readback_val(p@, n@), sticky, frac as int)),
{
    let mut d: Vec<u32> = Vec::new();
    let mut borrow: u64 = 0;
    let mut i: usize = 0;
    proof {
        reveal_with_fuel(pow32, 2);
    }
    while i < 9
        invariant
            i <= 9,
            p.len() == 9,
            n.len() == 9,
            d.len() == i,
            borrow <= 1,
            limbs_val(d@, i as int) - borrow * pow32(i as int) == limbs_val(p@, i as int) - limbs_val(n@, i as int),
        decreases 9 - i,
    {
        let v = p[i] as u64;
        let w = n[i] as u64 + borrow;
        let ghost b0 = borrow;
        let ghost dv = d@;
        if v >= w {
            d.push((v - w) as u32);
            borrow = 0;
        } else {
            d.push((v + 0x1_0000_0000 - w) as u32);
            borrow = 1;
        }
        proof {
            let k = i as int;
            let pk = pow32(k);
            assert(pow32(k + 1) == p32() * pk);
            assert(d@.subrange(0, k) =~= dv);
            assert(dv.subrange(0, k) =~= dv);
            assert(limbs_val(d@, k) == limbs_val(dv, k)) by {
                lemma_limbs_prefix(d@, dv, k);
            }
            assert(limbs_val(d@, k + 1) == limbs_val(d@, k) + d@[k] * pk);
            assert(d@[k] as int == v - w + borrow * p32());
            assert(limbs_val(d@, k + 1) - borrow * pow32(k + 1) == limbs_val(p@, k + 1) - limbs_val(n@, k + 1)) by (nonlinear_arith)
                requires
                    limbs_val(d@, k + 1) == limbs_val(dv, k) + d@[k] * pk,
                    d@[k] as int == v - w + borrow * p32(),
                    w == n@[k] + b0,
                    v == p@[k],
                    limbs_val(dv, k) - b0 * pk == limbs_val(p@, k) - limbs_val(n@, k),
                    limbs_val(p@, k + 1) == limbs_val(p@, k) + p@[k] * pk,
                    limbs_val(n@, k + 1) == limbs_val(n@, k) + n@[k] * pk,
                    pow32(k + 1) == p32() * pk,
            ;
        }
        i += 1;
    }
    let ghost dval = readback_val(p@, n@);
    proof {
        lemma_pow32_values();
        lemma_limbs_bound(d@, 8);
        assert(limbs_val(d@, 9) == limbs_val(d@, 8) + d@[8] * pow32(8));
        assert(limbs_val(d@, 9) - borrow * pow32(9) == dval);
    }
    let negative = borrow == 1;
    let top: u32 = if negative { 0xFFFF_FFFF } else { 0 };
    if d[8] != top {
        proof {
            let low = limbs_val(d@, 8);
            assert(!(-p256() <= dval < p256())) by (nonlinear_arith)
                requires
                    dval == low + d@[8] * p256() - borrow * (p256() * p32()),
                    0 <= low < p256(),
                    d@[8] != top,
                    top == if borrow == 1 { 0xFFFF_FFFFint } else { 0int },
                    borrow <= 1,
                    0 <= d@[8] < p32(),
                    p32() == 0x1_0000_0000int,
                    p256() > 0,
            ;
        }
        return None;
    }
    let lo: u128 = d[0] as u128 + (d[1] as u128) * 0x1_0000_0000 + (d[2] as u128) * 0x1_0000_0000_0000_0000
        + (d[3] as u128) * 0x1_0000_0000_0000_0000_0000_0000;
    let hu: u128 = d[4] as u128 + (d[5] as u128) * 0x1_0000_0000 + (d[6] as u128) * 0x1_0000_0000_0000_0000
        + (d[7] as u128) * 0x1_0000_0000_0000_0000_0000_0000;
    let hi: i128 = if hu < 0x8000_0000_0000_0000_0000_0000_0000_0000u128 {
        hu as i128
    } else {
        ((hu - 0x8000_0000_0000_0000_0000_0000_0000_0000u128) as i128) + i128::MIN
    };
    let acc = Wide { hi, lo };
    proof {
        let low = limbs_val(d@, 8);
        reveal_with_fuel(limbs_val, 9);
        reveal_with_fuel(pow32, 9);
        assert(pow32(1) == 0x1_0000_0000int);
        assert(pow32(2) == 0x1_0000_0000_0000_0000int);
        assert(pow32(3) == 0x1_0000_0000_0000_0000_0000_0000int);
        assert(pow32(4) == 0x1_0000_0000_0000_0000_0000_0000_0000_0000int);
        assert(pow32(5) == 0x1_0000_0000_0000_0000_0000_0000_0000_0000_0000_0000int);
        assert(pow32(6) == 0x1_0000_0000_0000_0000_0000_0000_0000_0000_0000_0000_0000_0000int);
        assert(pow32(7) == 0x1_0000_0000_0000_0000_0000_0000_0000_0000_0000_0000_0000_0000_0000_0000int);
        assert(limbs_val(d@, 0) == 0);
        assert(limbs_val(d@, 1) == limbs_val(d@, 0) + d@[0] * pow32(0));
        assert(limbs_val(d@, 2) == limbs_val(d@, 1) + d@[1] * pow32(1));
        assert(limbs_val(d@, 3) == limbs_val(d@, 2) + d@[2] * pow32(2));
        assert(limbs_val(d@, 4) == limbs_val(d@, 3) + d@[3] * pow32(3));
        assert(limbs_val(d@, 5) == limbs_val(d@, 4) + d@[4] * pow32(4));
        assert(limbs_val(d@, 6) == limbs_val(d@, 5) + d@[5] * pow32(5));
        assert(limbs_val(d@, 7) == limbs_val(d@, 6) + d@[6] * pow32(6));
        assert(limbs_val(d@, 8) == limbs_val(d@, 7) + d@[7] * pow32(7));
        assert(lo as int == d@[0] + d@[1] * 0x1_0000_0000int + d@[2] * 0x1_0000_0000_0000_0000int + d@[3]
            * 0x1_0000_0000_0000_0000_0000_0000int);
        assert(hu as int == d@[4] + d@[5] * 0x1_0000_0000int + d@[6] * 0x1_0000_0000_0000_0000int + d@[7]
            * 0x1_0000_0000_0000_0000_0000_0000int);
        assert(p128() == 0x1_0000_0000_0000_0000_0000_0000_0000_0000int);
        assert(low == lo + hu * p128()) by (nonlinear_arith)
            requires
                low == d@[0] * 1 + d@[1] * 0x1_0000_0000int + d@[2] * 0x1_0000_0000_0000_0000int + d@[3] * 0x1_0000_0000_0000_0000_0000_0000int
                    + d@[4] * 0x1_0000_0000_0000_0000_0000_0000_0000_0000int + d@[5] * 0x1_0000_0000_0000_0000_0000_0000_0000_0000_0000_0000int
                    + d@[6] * 0x1_0000_0000_0000_0000_0000_0000_0000_0000_0000_0000_0000_0000int + d@[7]
                    * 0x1_0000_0000_0000_0000_0000_0000_0000_0000_0000_0000_0000_0000_0000_0000int,
                lo as int == d@[0] + d@[1] * 0x1_0000_0000int + d@[2] * 0x1_0000_0000_0000_0000int + d@[3]
                    * 0x1_0000_0000_0000_0000_0000_0000int,
                hu as int == d@[4] + d@[5] * 0x1_0000_0000int + d@[6] * 0x1_0000_0000_0000_0000int + d@[7]
                    * 0x1_0000_0000_0000_0000_0000_0000int,
                p128() == 0x1_0000_0000_0000_0000_0000_0000_0000_0000int,
        ;
        assert(dval == low + d@[8] * p256() - borrow * (p256() * p32()));
        assert(-p256() <= dval < p256()) by (nonlinear_arith)
            requires
                dval == low + d@[8] * p256() - borrow * (p256() * p32()),
                0 <= low < p256(),
                d@[8] == top,
                top == if borrow == 1 { 0xFFFF_FFFFint } else { 0int },
                borrow <= 1,
                p32() == 0x1_0000_0000int,
        ;
        // the Wide holds the low 256 bits as two's complement: dval wrapped
        let hv = hi as int;
        assert(hv == if hu < 0x8000_0000_0000_0000_0000_0000_0000_0000u128 { hu as int } else { hu as int - p128() });
        assert(acc.val() == hv * p128() + lo);
        crate::lanes::lemma_pair_range(hi, lo);
        let k: int = if hu < 0x8000_0000_0000_0000_0000_0000_0000_0000u128 { 0 } else { -1 };
        assert(acc.val() == low + k * p256()) by (nonlinear_arith)
            requires
                acc.val() == hv * p128() + lo,
                hv == hu as int + k * p128(),
                low == lo + hu * p128(),
                p256() == p128() * p128(),
        ;
        let kk: int = k + if borrow == 1 { 1int } else { 0int };
        assert(acc.val() == dval + kk * p256()) by (nonlinear_arith)
            requires
                acc.val() == low + k * p256(),
                dval == low + d@[8] * p256() - borrow * (p256() * p32()),
                d@[8] == top,
                top == if borrow == 1 { 0xFFFF_FFFFint } else { 0int },
                kk == k + if borrow == 1 { 1int } else { 0int },
                p32() == 0x1_0000_0000int,
                borrow <= 1,
        ;
        lemma_wrap_unique(acc.val(), dval, kk);
        if in_lane(dval) {
            lemma_wrap_in_lane(dval);
        }
    }
    let b = Bucket { acc, sticky, frac };
    Some(b.collapse())
}

proof fn lemma_limbs_prefix(a: Seq<u32>, b: Seq<u32>, k: int)
    requires
        0 <= k <= a.len(),
        k <= b.len(),
        a.subrange(0, k) == b.subrange(0, k),
    ensures
        limbs_val(a, k) == limbs_val(b, k),
    decreases k,
{
    if k > 0 {
        assert(a[k - 1] == a.subrange(0, k)[k - 1]);
        assert(b[k - 1] == b.subrange(0, k)[k - 1]);
        assert(a.subrange(0, k - 1) =~= a.subrange(0, k).subrange(0, k - 1));
        assert(b.subrange(0, k - 1) =~= b.subrange(0, k).subrange(0, k - 1));
        lemma_limbs_prefix(a, b, k - 1);
    }
}


/// An atom as the card reads it: its sheet in the top bit, m in bits 16..24 and n + 32768 in the
/// low 16 bits.
pub fn pack_atom(sheet: u8, m: u8, n: i16) -> (r: u32)
    ensures
        r == (sheet % 2) as int * 0x8000_0000 + m as int * 0x1_0000 + (n + 32768),
{
    let s = (sheet as u32) << 31u32;
    let mm = (m as u32) << 16u32;
    let nn = ((n as i32 + 32768) as u32) & 0xFFFF;
    let r = s | mm | nn;
    proof {
        let sh = sheet as u32;
        let m32 = m as u32;
        let nb = (n as i32 + 32768) as u32;
        assert(0 <= n + 32768 < 65536);
        assert(nb == n + 32768);
        assert(nn == nb) by (bit_vector)
            requires nn == nb & 0xFFFF, nb < 65536;
        assert(r == (sh % 2) * 0x8000_0000 + m32 * 0x1_0000 + nb) by (bit_vector)
            requires
                r == ((sh << 31u32) | (m32 << 16u32)) | nn,
                nn == nb,
                nb < 65536,
                m32 < 256,
                sh < 256,
        ;
    }
    r
}

/// Cells per card dispatch: 65535 workgroups of 64.
pub const CHUNK: usize = 4_194_240;

/// The dispatches of one grid of n cells from cell c0 on: consecutive ranges of at most `chunk`
/// cells, each (grid, first cell, cells).
pub open spec fn chunks_from(g: int, n: int, chunk: int, c0: int) -> Seq<(int, int, int)>
    decreases n - c0,
{
    if chunk <= 0 || c0 >= n {
        seq![]
    } else {
        let k = if n - c0 < chunk { n - c0 } else { chunk };
        seq![(g, c0, k)] + chunks_from(g, n, chunk, c0 + k)
    }
}

/// The dispatches of the first g grids, grid after grid.
pub open spec fn jobs_upto(cells: Seq<usize>, chunk: int, g: int) -> Seq<(int, int, int)>
    decreases g,
{
    if g <= 0 {
        seq![]
    } else {
        jobs_upto(cells, chunk, g - 1) + chunks_from(g - 1, cells[g - 1] as int, chunk, 0)
    }
}

/// The card's work for several grids over one activation: each grid's cells cut into ranges of
/// at most `chunk`, as (grid, first cell, cells, slot), the slot being the job's place in the list.
pub fn card_jobs(cells: &[usize], chunk: usize) -> (jobs: Vec<(usize, usize, usize, usize)>)
    requires
        chunk > 0,
    ensures
        jobs.len() == jobs_upto(cells@, chunk as int, cells.len() as int).len(),
        forall|i: int|
            0 <= i < jobs.len() ==> ((#[trigger] jobs[i]).0 as int, jobs[i].1 as int, jobs[i].2 as int)
                == jobs_upto(cells@, chunk as int, cells.len() as int)[i] && jobs[i].3 == i,
{
    let mut jobs: Vec<(usize, usize, usize, usize)> = Vec::new();
    let mut g: usize = 0;
    while g < cells.len()
        invariant
            0 <= g <= cells.len(),
            chunk > 0,
            jobs.len() == jobs_upto(cells@, chunk as int, g as int).len(),
            forall|i: int|
                0 <= i < jobs.len() ==> ((#[trigger] jobs[i]).0 as int, jobs[i].1 as int, jobs[i].2 as int)
                    == jobs_upto(cells@, chunk as int, g as int)[i] && jobs[i].3 == i,
        decreases cells.len() - g,
    {
        let n = cells[g];
        let ghost prev = jobs_upto(cells@, chunk as int, g as int);
        let ghost all = chunks_from(g as int, n as int, chunk as int, 0);
        let ghost mut done = prev;
        let mut c0: usize = 0;
        while c0 < n
            invariant
                0 <= c0 <= n,
                g < cells.len(),
                n == cells[g as int],
                chunk > 0,
                done.len() == jobs.len(),
                forall|i: int|
                    0 <= i < jobs.len() ==> ((#[trigger] jobs[i]).0 as int, jobs[i].1 as int, jobs[i].2 as int)
                        == done[i] && jobs[i].3 == i,
                prev + all == done + chunks_from(g as int, n as int, chunk as int, c0 as int),
            decreases n - c0,
        {
            let k = if n - c0 < chunk { n - c0 } else { chunk };
            let slot = jobs.len();
            jobs.push((g, c0, k, slot));
            proof {
                let rest = chunks_from(g as int, n as int, chunk as int, (c0 + k) as int);
                assert(chunks_from(g as int, n as int, chunk as int, c0 as int) == seq![(g as int, c0 as int, k as int)] + rest);
                assert(done + (seq![(g as int, c0 as int, k as int)] + rest) =~= done.push((g as int, c0 as int, k as int)) + rest);
                done = done.push((g as int, c0 as int, k as int));
            }
            c0 = c0 + k;
        }
        proof {
            assert(chunks_from(g as int, n as int, chunk as int, c0 as int) =~= Seq::<(int, int, int)>::empty());
            assert(done + Seq::<(int, int, int)>::empty() =~= done);
            assert(jobs_upto(cells@, chunk as int, g + 1) == prev + all);
        }
        g += 1;
    }
    jobs
}
} // verus!
