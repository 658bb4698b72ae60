//! The fold as a cube with rung bands: a tile of 128 lines holds, per band (rung, top down),
//! per line, a record `u16 n; n × (u8 lane, u8 count); Σcount × u16 column`.
//!
//! Walking a tile's bands from the top rung down is the carriage: every (line, lane)
//! accumulator doubles once per band (lazily, by the gap since it was last touched) and adds
//! the band's column sums. After the last band the odd chain per (line, plane) is the gather.
//! The band index is the rung, the lane byte is (sign, odd).

use vstd::arithmetic::power2::*;
use vstd::prelude::*;

use crate::fold::{lemma_odd_weighted_wrap, lemma_reads_vals, odd_chain, odd_weighted, planes_of, prefix_vals, prefixable, vals, Plane};
use crate::lanes::{lemma_wrap_add, lemma_wrap_add_right, lemma_wrap_small, lemma_wrap_sub, wrap256};
use crate::matmul::{collapse_fits, collapse_spec, frac_for, row, row_sticky, Bucket, Wide, ACT_FLOOR};

verus! {

/// Lines per tile.
pub const LINE_TILE: usize = 128;

/// Planes carried per band walk of a tile.
pub const CUB_PLANES: usize = 8;

/// (line, lane) accumulators per plane in one tile walk: 128 lines × 256 lanes.
const TILE_LANES: usize = 32768;

// ── reading the records ──────────────────────────────────────────────────────

/// The little-endian u16 at byte p.
pub open spec fn le16(k: Seq<u8>, p: int) -> int {
    k[p] as int + 256 * (k[p + 1] as int)
}

/// The little-endian unsigned integer of the w bytes at p.
pub open spec fn le_bytes(k: Seq<u8>, p: int, w: nat) -> int
    decreases w,
{
    if w == 0 {
        0
    } else {
        k[p] as int + 256 * le_bytes(k, p + 1, (w - 1) as nat)
    }
}

/// The count bytes of the first i (lane, count) pairs of an entry list starting at q.
pub open spec fn ent_total(k: Seq<u8>, q: int, i: int) -> int
    decreases i,
{
    if i <= 0 {
        0
    } else {
        ent_total(k, q, i - 1) + k[q + 2 * (i - 1) + 1] as int
    }
}

/// The byte length of the line record at p: its entry count, its pairs, its columns.
pub open spec fn rec_len(k: Seq<u8>, p: int) -> int {
    2 + 2 * le16(k, p) + 2 * ent_total(k, p + 2, le16(k, p))
}

/// Where record r of a tile block starts (records run band-major, LINE_TILE per band).
pub open spec fn rec_at(k: Seq<u8>, r: int) -> int
    decreases r,
{
    if r <= 0 {
        0
    } else {
        rec_at(k, r - 1) + rec_len(k, rec_at(k, r - 1))
    }
}

/// Column j (counted over the whole record) of the record at p.
pub open spec fn rec_col(k: Seq<u8>, p: int, j: int) -> int {
    le16(k, p + 2 + 2 * le16(k, p) + 2 * j)
}

/// Σ of the plane over the record's columns j in [s, e).
pub open spec fn col_sum(k: Seq<u8>, p: int, v: Seq<i128>, s: int, e: int) -> int
    decreases e - s,
{
    if e <= s {
        0
    } else {
        col_sum(k, p, v, s, e - 1) + v[rec_col(k, p, e - 1)] as int
    }
}

/// Σ of the column sums of the record's first i entries that sit in lane l.
pub open spec fn ent_lane(k: Seq<u8>, p: int, v: Seq<i128>, l: int, i: int) -> int
    decreases i,
{
    if i <= 0 {
        0
    } else {
        ent_lane(k, p, v, l, i - 1) + if k[p + 2 + 2 * (i - 1)] as int == l {
            col_sum(k, p, v, ent_total(k, p + 2, i - 1), ent_total(k, p + 2, i))
        } else {
            0
        }
    }
}

/// Lane l of record r: the column sums of its entries in that lane.
pub open spec fn rec_lane(k: Seq<u8>, r: int, v: Seq<i128>, l: int) -> int {
    ent_lane(k, rec_at(k, r), v, l, le16(k, rec_at(k, r)))
}

/// Lane l of a line over the first nb bands, band b weighted 2^(top − b).
pub open spec fn lane_bands(k: Seq<u8>, v: Seq<i128>, line: int, l: int, nb: int, top: int) -> int
    decreases nb,
{
    if nb <= 0 {
        0
    } else {
        lane_bands(k, v, line, l, nb - 1, top) + pow2((top - (nb - 1)) as nat) * rec_lane(
            k,
            (nb - 1) * 128 + line,
            v,
            l,
        )
    }
}

/// The 128 lanes of one sign of a line, every band landed at the lowest rung.
pub open spec fn cub_lanes(k: Seq<u8>, v: Seq<i128>, bands: int, line: int, sign: int) -> Seq<int> {
    Seq::new(128, |j: int| lane_bands(k, v, line, sign * 128 + j, bands, bands - 1))
}

/// The exact integer a line of a tile block holds against a plane: Σ_j (2j + 1)·(P_j − N_j)
/// over the positive and negative lanes, at scale 2^(ACT_FLOOR − rmin).
pub open spec fn cub_dot(k: Seq<u8>, v: Seq<i128>, bands: int, line: int) -> int {
    odd_weighted(cub_lanes(k, v, bands, line, 0), 0) - odd_weighted(cub_lanes(k, v, bands, line, 1), 0)
}

/// The pattern a line of a tile block collapses to against a plane: the exact value, rounded
/// once.
pub open spec fn cub_cell(k: Seq<u8>, v: Seq<i128>, sticky: bool, bands: int, line: int, rmin: int) -> int {
    collapse_spec(cub_dot(k, v, bands, line), sticky, ACT_FLOOR - rmin)
}

/// A tile block holds `bands` × LINE_TILE records, and every column is below `in_f`.
pub open spec fn block_ok(k: Seq<u8>, bands: int, in_f: int) -> bool {
    &&& rec_at(k, bands * 128) <= k.len()
    &&& forall|r: int, j: int|
        0 <= r < bands * 128 && 0 <= j < ent_total(k, rec_at(k, r) + 2, le16(k, rec_at(k, r))) ==> #[trigger] rec_col(
            k,
            rec_at(k, r),
            j,
        ) < in_f
}

/// Every running column sum of every entry of the block fits an i128.
pub open spec fn block_sums_fit(k: Seq<u8>, bands: int, v: Seq<i128>) -> bool {
    forall|r: int, i: int, e: int|
        0 <= r < bands * 128 && 0 <= i < le16(k, rec_at(k, r)) && ent_total(k, rec_at(k, r) + 2, i) <= e
            <= ent_total(k, rec_at(k, r) + 2, i + 1) ==> i128::MIN <= #[trigger] col_sum(
            k,
            rec_at(k, r),
            v,
            ent_total(k, rec_at(k, r) + 2, i),
            e,
        ) <= i128::MAX
}

proof fn lemma_ent_total_mono(k: Seq<u8>, q: int, i: int, j: int)
    requires
        0 <= i <= j,
    ensures
        0 <= ent_total(k, q, i) <= ent_total(k, q, j),
    decreases j,
{
    if j > i {
        lemma_ent_total_mono(k, q, i, j - 1);
    } else if i > 0 {
        lemma_ent_total_mono(k, q, 0, i - 1);
        lemma_ent_total_mono(k, q, i - 1, i - 1);
    }
}

proof fn lemma_rec_mono(k: Seq<u8>, r1: int, r2: int)
    requires
        0 <= r1 <= r2,
    ensures
        0 <= rec_at(k, r1) <= rec_at(k, r2),
    decreases r2,
{
    if r2 > r1 {
        lemma_rec_mono(k, r1, r2 - 1);
        let p = rec_at(k, r2 - 1);
        lemma_ent_total_mono(k, p + 2, 0, le16(k, p));
    } else if r1 > 0 {
        lemma_rec_mono(k, 0, r1 - 1);
        let p = rec_at(k, r1 - 1);
        lemma_ent_total_mono(k, p + 2, 0, le16(k, p));
    }
}

/// Raising the top rung by one doubles every band's weight.
proof fn lemma_lane_bands_double(k: Seq<u8>, v: Seq<i128>, line: int, l: int, nb: int, top: int)
    requires
        0 <= nb <= top + 1,
    ensures
        lane_bands(k, v, line, l, nb, top + 1) == 2 * lane_bands(k, v, line, l, nb, top),
    decreases nb,
{
    if nb > 0 {
        lemma_lane_bands_double(k, v, line, l, nb - 1, top);
        let e = (top - (nb - 1)) as nat;
        lemma_pow2_unfold(e + 1);
        assert((top + 1 - (nb - 1)) as nat == e + 1);
        let x = rec_lane(k, (nb - 1) * 128 + line, v, l);
        assert(pow2(e + 1) * x == 2 * (pow2(e) * x)) by (nonlinear_arith)
            requires pow2(e + 1) == 2 * pow2(e);
    }
}

/// The little-endian u16 at byte p.
fn read_u16(data: &[u8], p: usize) -> (r: u16)
    requires
        p + 2 <= data.len(),
    ensures
        r == le16(data@, p as int),
{
    data[p] as u16 + 256 * data[p + 1] as u16
}

/// The little-endian u64 at byte p.
fn read_u64(data: &[u8], p: usize) -> (r: u64)
    requires
        p + 8 <= data.len(),
    ensures
        r == le_bytes(data@, p as int, 8),
{
    let mut v: u64 = 0;
    let mut w: usize = 8;
    proof {
        reveal_with_fuel(le_bytes, 9);
        lemma2_to64();
    }
    while w > 0
        invariant
            0 <= w <= 8,
            p + 8 <= data.len(),
            v == le_bytes(data@, p + w, (8 - w) as nat),
            v < pow2(8 * (8 - w) as nat),
        decreases w,
    {
        w -= 1;
        proof {
            let e0 = (8 * (8 - w - 1)) as nat;
            lemma_pow2_adds(e0, 8);
            lemma2_to64();
            lemma2_to64_rest();
            assert(pow2(e0 + 8) == pow2(e0) * 256);
            if e0 + 8 < 64 {
                lemma_pow2_strictly_increases(e0 + 8, 64);
            }
            assert(v * 256 + 255 < pow2(e0 + 8)) by (nonlinear_arith)
                requires
                    v < pow2(e0),
                    pow2(e0 + 8) == pow2(e0) * 256;
            assert((8 * (8 - w)) as nat == e0 + 8);
        }
        v = data[p + w] as u64 + 256 * v;
    }
    v
}


// ── the band walk ────────────────────────────────────────────────────────────

/// What the accumulator of (line ln, lane l) stands for while band b is walked: the bands
/// below b in full (band b too for lines before `line`), and the first i entries of the
/// current record when it is ln's, every band weighted 2^(b − band).
spec fn walk_target(k: Seq<u8>, v: Seq<i128>, ln: int, l: int, b: int, line: int, pos: int, i: int) -> int {
    lane_bands(k, v, ln, l, if ln < line { b + 1 } else { b }, b) + if ln == line {
        ent_lane(k, pos, v, l, i)
    } else {
        0
    }
}

/// The band an accumulator was last landed at (0 before it is touched).
spec fn eff(touched: Seq<bool>, last: Seq<u8>, x: int) -> int {
    if touched[x] {
        last[x] as int
    } else {
        0
    }
}

/// The accumulators, shifted up to band b, hold their targets modulo 2^256; an untouched one
/// holds 0.
spec fn walk_inv(acc: Seq<Wide>, touched: Seq<bool>, last: Seq<u8>, k: Seq<u8>, planes: Seq<Plane>, b: int, line: int, pos: int, i: int) -> bool {
    &&& acc.len() == planes.len() * 32768
    &&& touched.len() == 32768
    &&& last.len() == 32768
    &&& forall|x: int| 0 <= x < 32768 && #[trigger] touched[x] ==> last[x] <= b
    &&& forall|p: int, x: int|
        0 <= p < planes.len() && 0 <= x < 32768 && !touched[x] ==> (#[trigger] acc[p * 32768 + x]).val() == 0
    &&& forall|p: int, x: int|
        0 <= p < planes.len() && 0 <= x < 32768 ==> wrap256(
            (#[trigger] acc[p * 32768 + x]).val() * pow2((b - eff(touched, last, x)) as nat),
        ) == wrap256(walk_target(k, planes[p].v@, x / 256, x % 256, b, line, pos, i))
}

/// The planes a tile walk carries: every plane covers the columns and its sums fit.
spec fn planes_fit(k: Seq<u8>, planes: Seq<Plane>, bands: int, in_f: int) -> bool {
    &&& 1 <= planes.len() <= 8
    &&& forall|p: int| 0 <= p < planes.len() ==> (#[trigger] planes[p]).v.len() == in_f
    &&& forall|p: int| 0 <= p < planes.len() ==> block_sums_fit(k, bands, (#[trigger] planes[p]).v@)
}

proof fn lemma_idx(line: int, lane: int)
    requires
        0 <= line < 128,
        0 <= lane < 256,
    ensures
        (line * 256 + lane) / 256 == line,
        (line * 256 + lane) % 256 == lane,
        0 <= line * 256 + lane < 32768,
{
    vstd::arithmetic::div_mod::lemma_fundamental_div_mod_converse(line * 256 + lane, 256, line, lane);
}

proof fn lemma_idx_split(x: int)
    requires
        0 <= x < 32768,
    ensures
        0 <= x / 256 < 128,
        0 <= x % 256 < 256,
        x == (x / 256) * 256 + x % 256,
{
    vstd::arithmetic::div_mod::lemma_fundamental_div_mod(x, 256);
    vstd::arithmetic::div_mod::lemma_mod_pos_bound(x, 256);
    vstd::arithmetic::div_mod::lemma_div_pos_is_pos(x, 256);
    vstd::arithmetic::div_mod::lemma_div_is_ordered(x, 32767, 256);
    assert(32767int / 256 == 127);
}

/// One accumulator step: shift the old value up by the gap, add the entry's sum.
proof fn lemma_bump(a0: int, gap: nat, s: int, t: int, touched: bool)
    requires
        -0x8000_0000_0000_0000_0000_0000_0000_0000_0000_0000_0000_0000_0000_0000_0000_0000int <= a0
            < 0x8000_0000_0000_0000_0000_0000_0000_0000_0000_0000_0000_0000_0000_0000_0000_0000int,
        wrap256(a0 * pow2(gap)) == wrap256(t),
        !touched ==> a0 == 0,
    ensures
        wrap256(wrap256(a0 * pow2(gap)) + s) == wrap256(t + s),
{
    lemma_wrap_add(a0 * pow2(gap), s);
    lemma_wrap_add(t, s);
}

/// Walk one line record: every entry's column sums land in its lane's accumulators.
#[verifier::spinoff_prover]
#[verifier::rlimit(60)]
fn walk_record(
    data: &[u8],
    st: usize,
    en: usize,
    bands: usize,
    in_f: usize,
    b: usize,
    line: usize,
    pos: usize,
    planes: &[Plane],
    acc: &mut Vec<Wide>,
    touched: &mut Vec<bool>,
    last: &mut Vec<u8>,
) -> (next: usize)
    requires
        st <= en <= data.len(),
        1 <= bands <= 256,
        b < bands,
        line < 128,
        block_ok(data@.subrange(st as int, en as int), bands as int, in_f as int),
        planes_fit(data@.subrange(st as int, en as int), planes@, bands as int, in_f as int),
        pos == rec_at(data@.subrange(st as int, en as int), b * 128 + line),
        walk_inv(old(acc)@, old(touched)@, old(last)@, data@.subrange(st as int, en as int), planes@, b as int, line as int, pos as int, 0),
    ensures
        next == rec_at(data@.subrange(st as int, en as int), b * 128 + line + 1),
        walk_inv(
            final(acc)@,
            final(touched)@,
            final(last)@,
            data@.subrange(st as int, en as int),
            planes@,
            b as int,
            line as int,
            pos as int,
            le16(data@.subrange(st as int, en as int), pos as int),
        ),
{
    let ghost k = data@.subrange(st as int, en as int);
    let np = planes.len();
    let ghost r = b * 128 + line;
    proof {
        assert(b * 128 + line < bands * 128) by (nonlinear_arith)
            requires b < bands, line < 128;
        lemma_rec_mono(k, r + 1, bands * 128);
        assert(rec_at(k, r + 1) == pos + rec_len(k, pos as int));
        lemma_ent_total_mono(k, pos + 2, 0, le16(k, pos as int));
        assert(k[pos as int] == data@[st + pos] && k[pos + 1] == data@[st + pos + 1]);
    }
    let n = read_u16(data, st + pos) as usize;
    let colbase = st + pos + 2 + 2 * n;
    let mut c: usize = 0;
    let mut i: usize = 0;
    while i < n
        invariant
            0 <= i <= n,
            k == data@.subrange(st as int, en as int),
            st <= en <= data.len(),
            1 <= bands <= 256,
            b < bands,
            line < 128,
            np == planes.len(),
            r == b * 128 + line,
            r < bands * 128,
            block_ok(k, bands as int, in_f as int),
            planes_fit(k, planes@, bands as int, in_f as int),
            pos == rec_at(k, r),
            n == le16(k, pos as int),
            colbase == st + pos + 2 + 2 * n,
            pos + rec_len(k, pos as int) <= k.len(),
            c == ent_total(k, pos + 2, i as int),
            walk_inv(acc@, touched@, last@, k, planes@, b as int, line as int, pos as int, i as int),
        decreases n - i,
    {
        let q = st + pos + 2 + 2 * i;
        proof {
            lemma_ent_total_mono(k, pos + 2, i as int + 1, n as int);
            assert(k[pos + 2 + 2 * i] == data@[q as int] && k[pos + 2 + 2 * i + 1] == data@[q + 1]);
        }
        let lane = data[q] as usize;
        let cnt = data[q + 1] as usize;
        let idx = line * 256 + lane;
        proof {
            lemma_idx(line as int, lane as int);
        }
        let gap: u32 = if touched[idx] { (b as u8 - last[idx]) as u32 } else { 0 };
        let ghost acc0 = acc@;
        let ghost e0 = eff(touched@, last@, idx as int);
        assert(c + cnt == ent_total(k, pos + 2, i + 1));
        let mut p: usize = 0;
        while p < np
            invariant
                0 <= p <= np,
                np == planes.len(),
                k == data@.subrange(st as int, en as int),
                st <= en <= data.len(),
                1 <= bands <= 256,
                b < bands,
                line < 128,
                r == b * 128 + line,
                r < bands * 128,
                i < n,
                block_ok(k, bands as int, in_f as int),
                planes_fit(k, planes@, bands as int, in_f as int),
                pos == rec_at(k, r),
                n == le16(k, pos as int),
                colbase == st + pos + 2 + 2 * n,
                pos + rec_len(k, pos as int) <= k.len(),
                c == ent_total(k, pos + 2, i as int),
                c + cnt == ent_total(k, pos + 2, i + 1),
                ent_total(k, pos + 2, i + 1) <= ent_total(k, pos + 2, n as int),
                lane == k[pos + 2 + 2 * i],
                idx == line * 256 + lane,
                idx < 32768,
                idx / 256 == line,
                idx % 256 == lane,
                e0 == eff(touched@, last@, idx as int),
                touched[idx as int] ==> gap == b - e0,
                !touched[idx as int] ==> gap == 0,
                walk_inv(acc0, touched@, last@, k, planes@, b as int, line as int, pos as int, i as int),
                acc.len() == acc0.len(),
                forall|p2: int, x: int|
                    0 <= p2 < np && 0 <= x < 32768 && (x != idx || p2 >= p) ==> #[trigger] acc@[p2 * 32768 + x]
                        == acc0[p2 * 32768 + x],
                forall|p2: int|
                    0 <= p2 < p ==> (#[trigger] acc@[p2 * 32768 + idx]).val() == wrap256(
                        walk_target(k, planes[p2].v@, line as int, lane as int, b as int, line as int, pos as int, i + 1),
                    ),
            decreases np - p,
        {
            let pv = &planes[p].v;
            let ghost v = planes[p as int].v@;
            let mut sum: i128 = 0;
            let mut cc: usize = c;
            while cc < c + cnt
                invariant
                    c <= cc <= c + cnt,
                    k == data@.subrange(st as int, en as int),
                    st <= en <= data.len(),
                    0 <= r < bands * 128,
                    i < n,
                    block_ok(k, bands as int, in_f as int),
                    planes_fit(k, planes@, bands as int, in_f as int),
                    p < np,
                    np == planes.len(),
                    v == pv@,
                    v == planes[p as int].v@,
                    pos == rec_at(k, r),
                    n == le16(k, pos as int),
                    colbase == st + pos + 2 + 2 * n,
                    pos + rec_len(k, pos as int) <= k.len(),
                    c == ent_total(k, pos + 2, i as int),
                    c + cnt == ent_total(k, pos + 2, i + 1),
                    ent_total(k, pos + 2, i + 1) <= ent_total(k, pos + 2, n as int),
                    sum == col_sum(k, pos as int, v, c as int, cc as int),
                decreases c + cnt - cc,
            {
                let ghost at = pos + 2 + 2 * n + 2 * cc;
                proof {
                    assert(k[at] == data@[st + at] && k[at + 1] == data@[st + at + 1]);
                    assert(cc < ent_total(k, rec_at(k, r) + 2, le16(k, rec_at(k, r))));
                    assert(block_sums_fit(k, bands as int, v));
                    assert(rec_col(k, rec_at(k, r), cc as int) < in_f);
                    assert((planes[p as int]).v.len() == in_f);
                    assert(i128::MIN <= col_sum(k, rec_at(k, r), v, ent_total(k, rec_at(k, r) + 2, i as int), cc + 1) <= i128::MAX);
                }
                let col = read_u16(data, colbase + 2 * cc) as usize;
                sum = sum + pv[col];
                cc += 1;
            }
            let a0 = acc[p * 32768 + idx];
            let mut a = a0;
            proof {
                let t = walk_target(k, v, line as int, lane as int, b as int, line as int, pos as int, i as int);
                assert(wrap256(a0.val() * pow2((b - e0) as nat)) == wrap256(t));
                crate::lanes::lemma_pair_range(a0.hi, a0.lo);
                if !touched[idx as int] {
                    assert(a0.val() == 0);
                }
            }
            if gap > 0 {
                a = a.shl(gap);
            } else {
                proof {
                    lemma2_to64();
                    crate::lanes::lemma_pair_range(a0.hi, a0.lo);
                    lemma_wrap_small(a0.val());
                }
            }
            a.add(Wide::from_i128(sum));
            proof {
                let t = walk_target(k, v, line as int, lane as int, b as int, line as int, pos as int, i as int);
                let g: nat = if touched[idx as int] { (b - e0) as nat } else { 0 };
                lemma2_to64();
                if !touched[idx as int] {
                    let av0 = a0.val();
                    assert(av0 == 0);
                    assert(av0 * pow2(g) == 0) by (nonlinear_arith)
                        requires
                            av0 == 0,
                    ;
                    assert(wrap256(a0.val() * pow2(g)) == wrap256(t));
                } else {
                    assert(g == gap);
                }
                lemma_bump(a0.val(), g, sum as int, t, touched[idx as int]);
                if gap == 0 {
                    assert(g == 0);
                    assert(pow2(0) == 1);
                    let av = a0.val();
                    assert(av * pow2(g) == av) by (nonlinear_arith)
                        requires pow2(g) == 1;
                }
                assert(a.val() == wrap256(wrap256(a0.val() * pow2(g)) + sum));
                assert(a.val() == wrap256(t + sum));
                assert(walk_target(k, v, line as int, lane as int, b as int, line as int, pos as int, i + 1) == t + sum);
            }
            acc.set(p * 32768 + idx, a);
            p += 1;
        }
        let ghost acc1 = acc@;
        let ghost t0 = touched@;
        let ghost l0 = last@;
        last.set(idx, b as u8);
        touched.set(idx, true);
        c = c + cnt;
        i += 1;
        proof {
            assert forall|x: int| 0 <= x < 32768 && #[trigger] touched@[x] implies last@[x] <= b by {
                if x != idx {
                    assert(t0[x]);
                }
            }
            assert forall|p2: int, x: int|
                0 <= p2 < np && 0 <= x < 32768 && !touched@[x] implies (#[trigger] acc@[p2 * 32768 + x]).val() == 0 by {
                assert(x != idx);
                assert(acc@[p2 * 32768 + x] == acc0[p2 * 32768 + x]);
            }
            assert forall|p2: int, x: int| 0 <= p2 < np && 0 <= x < 32768 implies wrap256(
                (#[trigger] acc@[p2 * 32768 + x]).val() * pow2((b - eff(touched@, last@, x)) as nat),
            ) == wrap256(walk_target(k, planes[p2].v@, x / 256, x % 256, b as int, line as int, pos as int, i as int)) by {
                let v2 = planes[p2].v@;
                if x == idx {
                    lemma2_to64();
                    let y = walk_target(k, v2, line as int, lane as int, b as int, line as int, pos as int, i as int);
                    lemma_wrap_add(y, 0);
                    assert(eff(touched@, last@, x) == b);
                    let av = acc@[p2 * 32768 + x].val();
                    assert(pow2(0) == 1);
                    assert(av * pow2(0) == av) by (nonlinear_arith)
                        requires pow2(0) == 1;
                } else {
                    assert(acc@[p2 * 32768 + x] == acc0[p2 * 32768 + x]);
                    assert(eff(touched@, last@, x) == eff(t0, l0, x));
                    lemma_idx_split(x);
                    let ln = x / 256;
                    let l = x % 256;
                    assert(ln != line || l != lane);
                    assert(walk_target(k, v2, ln, l, b as int, line as int, pos as int, i as int) == walk_target(
                        k,
                        v2,
                        ln,
                        l,
                        b as int,
                        line as int,
                        pos as int,
                        i - 1,
                    ));
                }
            }
        }
    }
    pos + 2 + 2 * n + 2 * c
}

/// Moving on to the next line of a band: the record just walked is that line's band in full.
proof fn lemma_next_line(k: Seq<u8>, v: Seq<i128>, ln: int, l: int, b: int, line: int, pos: int, next: int)
    requires
        0 <= b,
        0 <= line < 128,
        pos == rec_at(k, b * 128 + line),
        next == rec_at(k, b * 128 + line + 1),
    ensures
        walk_target(k, v, ln, l, b, line, pos, le16(k, pos)) == walk_target(k, v, ln, l, b, line + 1, next, 0),
{
    if ln == line {
        lemma2_to64();
        assert(pow2((b - b) as nat) == 1);
        assert(lane_bands(k, v, ln, l, b + 1, b) == lane_bands(k, v, ln, l, b, b) + pow2((b - b) as nat) * rec_lane(k, b * 128 + ln, v, l));
    }
}

/// Every accumulator of a tile walked to the end, for every plane.
spec fn tile_done(acc: Seq<Wide>, touched: Seq<bool>, last: Seq<u8>, k: Seq<u8>, planes: Seq<Plane>, bands: int) -> bool {
    &&& acc.len() == planes.len() * 32768
    &&& touched.len() == 32768
    &&& last.len() == 32768
    &&& forall|x: int| 0 <= x < 32768 && #[trigger] touched[x] ==> last[x] <= bands - 1
    &&& forall|p: int, x: int|
        0 <= p < planes.len() && 0 <= x < 32768 && !touched[x] ==> (#[trigger] acc[p * 32768 + x]).val() == 0
    &&& forall|p: int, x: int|
        0 <= p < planes.len() && 0 <= x < 32768 ==> wrap256(
            (#[trigger] acc[p * 32768 + x]).val() * pow2((bands - 1 - eff(touched, last, x)) as nat),
        ) == wrap256(lane_bands(k, planes[p].v@, x / 256, x % 256, bands, bands - 1))
}

/// Walk a tile block band by band, top rung first: the carriage.
#[verifier::rlimit(60)]
fn walk_tile(
    data: &[u8],
    st: usize,
    en: usize,
    bands: usize,
    in_f: usize,
    planes: &[Plane],
    acc: &mut Vec<Wide>,
    touched: &mut Vec<bool>,
    last: &mut Vec<u8>,
)
    requires
        st <= en <= data.len(),
        1 <= bands <= 256,
        block_ok(data@.subrange(st as int, en as int), bands as int, in_f as int),
        planes_fit(data@.subrange(st as int, en as int), planes@, bands as int, in_f as int),
        old(last).len() == 32768,
    ensures
        tile_done(final(acc)@, final(touched)@, final(last)@, data@.subrange(st as int, en as int), planes@, bands as int),
{
    let ghost k = data@.subrange(st as int, en as int);
    let np = planes.len();
    acc.clear();
    while acc.len() < np * 32768
        invariant
            np == planes.len(),
            np <= 8,
            acc.len() <= np * 32768,
            forall|q: int| 0 <= q < acc.len() ==> (#[trigger] acc@[q]).val() == 0,
        decreases np * 32768 - acc.len(),
    {
        acc.push(Wide::zero());
    }
    touched.clear();
    while touched.len() < 32768
        invariant
            touched.len() <= 32768,
            forall|q: int| 0 <= q < touched.len() ==> !#[trigger] touched@[q],
        decreases 32768 - touched.len(),
    {
        touched.push(false);
    }
    let mut pos: usize = 0;
    let mut b: usize = 0;
    while b < bands
        invariant
            0 <= b <= bands,
            k == data@.subrange(st as int, en as int),
            st <= en <= data.len(),
            1 <= bands <= 256,
            np == planes.len(),
            block_ok(k, bands as int, in_f as int),
            planes_fit(k, planes@, bands as int, in_f as int),
            pos == rec_at(k, b * 128),
            acc.len() == np * 32768,
            touched.len() == 32768,
            last.len() == 32768,
            forall|x: int| 0 <= x < 32768 && #[trigger] touched@[x] ==> last@[x] < b,
            forall|p: int, x: int|
                0 <= p < np && 0 <= x < 32768 && !touched@[x] ==> (#[trigger] acc@[p * 32768 + x]).val() == 0,
            b > 0 ==> forall|p: int, x: int|
                0 <= p < np && 0 <= x < 32768 ==> wrap256(
                    (#[trigger] acc@[p * 32768 + x]).val() * pow2((b - 1 - eff(touched@, last@, x)) as nat),
                ) == wrap256(lane_bands(k, planes[p].v@, x / 256, x % 256, b as int, b - 1)),
        decreases bands - b,
    {
        proof {
            lemma2_to64();
            assert forall|p: int, x: int| 0 <= p < np && 0 <= x < 32768 implies wrap256(
                (#[trigger] acc@[p * 32768 + x]).val() * pow2((b - eff(touched@, last@, x)) as nat),
            ) == wrap256(walk_target(k, planes[p].v@, x / 256, x % 256, b as int, 0, pos as int, 0)) by {
                let v = planes[p].v@;
                let ln = x / 256;
                let l = x % 256;
                let a = acc@[p * 32768 + x].val();
                lemma_idx_split(x);
                assert(walk_target(k, v, ln, l, b as int, 0, pos as int, 0) == lane_bands(k, v, ln, l, b as int, b as int));
                if b == 0 {
                    assert(!touched@[x]);
                    assert(a == 0);
                    assert(a * pow2((b - eff(touched@, last@, x)) as nat) == 0);
                } else {
                    let e = (b - 1 - eff(touched@, last@, x)) as nat;
                    lemma_pow2_unfold(e + 1);
                    assert((b - eff(touched@, last@, x)) as nat == e + 1);
                    assert(a * pow2(e + 1) == (a * pow2(e)) * 2) by (nonlinear_arith)
                        requires pow2(e + 1) == 2 * pow2(e);
                    crate::fold::lemma_wrap_mul(a * pow2(e), 2);
                    crate::fold::lemma_wrap_mul(lane_bands(k, v, ln, l, b as int, b - 1), 2);
                    lemma_lane_bands_double(k, v, ln, l, b as int, b - 1);
                }
            }
        }
        let mut line: usize = 0;
        while line < 128
            invariant
                0 <= line <= 128,
                b < bands,
                k == data@.subrange(st as int, en as int),
                st <= en <= data.len(),
                1 <= bands <= 256,
                np == planes.len(),
                block_ok(k, bands as int, in_f as int),
                planes_fit(k, planes@, bands as int, in_f as int),
                pos == rec_at(k, b * 128 + line),
                walk_inv(acc@, touched@, last@, k, planes@, b as int, line as int, pos as int, 0),
            decreases 128 - line,
        {
            let next = walk_record(data, st, en, bands, in_f, b, line, pos, planes, acc, touched, last);
            proof {
                let n = le16(k, pos as int);
                assert forall|p: int, x: int| 0 <= p < np && 0 <= x < 32768 implies wrap256(
                    (#[trigger] acc@[p * 32768 + x]).val() * pow2((b - eff(touched@, last@, x)) as nat),
                ) == wrap256(walk_target(k, planes[p].v@, x / 256, x % 256, b as int, line + 1, next as int, 0)) by {
                    lemma_next_line(k, planes[p].v@, x / 256, x % 256, b as int, line as int, pos as int, next as int);
                }
            }
            pos = next;
            line += 1;
        }
        proof {
            assert forall|p: int, x: int| 0 <= p < np && 0 <= x < 32768 implies wrap256(
                (#[trigger] acc@[p * 32768 + x]).val() * pow2((b + 1 - 1 - eff(touched@, last@, x)) as nat),
            ) == wrap256(lane_bands(k, planes[p].v@, x / 256, x % 256, b + 1, b + 1 - 1)) by {
                lemma_idx_split(x);
                assert(walk_target(k, planes[p].v@, x / 256, x % 256, b as int, 128, pos as int, 0) == lane_bands(
                    k,
                    planes[p].v@,
                    x / 256,
                    x % 256,
                    b + 1,
                    b as int,
                ));
            }
        }
        b += 1;
    }
}

/// The 256 lanes of a walked line landed at the lowest rung, and the odd chain over each sign.
#[verifier::rlimit(40)]
fn gather_line(
    acc: &Vec<Wide>,
    touched: &Vec<bool>,
    last: &Vec<u8>,
    bands: usize,
    p: usize,
    line: usize,
    Ghost(k): Ghost<Seq<u8>>,
    Ghost(planes): Ghost<Seq<Plane>>,
) -> (total: Wide)
    requires
        tile_done(acc@, touched@, last@, k, planes, bands as int),
        1 <= bands <= 256,
        p < planes.len(),
        planes.len() <= 8,
        line < 128,
    ensures
        total.val() == wrap256(cub_dot(k, planes[p as int].v@, bands as int, line as int)),
{
    let ghost v = planes[p as int].v@;
    let mut pos_lanes: Vec<Wide> = Vec::new();
    let mut neg_lanes: Vec<Wide> = Vec::new();
    let mut lane: usize = 0;
    while lane < 256
        invariant
            0 <= lane <= 256,
            tile_done(acc@, touched@, last@, k, planes, bands as int),
            1 <= bands <= 256,
            p < planes.len(),
            planes.len() <= 8,
            line < 128,
            v == planes[p as int].v@,
            pos_lanes.len() == if lane < 128 { lane as int } else { 128 },
            neg_lanes.len() == if lane < 128 { 0 } else { lane - 128 },
            forall|j: int| 0 <= j < pos_lanes.len() ==> (#[trigger] pos_lanes@[j]).val() == wrap256(
                lane_bands(k, v, line as int, j, bands as int, bands - 1),
            ),
            forall|j: int| 0 <= j < neg_lanes.len() ==> (#[trigger] neg_lanes@[j]).val() == wrap256(
                lane_bands(k, v, line as int, 128 + j, bands as int, bands - 1),
            ),
        decreases 256 - lane,
    {
        let idx = line * 256 + lane;
        proof {
            lemma_idx(line as int, lane as int);
        }
        let w = if touched[idx] {
            let fin = (bands - 1) as u32 - last[idx] as u32;
            acc[p * 32768 + idx].shl(fin)
        } else {
            proof {
                lemma2_to64();
                let a = acc@[p * 32768 + idx].val();
                assert(a == 0);
                assert(a * pow2((bands - 1 - eff(touched@, last@, idx as int)) as nat) == 0);
                lemma_wrap_small(0);
            }
            Wide::zero()
        };
        if lane < 128 {
            pos_lanes.push(w);
        } else {
            neg_lanes.push(w);
        }
        lane += 1;
    }
    let ghost a0 = cub_lanes(k, v, bands as int, line as int, 0);
    let ghost a1 = cub_lanes(k, v, bands as int, line as int, 1);
    proof {
        assert forall|q: int| 0 <= q < 128 implies #[trigger] vals(pos_lanes@)[q] == wrap256(a0[q]) by {
            assert(pos_lanes@[q].val() == wrap256(lane_bands(k, v, line as int, q, bands as int, bands - 1)));
        }
        assert forall|q: int| 0 <= q < 128 implies #[trigger] vals(neg_lanes@)[q] == wrap256(a1[q]) by {
            assert(neg_lanes@[q].val() == wrap256(lane_bands(k, v, line as int, 128 + q, bands as int, bands - 1)));
        }
        lemma_odd_weighted_wrap(vals(pos_lanes@), a0, 0);
        lemma_odd_weighted_wrap(vals(neg_lanes@), a1, 0);
    }
    let mut total = odd_chain(&pos_lanes);
    let neg = odd_chain(&neg_lanes);
    total.sub(neg);
    proof {
        let x0 = odd_weighted(a0, 0);
        let x1 = odd_weighted(a1, 0);
        lemma_wrap_sub(wrap256(x0), x1);
        lemma_wrap_add(x0, -x1);
    }
    total
}

// ── the cube's tensors ───────────────────────────────────────────────────────

/// One tensor of the cube: its shape, its rung range and where its tiles lie in the file.
#[derive(Clone, Debug)]
pub struct CubTensorSpec {
    pub name: String,
    pub rows: usize,
    pub cols: usize,
    pub rmin: i32,
    pub rmax: i32,
    pub tiles: usize,
    /// 0-based byte offset of this tensor's tile index (u64 × tiles) in the file
    pub index_start: usize,
    /// 0-based byte offset of the first tile block
    pub body_start: usize,
    pub body_bytes: usize,
}

impl CubTensorSpec {
    /// One band per rung from rmax down to rmin.
    pub fn bands(&self) -> (r: usize)
        requires
            i32::MIN <= self.rmax - self.rmin < i32::MAX,
        ensures
            r == (self.rmax - self.rmin + 1) as usize,
    {
        (self.rmax - self.rmin + 1) as usize
    }
}

/// Where tile t of a tensor starts: the u64 at its index entry.
pub open spec fn tile_start(d: Seq<u8>, s: CubTensorSpec, t: int) -> int {
    le_bytes(d, s.index_start + 8 * t, 8)
}

/// Where tile t ends: where the next tile starts, or the end of the tensor's body.
pub open spec fn tile_end(d: Seq<u8>, s: CubTensorSpec, t: int) -> int {
    if t + 1 < s.tiles {
        le_bytes(d, s.index_start + 8 * (t + 1), 8)
    } else {
        s.body_start + s.body_bytes
    }
}

pub open spec fn tile_block(d: Seq<u8>, s: CubTensorSpec, t: int) -> Seq<u8> {
    d.subrange(tile_start(d, s, t), tile_end(d, s, t))
}

/// Tile t's index entries lie in the file, and so does its block.
pub open spec fn tile_ok(d: Seq<u8>, s: CubTensorSpec, t: int) -> bool {
    &&& s.index_start + 8 * t + 8 <= d.len()
    &&& t + 1 < s.tiles ==> s.index_start + 8 * (t + 1) + 8 <= d.len()
    &&& tile_start(d, s, t) <= tile_end(d, s, t) <= d.len()
}

/// The tensor can be walked against `in_f` columns: its rungs span at most 256 bands, its tiles
/// cover at most its rows, and every tile block holds its records with columns below `in_f`.
pub open spec fn cube_ok(d: Seq<u8>, s: CubTensorSpec, in_f: int) -> bool {
    &&& s.cols == in_f
    &&& -0x1000_0000 < s.rmin <= s.rmax < 0x1000_0000
    &&& s.rmax - s.rmin < 256
    &&& s.tiles * 128 <= s.rows
    &&& forall|t: int| 0 <= t < s.tiles ==> #[trigger] tile_ok(d, s, t) && block_ok(
        tile_block(d, s, t),
        s.rmax - s.rmin + 1,
        in_f,
    )
}

/// Row o of the tensor against activation row q: the collapse of the tile line it lies on
/// (rows past the last tile stay 0).
pub open spec fn cub_expect(d: Seq<u8>, s: CubTensorSpec, x: Seq<u16>, in_f: int, q: int, o: int) -> int {
    if o < s.tiles * 128 {
        cub_cell(
            tile_block(d, s, o / 128),
            prefix_vals(row(x, q, in_f)),
            row_sticky(row(x, q, in_f)),
            s.rmax - s.rmin + 1,
            o % 128,
            s.rmin as int,
        )
    } else {
        0
    }
}

/// Activation row q rides tile line o: its sums fit, its exact value fits the 256-bit lane (so
/// nothing wraps), and its cell fits bf16.
pub open spec fn cub_fits(d: Seq<u8>, s: CubTensorSpec, x: Seq<u16>, in_f: int, q: int, o: int) -> bool {
    let k = tile_block(d, s, o / 128);
    let v = prefix_vals(row(x, q, in_f));
    &&& block_sums_fit(k, s.rmax - s.rmin + 1, v)
    &&& crate::lanes::in_lane(cub_dot(k, v, s.rmax - s.rmin + 1, o % 128))
    &&& collapse_fits(cub_dot(k, v, s.rmax - s.rmin + 1, o % 128), row_sticky(row(x, q, in_f)), ACT_FLOOR - s.rmin)
}

/// The byte range of tile t's block.
fn tile_range(data: &Vec<u8>, s: &CubTensorSpec, t: usize) -> (r: (usize, usize))
    requires
        t < s.tiles,
        tile_ok(data@, *s, t as int),
    ensures
        r.0 == tile_start(data@, *s, t as int),
        r.1 == tile_end(data@, *s, t as int),
{
    proof {
        assert(s.index_start + 8 * t + 8 <= data.len());
        assert(t + 1 < s.tiles ==> s.index_start + 8 * (t + 1) + 8 <= data.len());
    }
    let ix = s.index_start + 8 * t;
    let start = read_u64(data.as_slice(), ix) as usize;
    let end = if t + 1 < s.tiles {
        read_u64(data.as_slice(), ix + 8) as usize
    } else {
        s.body_start + s.body_bytes
    };
    (start, end)
}

/// The cube: the file's bytes and the tensors its header names.
pub struct CubFold {
    pub data: Vec<u8>,
    pub specs: Vec<CubTensorSpec>,
}

/// The last of the first n tensors named `name` (−1 if none): a later entry of a name wins.
pub open spec fn named_from(specs: Seq<CubTensorSpec>, name: Seq<char>, n: int) -> int
    decreases n,
{
    if n <= 0 {
        -1
    } else if specs[n - 1].name@ == name {
        n - 1
    } else {
        named_from(specs, name, n - 1)
    }
}

pub open spec fn named(specs: Seq<CubTensorSpec>, name: Seq<char>) -> int {
    named_from(specs, name, specs.len() as int)
}

proof fn lemma_named_range(specs: Seq<CubTensorSpec>, name: Seq<char>, n: int)
    requires
        0 <= n <= specs.len(),
    ensures
        -1 <= named_from(specs, name, n) < n,
        named_from(specs, name, n) >= 0 ==> specs[named_from(specs, name, n)].name@ == name,
    decreases n,
{
    if n > 0 {
        lemma_named_range(specs, name, n - 1);
    }
}

impl CubFold {
    /// The tensor of that name (the last one, if the header names it twice).
    pub fn spec(&self, name: &str) -> (s: &CubTensorSpec)
        requires
            named(self.specs@, name@) >= 0,
        ensures
            *s == self.specs[named(self.specs@, name@)],
    {
        let want = name.to_owned();
        let mut n = self.specs.len();
        while n > 0
            invariant
                0 <= n <= self.specs.len(),
                want@ == name@,
                named(self.specs@, name@) >= 0,
                named(self.specs@, name@) == named_from(self.specs@, name@, n as int),
            decreases n,
        {
            if self.specs[n - 1].name == want {
                return &self.specs[n - 1];
            }
            n -= 1;
        }
        proof {
            assert(named_from(self.specs@, name@, 0) == -1);
        }
        &self.specs[0]
    }

    /// The size of the cube in bytes.
    pub fn bytes(&self) -> (r: usize)
        ensures
            r == self.data.len(),
    {
        self.data.len()
    }
}

// ── the band-walk kernel ─────────────────────────────────────────────────────

/// The cells of y the tile walk has written when tile t, planes from p0 (np of them), line and
/// plane p are next.
spec fn cub_done(t: int, p0: int, np: int, line: int, p: int, q: int, o: int) -> bool {
    ||| o < t * 128
    ||| (t * 128 <= o < t * 128 + 128 && q < p0)
    ||| (t * 128 <= o < t * 128 + line && p0 <= q < p0 + np)
    ||| (o == t * 128 + line && p0 <= q < p0 + p)
}

proof fn lemma_flat_unique(q: int, o: int, q2: int, o2: int, cols: int)
    requires
        0 <= q,
        0 <= q2,
        0 <= o < cols,
        0 <= o2 < cols,
        q * cols + o == q2 * cols + o2,
    ensures
        q == q2,
        o == o2,
{
    if q < q2 {
        assert(q * cols + o < q2 * cols + o2) by (nonlinear_arith)
            requires q < q2, 0 <= o < cols, 0 <= o2;
    } else if q > q2 {
        assert(q * cols + o > q2 * cols + o2) by (nonlinear_arith)
            requires q > q2, 0 <= o2 < cols, 0 <= o;
    }
}

/// `y = x · Wᵀ` over the cube's tensor `name`: `x` is `[seq, in_f]` patterns, up to CUB_PLANES
/// planes per walk of a tile's bands. Rows past the last tile stay 0.
#[verifier::rlimit(80)]
pub fn matmul_cub(x: &[u16], seq: usize, in_f: usize, cub: &CubFold, name: &str) -> (y: Vec<u16>)
    requires
        named(cub.specs@, name@) >= 0,
        cube_ok(cub.data@, cub.specs[named(cub.specs@, name@)], in_f as int),
        x.len() == seq * in_f,
        seq * cub.specs[named(cub.specs@, name@)].rows <= usize::MAX,
        forall|i: int| 0 <= i < x.len() ==> prefixable(#[trigger] x[i]),
        forall|q: int, o: int|
            0 <= q < seq && 0 <= o < cub.specs[named(cub.specs@, name@)].tiles * 128 ==> #[trigger] cub_fits(
                cub.data@,
                cub.specs[named(cub.specs@, name@)],
                x@,
                in_f as int,
                q,
                o,
            ),
    ensures
        y.len() == seq * cub.specs[named(cub.specs@, name@)].rows,
        forall|q: int, o: int|
            0 <= q < seq && 0 <= o < cub.specs[named(cub.specs@, name@)].rows ==> y[q
                * cub.specs[named(cub.specs@, name@)].rows + o] == #[trigger] cub_expect(
                cub.data@,
                cub.specs[named(cub.specs@, name@)],
                x@,
                in_f as int,
                q,
                o,
            ),
{
    let s = cub.spec(name);
    let ghost d = cub.data@;
    let out_f = s.rows;
    let bands = s.bands();
    let frac = frac_for(s.rmin);
    let planes_all = planes_of(x, seq, in_f);
    let mut y: Vec<u16> = Vec::new();
    while y.len() < seq * out_f
        invariant
            seq * out_f <= usize::MAX,
            y.len() <= seq * out_f,
            forall|i: int| 0 <= i < y.len() ==> #[trigger] y@[i] == 0,
        decreases seq * out_f - y.len(),
    {
        y.push(0);
    }
    let mut acc: Vec<Wide> = Vec::new();
    let mut touched: Vec<bool> = Vec::new();
    let mut last: Vec<u8> = Vec::new();
    while last.len() < 32768
        invariant
            last.len() <= 32768,
        decreases 32768 - last.len(),
    {
        last.push(0);
    }
    proof {
        assert forall|q: int, o: int| 0 <= q < seq && 0 <= o < out_f implies #[trigger] y@[q * out_f + o] == if cub_done(
            0,
            0,
            0,
            0,
            0,
            q,
            o,
        ) {
            cub_expect(d, *s, x@, in_f as int, q, o)
        } else {
            0
        } by {
            crate::matmul::lemma_flat_index(q, o, seq as int, out_f as int);
        }
    }
    let mut t: usize = 0;
    while t < s.tiles
        invariant
            0 <= t <= s.tiles,
            d == cub.data@,
            cube_ok(d, *s, in_f as int),
            out_f == s.rows,
            bands == s.rmax - s.rmin + 1,
            frac == ACT_FLOOR - s.rmin,
            x.len() == seq * in_f,
            seq * out_f <= usize::MAX,
            planes_all.len() == seq,
            forall|q: int| 0 <= q < seq ==> (#[trigger] planes_all[q]).reads(row(x@, q, in_f as int)),
            forall|q: int, o: int| 0 <= q < seq && 0 <= o < s.tiles * 128 ==> #[trigger] cub_fits(d, *s, x@, in_f as int, q, o),
            y.len() == seq * out_f,
            last.len() == 32768,
            forall|q: int, o: int|
                0 <= q < seq && 0 <= o < out_f ==> #[trigger] y@[q * out_f + o] == if cub_done(t as int, 0, 0, 0, 0, q, o) {
                    cub_expect(d, *s, x@, in_f as int, q, o)
                } else {
                    0
                },
        decreases s.tiles - t,
    {
        proof {
            assert(tile_ok(d, *s, t as int));
        }
        let (st, en) = tile_range(&cub.data, s, t);
        let ghost k = tile_block(d, *s, t as int);
        assert(k == cub.data@.subrange(st as int, en as int));
        assert(block_ok(k, bands as int, in_f as int));
        let mut p0: usize = 0;
        while p0 < seq
            invariant
                0 <= p0 <= seq,
                t < s.tiles,
                d == cub.data@,
                k == tile_block(d, *s, t as int),
                k == cub.data@.subrange(st as int, en as int),
                st <= en <= cub.data.len(),
                block_ok(k, bands as int, in_f as int),
                cube_ok(d, *s, in_f as int),
                out_f == s.rows,
                bands == s.rmax - s.rmin + 1,
                frac == ACT_FLOOR - s.rmin,
                x.len() == seq * in_f,
                seq * out_f <= usize::MAX,
                planes_all.len() == seq,
                forall|q: int| 0 <= q < seq ==> (#[trigger] planes_all[q]).reads(row(x@, q, in_f as int)),
                forall|q: int, o: int|
                    0 <= q < seq && 0 <= o < s.tiles * 128 ==> #[trigger] cub_fits(d, *s, x@, in_f as int, q, o),
                y.len() == seq * out_f,
                last.len() == 32768,
                forall|q: int, o: int|
                    0 <= q < seq && 0 <= o < out_f ==> #[trigger] y@[q * out_f + o] == if cub_done(t as int, p0 as int, 0, 0, 0, q, o) {
                        cub_expect(d, *s, x@, in_f as int, q, o)
                    } else {
                        0
                    },
            decreases seq - p0,
        {
            let np = if seq - p0 < CUB_PLANES { seq - p0 } else { CUB_PLANES };
            let planes = &planes_all.as_slice()[p0..p0 + np];
            proof {
                assert forall|p: int| 0 <= p < np implies (#[trigger] planes@[p]).v@ == prefix_vals(row(x@, p0 + p, in_f as int)) by {
                    assert(planes@[p] == planes_all[p0 + p]);
                    lemma_reads_vals(planes_all[p0 + p], row(x@, p0 + p, in_f as int));
                }
                assert forall|p: int| 0 <= p < np implies (#[trigger] planes@[p]).v.len() == in_f by {
                    crate::matmul::lemma_row_bounds(p0 + p, seq as int, in_f as int);
                    assert(planes@[p].v@ == prefix_vals(row(x@, p0 + p, in_f as int)));
                }
                assert forall|p: int| 0 <= p < np implies block_sums_fit(k, bands as int, (#[trigger] planes@[p]).v@) by {
                    assert(cub_fits(d, *s, x@, in_f as int, p0 + p, t * 128));
                    assert((t * 128) as int / 128 == t);
                }
            }
            walk_tile(cub.data.as_slice(), st, en, bands, in_f, planes, &mut acc, &mut touched, &mut last);
            let mut line: usize = 0;
            while line < 128
                invariant
                    0 <= line <= 128,
                    1 <= np <= 8,
                    p0 + np <= seq,
                    np == planes.len(),
                    forall|p: int| 0 <= p < np ==> (#[trigger] planes@[p]) == planes_all[p0 + p],
                    forall|p: int| 0 <= p < np ==> (#[trigger] planes@[p]).v@ == prefix_vals(row(x@, p0 + p, in_f as int)),
                    t < s.tiles,
                    d == cub.data@,
                    k == tile_block(d, *s, t as int),
                    cube_ok(d, *s, in_f as int),
                    out_f == s.rows,
                    bands == s.rmax - s.rmin + 1,
                    frac == ACT_FLOOR - s.rmin,
                    x.len() == seq * in_f,
                    seq * out_f <= usize::MAX,
                    planes_all.len() == seq,
                    forall|q: int| 0 <= q < seq ==> (#[trigger] planes_all[q]).reads(row(x@, q, in_f as int)),
                    forall|q: int, o: int|
                        0 <= q < seq && 0 <= o < s.tiles * 128 ==> #[trigger] cub_fits(d, *s, x@, in_f as int, q, o),
                    tile_done(acc@, touched@, last@, k, planes@, bands as int),
                    y.len() == seq * out_f,
                    last.len() == 32768,
                    forall|q: int, o: int|
                        0 <= q < seq && 0 <= o < out_f ==> #[trigger] y@[q * out_f + o] == if cub_done(
                            t as int,
                            p0 as int,
                            np as int,
                            line as int,
                            0,
                            q,
                            o,
                        ) {
                            cub_expect(d, *s, x@, in_f as int, q, o)
                        } else {
                            0
                        },
                decreases 128 - line,
            {
                let mut p: usize = 0;
                while p < np
                    invariant
                        0 <= p <= np,
                        0 <= line < 128,
                        1 <= np <= 8,
                        p0 + np <= seq,
                        np == planes.len(),
                        forall|p2: int| 0 <= p2 < np ==> (#[trigger] planes@[p2]) == planes_all[p0 + p2],
                        forall|p2: int| 0 <= p2 < np ==> (#[trigger] planes@[p2]).v@ == prefix_vals(row(x@, p0 + p2, in_f as int)),
                        t < s.tiles,
                        d == cub.data@,
                        k == tile_block(d, *s, t as int),
                        cube_ok(d, *s, in_f as int),
                        out_f == s.rows,
                        bands == s.rmax - s.rmin + 1,
                        frac == ACT_FLOOR - s.rmin,
                        x.len() == seq * in_f,
                        seq * out_f <= usize::MAX,
                        planes_all.len() == seq,
                        forall|q: int| 0 <= q < seq ==> (#[trigger] planes_all[q]).reads(row(x@, q, in_f as int)),
                        forall|q: int, o: int|
                            0 <= q < seq && 0 <= o < s.tiles * 128 ==> #[trigger] cub_fits(d, *s, x@, in_f as int, q, o),
                        tile_done(acc@, touched@, last@, k, planes@, bands as int),
                        y.len() == seq * out_f,
                        last.len() == 32768,
                        forall|q: int, o: int|
                            0 <= q < seq && 0 <= o < out_f ==> #[trigger] y@[q * out_f + o] == if cub_done(
                                t as int,
                                p0 as int,
                                np as int,
                                line as int,
                                p as int,
                                q,
                                o,
                            ) {
                                cub_expect(d, *s, x@, in_f as int, q, o)
                            } else {
                                0
                            },
                    decreases np - p,
                {
                    let total = gather_line(&acc, &touched, &last, bands, p, line, Ghost(k), Ghost(planes@));
                    let o = t * 128 + line;
                    let q = p0 + p;
                    let ghost xr = row(x@, q as int, in_f as int);
                    proof {
                        assert(o < s.tiles * 128);
                        assert(o < out_f);
                        assert(o / 128 == t && o % 128 == line) by {
                            vstd::arithmetic::div_mod::lemma_fundamental_div_mod_converse(o as int, 128, t as int, line as int);
                        }
                        assert(cub_fits(d, *s, x@, in_f as int, q as int, o as int));
                        assert(planes_all[q as int].sticky == row_sticky(xr));
                        assert(planes@[p as int].v@ == prefix_vals(xr));
                        crate::lanes::lemma_wrap_in_lane(cub_dot(k, prefix_vals(xr), bands as int, line as int));
                    }
                    let bucket = Bucket { acc: total, sticky: planes[p].sticky, frac };
                    let out = bucket.collapse();
                    proof {
                        crate::matmul::lemma_flat_index(q as int, o as int, seq as int, out_f as int);
                        assert(out == cub_expect(d, *s, x@, in_f as int, q as int, o as int));
                    }
                    let ghost y0 = y@;
                    y.set(q * out_f + o, out);
                    proof {
                        assert forall|q2: int, o2: int| 0 <= q2 < seq && 0 <= o2 < out_f implies #[trigger] y@[q2 * out_f + o2]
                            == if cub_done(t as int, p0 as int, np as int, line as int, p + 1, q2, o2) {
                            cub_expect(d, *s, x@, in_f as int, q2, o2)
                        } else {
                            0
                        } by {
                            if q2 == q && o2 == o {
                            } else {
                                crate::matmul::lemma_flat_index(q2, o2, seq as int, out_f as int);
                                if q2 * out_f + o2 == q * out_f + o {
                                    lemma_flat_unique(q2, o2, q as int, o as int, out_f as int);
                                }
                                assert(y@[q2 * out_f + o2] == y0[q2 * out_f + o2]);
                            }
                        }
                    }
                    p += 1;
                }
                line += 1;
            }
            p0 += np;
        }
        t += 1;
    }
    proof {
        assert forall|q: int, o: int| 0 <= q < seq && 0 <= o < out_f implies y@[q * out_f + o] == #[trigger] cub_expect(
            d,
            *s,
            x@,
            in_f as int,
            q,
            o,
        ) by {
            assert(y@[q * out_f + o] == if cub_done(t as int, 0, 0, 0, 0, q, o) {
                cub_expect(d, *s, x@, in_f as int, q, o)
            } else {
                0
            });
        }
    }
    y
}
} // verus!
