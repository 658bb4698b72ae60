//! Reading a cube tile back: every record of a tile, decoded from its bytes, holds the row's
//! buckets of its band, so the tile walk lands every lane where the fold's buckets land.

use vstd::arithmetic::power2::*;
use vstd::prelude::*;

use crate::cub::{col_sum, ent_lane, ent_total, le16, rec_col};
use crate::cub::{cub_cell, cub_dot, cub_lanes, lane_bands, rec_at, rec_lane, rec_len};
use crate::cubfile::{band_cols, band_n, band_pairs, col_bytes, le16_bytes, pairs_of, rec_bytes, split_pairs, tile_bytes, tile_of};
use crate::fold::{
    bstart, bucket_sum, colsum, fold_cell, fold_dot, landed, lane_sum, sign_lanes, tensor_wf, RowFold, TensorFold,
};

verus! {

// ── the bytes of a record ────────────────────────────────────────────────────

proof fn lemma_split_len(lane: int, cnt: int)
    requires
        0 <= cnt,
    ensures
        split_pairs(lane, cnt).len() == 2 * pairs_of(cnt),
    decreases cnt,
{
    if cnt > 255 {
        lemma_split_len(lane, cnt - 255);
        assert(pairs_of(cnt) == pairs_of(cnt - 255) + 1);
    }
}

/// The pairs of a bucket: lane, then 255 while more than 255 columns are left, then the rest.
proof fn lemma_split_at(lane: int, cnt: int, s: int)
    requires
        0 <= cnt,
        0 <= s < pairs_of(cnt),
    ensures
        split_pairs(lane, cnt)[2 * s] == lane as u8,
        split_pairs(lane, cnt)[2 * s + 1] == (if cnt - 255 * s > 255 { 255 } else { cnt - 255 * s }) as u8,
    decreases cnt,
{
    lemma_split_len(lane, cnt);
    if cnt > 255 {
        lemma_split_len(lane, cnt - 255);
        if s > 0 {
            lemma_split_at(lane, cnt - 255, s - 1);
            assert(split_pairs(lane, cnt) == seq![lane as u8, 255u8] + split_pairs(lane, cnt - 255));
        }
    }
}

proof fn lemma_col_bytes_len(cols: Seq<u16>, a: int, e: int)
    requires
        a <= e,
    ensures
        col_bytes(cols, a, e).len() == 2 * (e - a),
    decreases e - a,
{
    if e > a {
        lemma_col_bytes_len(cols, a, e - 1);
    }
}

/// Column u of a run of columns, read back as a little-endian u16.
proof fn lemma_col_bytes_at(cols: Seq<u16>, a: int, e: int, u: int)
    requires
        a <= u < e,
    ensures
        le16(col_bytes(cols, a, e), 2 * (u - a)) == cols[u] as int,
    decreases e - a,
{
    lemma_col_bytes_len(cols, a, e - 1);
    if u < e - 1 {
        lemma_col_bytes_at(cols, a, e - 1, u);
    }
    let c = cols[u] as int;
    assert(c % 256 + 256 * (c / 256 % 256) == c) by {
        assert(c < 65536);
    }
}

// ── a band's buckets ─────────────────────────────────────────────────────────

/// How many columns the band's buckets among the first i hold.
pub open spec fn band_cols_n(b: Seq<(u16, u16)>, r: int, band: int, i: int) -> int
    decreases i,
{
    if i <= 0 {
        0
    } else {
        band_cols_n(b, r, band, i - 1) + if b[i - 1].0 as int % r == band { b[i - 1].1 as int } else { 0 }
    }
}

/// Σ of the column sums of the band's buckets among the first i that sit in lane l.
pub open spec fn band_lane(v: Seq<i128>, b: Seq<(u16, u16)>, cols: Seq<u16>, r: int, band: int, l: int, i: int) -> int
    decreases i,
{
    if i <= 0 {
        0
    } else {
        band_lane(v, b, cols, r, band, l, i - 1) + if b[i - 1].0 as int % r == band && b[i - 1].0 as int / r == l {
            bucket_sum(v, b, cols, i - 1)
        } else {
            0
        }
    }
}

proof fn lemma_band_lens(b: Seq<(u16, u16)>, cols: Seq<u16>, r: int, band: int, i: int)
    requires
        0 <= i <= b.len(),
    ensures
        band_pairs(b, r, band, i).len() == 2 * band_n(b, r, band, i),
        band_cols(b, cols, r, band, i).len() == 2 * band_cols_n(b, r, band, i),
        0 <= band_n(b, r, band, i),
        0 <= band_cols_n(b, r, band, i),
    decreases i,
{
    if i > 0 {
        lemma_band_lens(b, cols, r, band, i - 1);
        if b[i - 1].0 as int % r == band {
            lemma_split_len(b[i - 1].0 as int / r, b[i - 1].1 as int);
            crate::fold::lemma_bstart_mono(b, i - 1, i);
            lemma_col_bytes_len(cols, bstart(b, i - 1), bstart(b, i));
        }
    }
}

/// The pairs and columns of the first i buckets begin those of the first j.
proof fn lemma_band_prefix(b: Seq<(u16, u16)>, cols: Seq<u16>, r: int, band: int, i: int, j: int)
    requires
        0 <= i <= j <= b.len(),
    ensures
        forall|x: int| 0 <= x < band_pairs(b, r, band, i).len() ==> #[trigger] band_pairs(b, r, band, j)[x] == band_pairs(b, r, band, i)[x],
        forall|x: int| 0 <= x < band_cols(b, cols, r, band, i).len() ==> #[trigger] band_cols(b, cols, r, band, j)[x] == band_cols(b, cols, r, band, i)[x],
    decreases j - i,
{
    if i < j {
        lemma_band_prefix(b, cols, r, band, i, j - 1);
        lemma_band_lens(b, cols, r, band, i);
        lemma_band_lens(b, cols, r, band, j - 1);
        lemma_band_mono(b, r, band, i, j - 1);
        let pj = band_pairs(b, r, band, j - 1);
        let cj = band_cols(b, cols, r, band, j - 1);
        assert forall|x: int| 0 <= x < pj.len() implies #[trigger] band_pairs(b, r, band, j)[x] == pj[x] by {}
        assert forall|x: int| 0 <= x < cj.len() implies #[trigger] band_cols(b, cols, r, band, j)[x] == cj[x] by {}
    }
}

proof fn lemma_band_mono(b: Seq<(u16, u16)>, r: int, band: int, i: int, j: int)
    requires
        0 <= i <= j <= b.len(),
    ensures
        band_n(b, r, band, i) <= band_n(b, r, band, j),
        band_cols_n(b, r, band, i) <= band_cols_n(b, r, band, j),
    decreases j - i,
{
    if i < j {
        lemma_band_mono(b, r, band, i, j - 1);
    }
}

// ── decoding one record ──────────────────────────────────────────────────────

/// col_sum over adjacent column ranges adds.
proof fn lemma_col_sum_split(k: Seq<u8>, p: int, v: Seq<i128>, a: int, m: int, e: int)
    requires
        a <= m <= e,
    ensures
        col_sum(k, p, v, a, m) + col_sum(k, p, v, m, e) == col_sum(k, p, v, a, e),
    decreases e - m,
{
    if e > m {
        lemma_col_sum_split(k, p, v, a, m, e - 1);
    }
}

/// The facts a record's layout gives: its count, then its pairs, then its columns.
pub open spec fn laid_out(rec: Seq<u8>, n: int, pairs: Seq<u8>, cols: Seq<u8>) -> bool {
    &&& le16(rec, 0) == n
    &&& pairs.len() == 2 * n
    &&& rec.len() == 2 + pairs.len() + cols.len()
    &&& forall|y: int| 0 <= y < pairs.len() ==> #[trigger] rec[2 + y] == pairs[y]
    &&& forall|y: int| 0 <= y < cols.len() ==> #[trigger] rec[2 + pairs.len() + y] == cols[y]
}

proof fn lemma_rec_laid_out(row: RowFold, r: int, band: int)
    requires
        band_n(row.buckets@, r, band, row.buckets.len() as int) < 65536,
    ensures
        laid_out(
            rec_bytes(row, r, band),
            band_n(row.buckets@, r, band, row.buckets.len() as int),
            band_pairs(row.buckets@, r, band, row.buckets.len() as int),
            band_cols(row.buckets@, row.cols@, r, band, row.buckets.len() as int),
        ),
{
    let b = row.buckets@;
    let nb = b.len() as int;
    let n = band_n(b, r, band, nb);
    lemma_band_lens(b, row.cols@, r, band, nb);
    let h = le16_bytes(n % 65536);
    let rec = rec_bytes(row, r, band);
    assert(n % 65536 == n);
    assert(rec[0] == h[0] && rec[1] == h[1]);
    assert(n % 256 + 256 * (n / 256 % 256) == n);
}

/// The record's column at (band-wide) index band_cols_n(i) + u is bucket i's column u.
proof fn lemma_rec_column(row: RowFold, r: int, band: int, i: int, u: int)
    requires
        1 <= r,
        band_n(row.buckets@, r, band, row.buckets.len() as int) < 65536,
        0 <= i < row.buckets.len(),
        row.buckets@[i].0 as int % r == band,
        0 <= u < row.buckets@[i].1,
    ensures
        rec_col(rec_bytes(row, r, band), 0, band_cols_n(row.buckets@, r, band, i) + u) == row.cols@[bstart(row.buckets@, i) + u] as int,
{
    let b = row.buckets@;
    let cols = row.cols@;
    let nb = b.len() as int;
    let rec = rec_bytes(row, r, band);
    let n = band_n(b, r, band, nb);
    let c = band_cols(b, cols, r, band, nb);
    let t = band_cols_n(b, r, band, i);
    lemma_rec_laid_out(row, r, band);
    lemma_band_lens(b, cols, r, band, i);
    lemma_band_lens(b, cols, r, band, i + 1);
    lemma_band_lens(b, cols, r, band, nb);
    lemma_band_prefix(b, cols, r, band, i + 1, nb);
    lemma_band_mono(b, r, band, i + 1, nb);
    crate::fold::lemma_bstart_mono(b, i, i + 1);
    let run = col_bytes(cols, bstart(b, i), bstart(b, i + 1));
    lemma_col_bytes_len(cols, bstart(b, i), bstart(b, i + 1));
    lemma_col_bytes_at(cols, bstart(b, i), bstart(b, i + 1), bstart(b, i) + u);
    let ci = band_cols(b, cols, r, band, i + 1);
    assert(ci == band_cols(b, cols, r, band, i) + run);
    let j = t + u;
    assert(ci[2 * j] == run[2 * u] && ci[2 * j + 1] == run[2 * u + 1]);
    assert(c[2 * j] == ci[2 * j] && c[2 * j + 1] == ci[2 * j + 1]);
    assert(rec[2 + 2 * n + 2 * j] == c[2 * j]);
    assert(rec[2 + 2 * n + 2 * j + 1] == c[2 * j + 1]);
}

/// Bucket i's columns, read from the record, sum as the bucket's columns do.
proof fn lemma_rec_bucket_sum(row: RowFold, r: int, band: int, v: Seq<i128>, i: int, u: int)
    requires
        1 <= r,
        band_n(row.buckets@, r, band, row.buckets.len() as int) < 65536,
        0 <= i < row.buckets.len(),
        row.buckets@[i].0 as int % r == band,
        0 <= u <= row.buckets@[i].1,
    ensures
        col_sum(rec_bytes(row, r, band), 0, v, band_cols_n(row.buckets@, r, band, i), band_cols_n(row.buckets@, r, band, i) + u)
            == colsum(v, row.cols@, bstart(row.buckets@, i), bstart(row.buckets@, i) + u),
    decreases u,
{
    if u > 0 {
        lemma_rec_bucket_sum(row, r, band, v, i, u - 1);
        lemma_rec_column(row, r, band, i, u - 1);
    }
}

/// The first s pairs of bucket i: their counts, and their lane's column sums.
proof fn lemma_rec_pairs(row: RowFold, r: int, band: int, v: Seq<i128>, l: int, i: int, s: int)
    requires
        1 <= r,
        band_n(row.buckets@, r, band, row.buckets.len() as int) < 65536,
        forall|q: int| 0 <= q < row.buckets.len() ==> (#[trigger] row.buckets@[q].0) < 256 * r,
        0 <= i < row.buckets.len(),
        row.buckets@[i].0 as int % r == band,
        0 <= s <= pairs_of(row.buckets@[i].1 as int),
        ent_total(rec_bytes(row, r, band), 2, band_n(row.buckets@, r, band, i)) == band_cols_n(row.buckets@, r, band, i),
    ensures
        ({
            let b = row.buckets@;
            let rec = rec_bytes(row, r, band);
            let c = b[i].1 as int;
            let t = band_cols_n(b, r, band, i);
            let m = if 255 * s < c { 255 * s } else { c };
            &&& ent_total(rec, 2, band_n(b, r, band, i) + s) == t + m
            &&& ent_lane(rec, 0, v, l, band_n(b, r, band, i) + s) == ent_lane(rec, 0, v, l, band_n(b, r, band, i))
                + if b[i].0 as int / r == l { col_sum(rec, 0, v, t, t + m) } else { 0 }
        }),
    decreases s,
{
    let b = row.buckets@;
    let cols = row.cols@;
    let nb = b.len() as int;
    let rec = rec_bytes(row, r, band);
    let c = b[i].1 as int;
    let t = band_cols_n(b, r, band, i);
    let ni = band_n(b, r, band, i);
    if s > 0 {
        lemma_rec_pairs(row, r, band, v, l, i, s - 1);
        lemma_rec_laid_out(row, r, band);
        lemma_band_lens(b, cols, r, band, i);
        lemma_band_lens(b, cols, r, band, i + 1);
        lemma_band_lens(b, cols, r, band, nb);
        lemma_band_prefix(b, cols, r, band, i + 1, nb);
        lemma_band_mono(b, r, band, i + 1, nb);
        let lane = b[i].0 as int / r;
        lemma_split_len(lane, c);
        lemma_split_at(lane, c, s - 1);
        let pi = band_pairs(b, r, band, i + 1);
        let sp = split_pairs(lane, c);
        assert(pi == band_pairs(b, r, band, i) + sp);
        let j = ni + s - 1;
        let p = band_pairs(b, r, band, nb);
        assert(pi[2 * j] == sp[2 * (s - 1)] && pi[2 * j + 1] == sp[2 * (s - 1) + 1]);
        assert(p[2 * j] == pi[2 * j] && p[2 * j + 1] == pi[2 * j + 1]);
        assert(rec[2 + 2 * j] == p[2 * j]);
        assert(rec[2 + 2 * j + 1] == p[2 * j + 1]);
        assert(0 <= lane < 256) by {
            vstd::arithmetic::div_mod::lemma_div_is_ordered(b[i].0 as int, 256 * r - 1, r);
            vstd::arithmetic::div_mod::lemma_fundamental_div_mod_converse(256 * r - 1, r, 255, r - 1);
            vstd::arithmetic::div_mod::lemma_div_pos_is_pos(b[i].0 as int, r);
        }
        let m0 = if 255 * (s - 1) < c { 255 * (s - 1) } else { c };
        let m1 = if 255 * s < c { 255 * s } else { c };
        assert(255 * (s - 1) < c);
        lemma_col_sum_split(rec, 0, v, t, t + m0, t + m1);
    }
}

/// Decoding the first i buckets' pairs: their counts cover the band's columns so far, and
/// each lane gathers the column sums of its buckets.
proof fn lemma_rec_decode(row: RowFold, r: int, band: int, v: Seq<i128>, l: int, i: int)
    requires
        1 <= r,
        band_n(row.buckets@, r, band, row.buckets.len() as int) < 65536,
        forall|q: int| 0 <= q < row.buckets.len() ==> (#[trigger] row.buckets@[q].0) < 256 * r,
        0 <= i <= row.buckets.len(),
    ensures
        ent_total(rec_bytes(row, r, band), 2, band_n(row.buckets@, r, band, i)) == band_cols_n(row.buckets@, r, band, i),
        ent_lane(rec_bytes(row, r, band), 0, v, l, band_n(row.buckets@, r, band, i)) == band_lane(v, row.buckets@, row.cols@, r, band, l, i),
    decreases i,
{
    let b = row.buckets@;
    let rec = rec_bytes(row, r, band);
    if i > 0 {
        lemma_rec_decode(row, r, band, v, l, i - 1);
        if b[i - 1].0 as int % r == band {
            let c = b[i - 1].1 as int;
            let pc = pairs_of(c);
            lemma_rec_pairs(row, r, band, v, l, i - 1, pc);
            assert(255 * pc >= c) by {
                vstd::arithmetic::div_mod::lemma_fundamental_div_mod(c + 254, 255);
            }
            lemma_rec_bucket_sum(row, r, band, v, i - 1, c);
        }
    }
}

/// A record read back: its length is its bytes', and lane l holds the column sums of the band's
/// buckets in lane l.
proof fn lemma_rec_read(row: RowFold, r: int, band: int, v: Seq<i128>, l: int)
    requires
        1 <= r,
        band_n(row.buckets@, r, band, row.buckets.len() as int) < 65536,
        forall|q: int| 0 <= q < row.buckets.len() ==> (#[trigger] row.buckets@[q].0) < 256 * r,
    ensures
        crate::cub::rec_len(rec_bytes(row, r, band), 0) == rec_bytes(row, r, band).len(),
        ent_lane(rec_bytes(row, r, band), 0, v, l, le16(rec_bytes(row, r, band), 0)) == band_lane(
            v,
            row.buckets@,
            row.cols@,
            r,
            band,
            l,
            row.buckets.len() as int,
        ),
{
    let nb = row.buckets.len() as int;
    lemma_rec_laid_out(row, r, band);
    lemma_band_lens(row.buckets@, row.cols@, r, band, nb);
    lemma_rec_decode(row, r, band, v, l, nb);
}

// ── a record inside a tile ───────────────────────────────────────────────────

/// k holds rec at offset o.
pub open spec fn holds_at(k: Seq<u8>, o: int, rec: Seq<u8>) -> bool {
    &&& 0 <= o
    &&& o + rec.len() <= k.len()
    &&& forall|y: int| 0 <= y < rec.len() ==> #[trigger] k[o + y] == rec[y]
}

proof fn lemma_ent_total_at(k: Seq<u8>, o: int, rec: Seq<u8>, q: int, i: int)
    requires
        holds_at(k, o, rec),
        0 <= q,
        0 <= i,
        q + 2 * i <= rec.len(),
    ensures
        ent_total(k, o + q, i) == ent_total(rec, q, i),
    decreases i,
{
    if i > 0 {
        lemma_ent_total_at(k, o, rec, q, i - 1);
        assert(k[o + (q + 2 * (i - 1) + 1)] == rec[q + 2 * (i - 1) + 1]);
        assert(o + q + 2 * (i - 1) + 1 == o + (q + 2 * (i - 1) + 1));
    }
}

proof fn lemma_ent_total_grows(k: Seq<u8>, q: int, i: int, j: int)
    requires
        0 <= i <= j,
    ensures
        ent_total(k, q, i) <= ent_total(k, q, j),
    decreases j - i,
{
    if i < j {
        lemma_ent_total_grows(k, q, i, j - 1);
    }
}

proof fn lemma_col_sum_at(k: Seq<u8>, o: int, rec: Seq<u8>, v: Seq<i128>, a: int, e: int)
    requires
        holds_at(k, o, rec),
        rec.len() >= 2,
        a <= e,
        0 <= a,
        2 + 2 * le16(rec, 0) + 2 * e <= rec.len(),
    ensures
        col_sum(k, o, v, a, e) == col_sum(rec, 0, v, a, e),
    decreases e - a,
{
    assert(k[o + 0] == rec[0] && k[o + 1] == rec[1]);
    if e > a {
        lemma_col_sum_at(k, o, rec, v, a, e - 1);
        let y = 2 + 2 * le16(rec, 0) + 2 * (e - 1);
        assert(k[o + y] == rec[y] && k[o + (y + 1)] == rec[y + 1]);
        assert(o + 2 + 2 * le16(k, o) + 2 * (e - 1) == o + y);
    }
}

proof fn lemma_ent_lane_at(k: Seq<u8>, o: int, rec: Seq<u8>, v: Seq<i128>, l: int, i: int)
    requires
        holds_at(k, o, rec),
        rec.len() >= 2,
        0 <= i,
        2 + 2 * i <= rec.len(),
        2 + 2 * le16(rec, 0) + 2 * ent_total(rec, 2, i) <= rec.len(),
    ensures
        ent_lane(k, o, v, l, i) == ent_lane(rec, 0, v, l, i),
    decreases i,
{
    if i > 0 {
        lemma_ent_total_grows(rec, 2, i - 1, i);
        lemma_ent_lane_at(k, o, rec, v, l, i - 1);
        lemma_ent_total_at(k, o, rec, 2, i - 1);
        lemma_ent_total_at(k, o, rec, 2, i);
        lemma_ent_total_grows(rec, 2, 0, i - 1);
        assert(k[o + (2 + 2 * (i - 1))] == rec[2 + 2 * (i - 1)]);
        assert(o + 2 + 2 * (i - 1) == o + (2 + 2 * (i - 1)));
        lemma_col_sum_at(k, o, rec, v, ent_total(rec, 2, i - 1), ent_total(rec, 2, i));
    }
}

// ── the records of a tile ────────────────────────────────────────────────────

/// The record m of tile t: line m mod 128 of the tile at band m div 128.
pub open spec fn tile_rec(f: TensorFold, t: int, m: int) -> Seq<u8> {
    rec_bytes(f.rows_f[t * 128 + m % 128], f.rspan as int, m / 128)
}

/// Every record of tile t counts its pairs within a u16.
pub open spec fn tile_pairs_fit(f: TensorFold, t: int) -> bool {
    forall|line: int, band: int|
        0 <= line < 128 && 0 <= band < f.rspan ==> #[trigger] band_n(
            f.rows_f[t * 128 + line].buckets@,
            f.rspan as int,
            band,
            f.rows_f[t * 128 + line].buckets.len() as int,
        ) < 65536
}

/// A tile whose lines are rows of the fold, records fitting.
pub open spec fn tile_ok(f: TensorFold, t: int) -> bool {
    &&& tensor_wf(f)
    &&& 0 <= t
    &&& (t + 1) * 128 <= f.rows
    &&& tile_pairs_fit(f, t)
}

proof fn lemma_tile_holds(f: TensorFold, t: int, mm: int, m: int)
    requires
        0 <= m < mm,
    ensures
        holds_at(tile_bytes(f, t, mm), tile_bytes(f, t, m).len() as int, tile_rec(f, t, m)),
        tile_bytes(f, t, m + 1).len() == tile_bytes(f, t, m).len() + tile_rec(f, t, m).len(),
    decreases mm - m,
{
    assert(tile_bytes(f, t, m + 1) == tile_bytes(f, t, m) + tile_rec(f, t, m));
    if mm > m + 1 {
        lemma_tile_holds(f, t, mm - 1, m);
        assert(tile_bytes(f, t, mm) == tile_bytes(f, t, mm - 1) + tile_rec(f, t, mm - 1));
    }
}

/// Facts of record m's row that the decoding needs.
proof fn lemma_tile_row(f: TensorFold, t: int, m: int)
    requires
        tile_ok(f, t),
        0 <= m < f.rspan * 128,
    ensures
        1 <= f.rspan,
        0 <= t * 128 + m % 128 < f.rows,
        forall|q: int| 0 <= q < f.rows_f[t * 128 + m % 128].buckets.len() ==> (#[trigger] f.rows_f[t * 128 + m % 128].buckets@[q].0) < 256 * f.rspan,
        band_n(
            f.rows_f[t * 128 + m % 128].buckets@,
            f.rspan as int,
            m / 128,
            f.rows_f[t * 128 + m % 128].buckets.len() as int,
        ) < 65536,
{
    let o = t * 128 + m % 128;
    assert(f.rows_f[o].wf(f.rspan as int, f.cols as int));
    assert(0 <= m / 128 < f.rspan) by {
        vstd::arithmetic::div_mod::lemma_div_is_ordered(m, f.rspan * 128 - 1, 128);
        vstd::arithmetic::div_mod::lemma_fundamental_div_mod_converse(f.rspan * 128 - 1, 128, f.rspan - 1, 127);
    }
    assert(tile_pairs_fit(f, t));
    assert(band_n(f.rows_f[t * 128 + m % 128].buckets@, f.rspan as int, m / 128, f.rows_f[t * 128 + m % 128].buckets.len() as int) < 65536);
}

/// Where record m of a tile starts: after the bytes of the records before it.
proof fn lemma_tile_rec_at(f: TensorFold, t: int, m: int)
    requires
        tile_ok(f, t),
        0 <= m <= f.rspan * 128,
    ensures
        rec_at(tile_of(f, t), m) == tile_bytes(f, t, m).len(),
    decreases m,
{
    if m > 0 {
        let k = tile_of(f, t);
        let mm = f.rspan * 128;
        lemma_tile_rec_at(f, t, m - 1);
        lemma_tile_holds(f, t, mm, m - 1);
        lemma_tile_row(f, t, m - 1);
        let row = f.rows_f[t * 128 + (m - 1) % 128];
        let rec = tile_rec(f, t, m - 1);
        let o = tile_bytes(f, t, m - 1).len() as int;
        lemma_rec_read(row, f.rspan as int, (m - 1) / 128, Seq::empty(), 0);
        lemma_rec_laid_out(row, f.rspan as int, (m - 1) / 128);
        assert(k[o + 0] == rec[0] && k[o + 1] == rec[1]);
        lemma_ent_total_at(k, o, rec, 2, le16(rec, 0));
    }
}

/// Lane l of record m, read from the tile, gathers the band's buckets of its line in lane l.
proof fn lemma_tile_lane(f: TensorFold, t: int, m: int, v: Seq<i128>, l: int)
    requires
        tile_ok(f, t),
        0 <= m < f.rspan * 128,
    ensures
        rec_lane(tile_of(f, t), m, v, l) == band_lane(
            v,
            f.rows_f[t * 128 + m % 128].buckets@,
            f.rows_f[t * 128 + m % 128].cols@,
            f.rspan as int,
            m / 128,
            l,
            f.rows_f[t * 128 + m % 128].buckets.len() as int,
        ),
{
    let k = tile_of(f, t);
    let mm = f.rspan * 128;
    lemma_tile_rec_at(f, t, m);
    lemma_tile_holds(f, t, mm, m);
    lemma_tile_row(f, t, m);
    let row = f.rows_f[t * 128 + m % 128];
    let rec = tile_rec(f, t, m);
    let o = tile_bytes(f, t, m).len() as int;
    lemma_rec_read(row, f.rspan as int, m / 128, v, l);
    lemma_rec_laid_out(row, f.rspan as int, m / 128);
    lemma_band_lens(row.buckets@, row.cols@, f.rspan as int, m / 128, row.buckets.len() as int);
    lemma_rec_decode(row, f.rspan as int, m / 128, v, l, row.buckets.len() as int);
    assert(k[o + 0] == rec[0] && k[o + 1] == rec[1]);
    lemma_ent_lane_at(k, o, rec, v, l, le16(rec, 0));
}

// ── lanes by band ────────────────────────────────────────────────────────────

/// Σ over the first nb bands of lane l's band sum, band `band` weighted 2^(r − 1 − band).
pub open spec fn banded(v: Seq<i128>, b: Seq<(u16, u16)>, cols: Seq<u16>, r: int, l: int, nb: int, i: int) -> int
    decreases nb,
{
    if nb <= 0 {
        0
    } else {
        banded(v, b, cols, r, l, nb - 1, i) + pow2((r - 1 - (nb - 1)) as nat) * band_lane(v, b, cols, r, nb - 1, l, i)
    }
}

proof fn lemma_banded_step(v: Seq<i128>, b: Seq<(u16, u16)>, cols: Seq<u16>, r: int, l: int, nb: int, i: int)
    requires
        1 <= r,
        0 <= nb <= r,
        0 <= i < b.len(),
    ensures
        banded(v, b, cols, r, l, nb, i + 1) == banded(v, b, cols, r, l, nb, i) + if b[i].0 as int % r < nb && b[i].0 as int / r == l {
            pow2((r - 1 - b[i].0 as int % r) as nat) * bucket_sum(v, b, cols, i)
        } else {
            0
        },
    decreases nb,
{
    if nb > 0 {
        lemma_banded_step(v, b, cols, r, l, nb - 1, i);
        let w = pow2((r - 1 - (nb - 1)) as nat) as int;
        let x = band_lane(v, b, cols, r, nb - 1, l, i);
        let y = bucket_sum(v, b, cols, i);
        let hit = b[i].0 as int % r == nb - 1 && b[i].0 as int / r == l;
        assert(band_lane(v, b, cols, r, nb - 1, l, i + 1) == x + if hit { y } else { 0 });
        assert(banded(v, b, cols, r, l, nb, i + 1) == banded(v, b, cols, r, l, nb - 1, i + 1) + w * band_lane(v, b, cols, r, nb - 1, l, i + 1));
        assert(banded(v, b, cols, r, l, nb, i) == banded(v, b, cols, r, l, nb - 1, i) + w * x);
        if hit {
            assert(w * (x + y) == w * x + w * y) by (nonlinear_arith);
            assert(pow2((r - 1 - b[i].0 as int % r) as nat) == w);
        }
    }
}

/// A lane's landed sum is its band sums weighted by rung.
proof fn lemma_lane_sum_banded(v: Seq<i128>, b: Seq<(u16, u16)>, cols: Seq<u16>, r: int, l: int, i: int)
    requires
        1 <= r,
        0 <= i <= b.len(),
    ensures
        lane_sum(v, b, cols, r, i, l) == banded(v, b, cols, r, l, r, i),
    decreases i,
{
    if i > 0 {
        lemma_lane_sum_banded(v, b, cols, r, l, i - 1);
        lemma_banded_step(v, b, cols, r, l, r, i - 1);
        let k = b[i - 1].0 as int;
        assert(0 <= k % r < r);
        let w = pow2((r - 1 - k % r) as nat) as int;
        let y = bucket_sum(v, b, cols, i - 1);
        assert(landed(v, b, cols, r, i - 1) == y * w);
        assert(y * w == w * y) by (nonlinear_arith);
    } else {
        lemma_banded_empty(v, b, cols, r, l, r);
    }
}

proof fn lemma_banded_empty(v: Seq<i128>, b: Seq<(u16, u16)>, cols: Seq<u16>, r: int, l: int, nb: int)
    ensures
        banded(v, b, cols, r, l, nb, 0) == 0,
    decreases nb,
{
    if nb > 0 {
        lemma_banded_empty(v, b, cols, r, l, nb - 1);
    }
}

/// A line's lane over the tile's first nb bands is the row's band sums, weighted by rung.
proof fn lemma_tile_bands(f: TensorFold, t: int, line: int, v: Seq<i128>, l: int, nb: int)
    requires
        tile_ok(f, t),
        0 <= line < 128,
        0 <= nb <= f.rspan,
    ensures
        lane_bands(tile_of(f, t), v, line, l, nb, f.rspan - 1) == banded(
            v,
            f.rows_f[t * 128 + line].buckets@,
            f.rows_f[t * 128 + line].cols@,
            f.rspan as int,
            l,
            nb,
            f.rows_f[t * 128 + line].buckets.len() as int,
        ),
    decreases nb,
{
    if nb > 0 {
        lemma_tile_bands(f, t, line, v, l, nb - 1);
        let m = (nb - 1) * 128 + line;
        assert(m % 128 == line && m / 128 == nb - 1) by {
            vstd::arithmetic::div_mod::lemma_fundamental_div_mod_converse(m, 128, nb - 1, line);
        }
        lemma_tile_lane(f, t, m, v, l);
    }
}

// ── the law ──────────────────────────────────────────────────────────────────

/// Read back from a tile of the cube, every line holds exactly its row's fold value against
/// any plane, and so collapses to the same pattern: walking the cube's rung bands is the
/// fold's radix kernel.
pub proof fn lemma_cube_is_the_fold(f: TensorFold, t: int, line: int, v: Seq<i128>, sticky: bool)
    requires
        tile_ok(f, t),
        0 <= line < 128,
    ensures
        cub_dot(tile_of(f, t), v, f.rspan as int, line) == fold_dot(
            v,
            f.rows_f[t * 128 + line].buckets@,
            f.rows_f[t * 128 + line].cols@,
            f.rspan as int,
            f.rows_f[t * 128 + line].buckets.len() as int,
        ),
        cub_cell(tile_of(f, t), v, sticky, f.rspan as int, line, f.rmin as int) == fold_cell(
            v,
            sticky,
            f.rows_f[t * 128 + line],
            f.rspan as int,
            f.rmin as int,
        ),
{
    let row = f.rows_f[t * 128 + line];
    let b = row.buckets@;
    let cols = row.cols@;
    let r = f.rspan as int;
    let nb = b.len() as int;
    let k = tile_of(f, t);
    lemma_tile_row(f, t, line);
    assert(line % 128 == line);
    assert forall|sign: int| 0 <= sign < 2 implies #[trigger] cub_lanes(k, v, r, line, sign) =~= sign_lanes(v, b, cols, r, nb, sign) by {
        assert forall|j: int| 0 <= j < 128 implies #[trigger] cub_lanes(k, v, r, line, sign)[j] == sign_lanes(v, b, cols, r, nb, sign)[j] by {
            lemma_tile_bands(f, t, line, v, sign * 128 + j, r);
            lemma_lane_sum_banded(v, b, cols, r, sign * 128 + j, nb);
        }
    }
    assert(cub_lanes(k, v, r, line, 0) == sign_lanes(v, b, cols, r, nb, 0));
    assert(cub_lanes(k, v, r, line, 1) == sign_lanes(v, b, cols, r, nb, 1));
    crate::fold::lemma_fold_by_signs(v, b, cols, r);
}

} // verus!
