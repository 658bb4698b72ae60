//! The cube file: a PVL header (ASCII, padded to 64 B), then per tensor the tile index (u64 LE
//! byte offset of each tile block), then per tensor the tile blocks. Writing lays every fold
//! out band by band; reading recovers the tensors the header names.

use vstd::prelude::*;
use vstd::string::StringSliceAdditionalSpecFns;

use crate::cub::{CubFold, CubTensorSpec, LINE_TILE};
use crate::fold::{bstart, tensor_wf, RowFold, TensorFold};
use crate::surfaces::{digits_val, find_bytes, find_from, lemma_digits_grow, lemma_digits_nonneg, ws_len, ws_len_at};
use vstd::utf8::{decode_utf8, valid_utf8};

verus! {

/// Bytes of a cube header: the header is padded to a multiple of this.
pub const HEADER_PAD: usize = 64;

// ── little-endian and decimal text ───────────────────────────────────────────

/// The two little-endian bytes of a u16.
pub open spec fn le16_bytes(v: int) -> Seq<u8> {
    seq![(v % 256) as u8, (v / 256 % 256) as u8]
}

/// The w little-endian bytes of v.
pub open spec fn le_seq(v: int, w: nat) -> Seq<u8>
    decreases w,
{
    if w == 0 {
        seq![]
    } else {
        seq![(v % 256) as u8] + le_seq(v / 256, (w - 1) as nat)
    }
}

/// The decimal digits of n, most significant first.
pub open spec fn dec(n: nat) -> Seq<u8>
    decreases n,
{
    if n < 10 {
        seq![(48 + n) as u8]
    } else {
        dec(n / 10).push((48 + n % 10) as u8)
    }
}

/// A signed integer in decimal, '-' first when negative.
pub open spec fn idec(n: int) -> Seq<u8> {
    if n < 0 {
        seq![45u8] + dec((-n) as nat)
    } else {
        dec(n as nat)
    }
}

fn push_le16(out: &mut Vec<u8>, v: u16)
    ensures
        final(out)@ == old(out)@ + le16_bytes(v as int),
{
    out.push((v % 256) as u8);
    out.push((v / 256) as u8);
    proof {
        assert(final(out)@ =~= old(out)@ + le16_bytes(v as int));
    }
}

fn push_le64(out: &mut Vec<u8>, v: u64)
    ensures
        final(out)@ == old(out)@ + le_seq(v as int, 8),
{
    let ghost start = out@;
    let mut x = v;
    let mut w: usize = 0;
    proof {
        vstd::arithmetic::power::lemma_pow0(256);
    }
    while w < 8
        invariant
            0 <= w <= 8,
            x as int == v as int / vstd::arithmetic::power::pow(256, w as nat),
            out@ + le_seq(x as int, (8 - w) as nat) == start + le_seq(v as int, 8),
        decreases 8 - w,
    {
        proof {
            let rest = le_seq(x as int / 256, (8 - w - 1) as nat);
            assert(le_seq(x as int, (8 - w) as nat) == seq![(x as int % 256) as u8] + rest);
            assert(out@.push((x % 256) as u8) + rest =~= out@ + le_seq(x as int, (8 - w) as nat));
            vstd::arithmetic::power::lemma_pow_adds(256, w as nat, 1);
            vstd::arithmetic::power::lemma_pow1(256);
            vstd::arithmetic::power::lemma_pow_positive(256, w as nat);
            vstd::arithmetic::div_mod::lemma_div_denominator(v as int, vstd::arithmetic::power::pow(256, w as nat), 256);
        }
        out.push((x % 256) as u8);
        x = x / 256;
        w += 1;
    }
    proof {
        assert(le_seq(x as int, 0) =~= seq![]);
        assert(out@ =~= start + le_seq(v as int, 8));
    }
}

// ── the tile blocks ──────────────────────────────────────────────────────────

/// A bucket's (lane, count) pairs: counts of at most 255 each, in order.
pub open spec fn split_pairs(lane: int, cnt: int) -> Seq<u8>
    decreases cnt,
{
    if cnt <= 0 {
        seq![]
    } else if cnt <= 255 {
        seq![lane as u8, cnt as u8]
    } else {
        seq![lane as u8, 255u8] + split_pairs(lane, cnt - 255)
    }
}

/// How many pairs a bucket of `cnt` columns takes.
pub open spec fn pairs_of(cnt: int) -> int {
    (cnt + 254) / 255
}

/// The buckets among the first i whose rung is band `band` (key mod rspan): how many pairs they take.
pub open spec fn band_n(b: Seq<(u16, u16)>, r: int, band: int, i: int) -> int
    decreases i,
{
    if i <= 0 {
        0
    } else {
        band_n(b, r, band, i - 1) + if b[i - 1].0 as int % r == band {
            pairs_of(b[i - 1].1 as int)
        } else {
            0
        }
    }
}

/// Their pairs, lane = key div rspan.
pub open spec fn band_pairs(b: Seq<(u16, u16)>, r: int, band: int, i: int) -> Seq<u8>
    decreases i,
{
    if i <= 0 {
        seq![]
    } else {
        band_pairs(b, r, band, i - 1) + if b[i - 1].0 as int % r == band {
            split_pairs(b[i - 1].0 as int / r, b[i - 1].1 as int)
        } else {
            seq![]
        }
    }
}

/// Columns a..e as little-endian u16s.
pub open spec fn col_bytes(cols: Seq<u16>, a: int, e: int) -> Seq<u8>
    decreases e - a,
{
    if e <= a {
        seq![]
    } else {
        col_bytes(cols, a, e - 1) + le16_bytes(cols[e - 1] as int)
    }
}

/// Their columns, bucket after bucket.
pub open spec fn band_cols(b: Seq<(u16, u16)>, cols: Seq<u16>, r: int, band: int, i: int) -> Seq<u8>
    decreases i,
{
    if i <= 0 {
        seq![]
    } else {
        band_cols(b, cols, r, band, i - 1) + if b[i - 1].0 as int % r == band {
            col_bytes(cols, bstart(b, i - 1), bstart(b, i))
        } else {
            seq![]
        }
    }
}

/// The record of one row fold at one band: the pair count (as a u16), the pairs, the columns.
pub open spec fn rec_bytes(row: RowFold, r: int, band: int) -> Seq<u8> {
    let b = row.buckets@;
    let n = b.len() as int;
    le16_bytes(band_n(b, r, band, n) % 65536) + band_pairs(b, r, band, n) + band_cols(b, row.cols@, r, band, n)
}

/// The first m records of tile t of a fold: band-major, LINE_TILE lines per band.
pub open spec fn tile_bytes(f: TensorFold, t: int, m: int) -> Seq<u8>
    decreases m,
{
    if m <= 0 {
        seq![]
    } else {
        tile_bytes(f, t, m - 1) + rec_bytes(f.rows_f[t * 128 + (m - 1) % 128], f.rspan as int, (m - 1) / 128)
    }
}

/// Tile t of a fold, every band.
pub open spec fn tile_of(f: TensorFold, t: int) -> Seq<u8> {
    tile_bytes(f, t, f.rspan * 128)
}

fn push_record(out: &mut Vec<u8>, row: &RowFold, rspan: usize, band: usize, Ghost(in_f): Ghost<int>)
    requires
        row.wf(rspan as int, in_f),
        band < rspan,
    ensures
        final(out)@ == old(out)@ + rec_bytes(*row, rspan as int, band as int),
{
    let ghost b = row.buckets@;
    let ghost r = rspan as int;
    let ghost start = out@;
    let nb = row.buckets.len();
    let mut n: u16 = 0;
    let mut i: usize = 0;
    while i < nb
        invariant
            0 <= i <= nb,
            nb == row.buckets.len(),
            b == row.buckets@,
            r == rspan,
            1 <= rspan <= 256,
            n == band_n(b, r, band as int, i as int) % 65536,
        decreases nb - i,
    {
        let (key, cnt) = row.buckets[i];
        if (key as usize) % rspan == band {
            let pc = ((cnt as u32 + 254) / 255) as u16;
            proof {
                vstd::arithmetic::div_mod::lemma_add_mod_noop(band_n(b, r, band as int, i as int), pc as int, 65536);
                vstd::arithmetic::div_mod::lemma_small_mod(pc as nat, 65536);
            }
            n = n.wrapping_add(pc);
        }
        i += 1;
    }
    push_le16(out, n);
    let ghost mid = out@;
    i = 0;
    while i < nb
        invariant
            0 <= i <= nb,
            nb == row.buckets.len(),
            b == row.buckets@,
            r == rspan,
            1 <= rspan <= 256,
            row.wf(rspan as int, in_f),
            out@ == mid + band_pairs(b, r, band as int, i as int),
        decreases nb - i,
    {
        let (key, cnt) = row.buckets[i];
        if (key as usize) % rspan == band {
            proof {
                assert(key < 256 * rspan);
                vstd::arithmetic::div_mod::lemma_div_is_ordered(key as int, 256 * r - 1, r);
                vstd::arithmetic::div_mod::lemma_fundamental_div_mod_converse(256 * r - 1, r, 255, r - 1);
            }
            let lane = ((key as usize) / rspan) as u8;
            let ghost before = out@;
            let mut left: u16 = cnt;
            while left > 0
                invariant
                    out@ + split_pairs(lane as int, left as int) == before + split_pairs(lane as int, cnt as int),
                decreases left,
            {
                if left > 255 {
                    proof {
                        assert(out@.push(lane).push(255u8) + split_pairs(lane as int, left - 255) =~= out@
                            + split_pairs(lane as int, left as int));
                    }
                    out.push(lane);
                    out.push(255);
                    left = left - 255;
                } else {
                    proof {
                        assert(out@.push(lane).push(left as u8) + split_pairs(lane as int, 0) =~= out@ + split_pairs(
                            lane as int,
                            left as int,
                        ));
                    }
                    out.push(lane);
                    out.push(left as u8);
                    left = 0;
                }
            }
            proof {
                assert(split_pairs(lane as int, 0) =~= seq![]);
                assert(out@ =~= before + split_pairs(lane as int, cnt as int));
                assert(out@ =~= mid + band_pairs(b, r, band as int, i + 1));
            }
        } else {
            proof {
                assert(band_pairs(b, r, band as int, i + 1) =~= band_pairs(b, r, band as int, i as int));
            }
        }
        i += 1;
    }
    let ghost mid2 = out@;
    let mut c: usize = 0;
    i = 0;
    while i < nb
        invariant
            0 <= i <= nb,
            nb == row.buckets.len(),
            b == row.buckets@,
            r == rspan,
            1 <= rspan <= 256,
            row.wf(rspan as int, in_f),
            c == bstart(b, i as int),
            out@ == mid2 + band_cols(b, row.cols@, r, band as int, i as int),
        decreases nb - i,
    {
        let (key, cnt) = row.buckets[i];
        proof {
            crate::fold::lemma_bstart_mono(b, i + 1, nb as int);
        }
        if (key as usize) % rspan == band {
            let ghost before = out@;
            let mut u: usize = c;
            while u < c + cnt as usize
                invariant
                    c <= u <= c + cnt,
                    c + cnt <= row.cols.len(),
                    out@ == before + col_bytes(row.cols@, c as int, u as int),
                decreases c + cnt - u,
            {
                push_le16(out, row.cols[u]);
                u += 1;
            }
            proof {
                assert(out@ =~= mid2 + band_cols(b, row.cols@, r, band as int, i + 1));
            }
        } else {
            proof {
                assert(band_cols(b, row.cols@, r, band as int, i + 1) =~= band_cols(b, row.cols@, r, band as int, i as int));
            }
        }
        c = c + cnt as usize;
        i += 1;
    }
    proof {
        assert(out@ =~= start + rec_bytes(*row, r, band as int));
    }
}

/// Write tile t of a fold: every band top rung first, every line of the tile in each.
fn push_tile(out: &mut Vec<u8>, f: &TensorFold, t: usize)
    requires
        tensor_wf(*f),
        t * 128 + 128 <= f.rows,
    ensures
        final(out)@ == old(out)@ + tile_of(*f, t as int),
{
    let ghost start = out@;
    let mut band: usize = 0;
    while band < f.rspan
        invariant
            0 <= band <= f.rspan,
            tensor_wf(*f),
            t * 128 + 128 <= f.rows,
            out@ == start + tile_bytes(*f, t as int, band * 128),
        decreases f.rspan - band,
    {
        let mut line: usize = 0;
        while line < LINE_TILE
            invariant
                0 <= line <= 128,
                band < f.rspan,
                tensor_wf(*f),
                t * 128 + 128 <= f.rows,
                out@ == start + tile_bytes(*f, t as int, band * 128 + line),
            decreases 128 - line,
        {
            let o = t * 128 + line;
            proof {
                vstd::arithmetic::div_mod::lemma_fundamental_div_mod_converse(band * 128 + line, 128, band as int, line as int);
                assert(f.rows_f[o as int].wf(f.rspan as int, f.cols as int));
            }
            push_record(out, &f.rows_f[o], f.rspan, band, Ghost(f.cols as int));
            proof {
                assert(out@ =~= start + tile_bytes(*f, t as int, band * 128 + line + 1));
            }
            line += 1;
        }
        band += 1;
    }
}

// ── the header ───────────────────────────────────────────────────────────────

fn push_str(out: &mut Vec<u8>, s: &str)
    ensures
        final(out)@ == old(out)@ + s.spec_bytes(),
{
    let b = s.as_bytes();
    let ghost start = out@;
    let mut i: usize = 0;
    while i < b.len()
        invariant
            0 <= i <= b.len(),
            b@ == s.spec_bytes(),
            out@ == start + b@.subrange(0, i as int),
        decreases b.len() - i,
    {
        out.push(b[i]);
        i += 1;
        proof {
            assert(out@ =~= start + b@.subrange(0, i as int));
        }
    }
    proof {
        assert(b@.subrange(0, b.len() as int) =~= b@);
    }
}

fn push_dec(out: &mut Vec<u8>, n: u64)
    ensures
        final(out)@ == old(out)@ + dec(n as nat),
    decreases n,
{
    if n >= 10 {
        push_dec(out, n / 10);
    }
    out.push((48 + n % 10) as u8);
    proof {
        if n < 10 {
            assert(final(out)@ =~= old(out)@ + dec(n as nat));
        } else {
            assert(final(out)@ =~= old(out)@ + dec(n as nat));
        }
    }
}

fn push_idec(out: &mut Vec<u8>, n: i32)
    ensures
        final(out)@ == old(out)@ + idec(n as int),
{
    if n < 0 {
        out.push(45);
        let m = (-(n as i64)) as u64;
        push_dec(out, m);
        proof {
            assert(final(out)@ =~= old(out)@ + idec(n as int));
        }
    } else {
        push_dec(out, n as u64);
    }
}

/// One tensor's object in the header, written after `pre`.
#[verifier::opaque]
pub open spec fn tensor_onto(pre: Seq<u8>, t: CubTensorSpec) -> Seq<u8> {
    pre + "  Object = Tensor\n".spec_bytes() + "    Name       = \"".spec_bytes() + vstd::utf8::encode_utf8(t.name@)
        + "\"\n".spec_bytes() + "    Lines      = ".spec_bytes() + dec(t.rows as nat) + "\n    Samples    = ".spec_bytes()
        + dec(t.cols as nat) + "\n".spec_bytes() + "    RungMin    = ".spec_bytes() + idec(t.rmin as int)
        + "\n    RungMax    = ".spec_bytes() + idec(t.rmax as int) + "\n    Bands      = ".spec_bytes() + dec(
        ((t.rmax - t.rmin + 1) as usize) as nat,
    ) + "\n".spec_bytes() + "    Tiles      = ".spec_bytes() + dec(t.tiles as nat) + "\n    IndexByte  = ".spec_bytes()
        + dec((t.index_start + 1) as nat) + "\n    BodyByte   = ".spec_bytes() + dec((t.body_start + 1) as nat)
        + "\n    BodyBytes  = ".spec_bytes() + dec(t.body_bytes as nat) + "\n".spec_bytes() + "  End_Object\n".spec_bytes()
}

/// The first n tensors' objects, written after `pre`.
pub open spec fn tensors_onto(pre: Seq<u8>, specs: Seq<CubTensorSpec>, n: int) -> Seq<u8>
    decreases n,
{
    if n <= 0 {
        pre
    } else {
        tensor_onto(tensors_onto(pre, specs, n - 1), specs[n - 1])
    }
}

/// The header's core and label objects, written after `pre`: where the body starts, the
/// layout, the model, the intake seal, the floor, the tensor count and the file length.
#[verifier::opaque]
pub open spec fn label_onto(pre: Seq<u8>, m: Seq<u8>, seal: Seq<u8>, n: nat, hl: int, fl: int) -> Seq<u8> {
    pre + "Object = IsisCube\n".spec_bytes()
        + "  /* Atlas Engine fold cube: the third surface, banded by rung. Lineage: V5 master.cub. */\n".spec_bytes()
        + "  Object = Core\n".spec_bytes() + "    StartByte   = ".spec_bytes() + dec((hl + 1) as nat) + "\n".spec_bytes()
        + "    Format      = RungBanded\n".spec_bytes() + "    LineTile    = ".spec_bytes() + dec(128) + "\n".spec_bytes()
        + "    Group = Pixels\n      Type = UnsignedWord\n      ByteOrder = Lsb\n      Meaning = \"column index; lane byte = sign*128 + (odd-1)/2; band = rmax - rung\"\n    End_Group\n".spec_bytes()
        + "  End_Object\n".spec_bytes() + "  Object = Label\n".spec_bytes() + "    Model       = \"".spec_bytes() + m
        + "\"\n".spec_bytes() + "    IntakeSeal  = ".spec_bytes() + seal + "\n".spec_bytes()
        + "    Floor       = \"activations below 2^-90 dropped with sticky; above it every term exact\"\n".spec_bytes()
        + "    Tensors     = ".spec_bytes() + dec(n) + "\n".spec_bytes() + "    FileBytes   = ".spec_bytes()
        + dec(fl as nat) + "\n".spec_bytes() + "  End_Object\n".spec_bytes()
}

/// The PVL header: the core and label objects, one object per tensor, and the end.
#[verifier::opaque]
pub open spec fn header_text(m: Seq<u8>, seal: Seq<u8>, specs: Seq<CubTensorSpec>, hl: int, fl: int) -> Seq<u8> {
    tensors_onto(label_onto(seq![], m, seal, specs.len(), hl, fl), specs, specs.len() as int)
        + "End_Object\nEnd\n".spec_bytes()
}

/// Every number the header prints fits a word with room for the one-based offsets.
pub open spec fn printable(t: CubTensorSpec) -> bool {
    &&& t.index_start < usize::MAX
    &&& t.body_start < usize::MAX
    &&& i32::MIN <= t.rmax - t.rmin < i32::MAX
}

fn push_tensor(out: &mut Vec<u8>, t: &CubTensorSpec)
    requires
        printable(*t),
    ensures
        final(out)@ == tensor_onto(old(out)@, *t),
{
    reveal(tensor_onto);
    let ghost start = out@;
    push_str(out, "  Object = Tensor\n");
    push_str(out, "    Name       = \"");
    push_str(out, t.name.as_str());
    push_str(out, "\"\n");
    push_str(out, "    Lines      = ");
    push_dec(out, t.rows as u64);
    push_str(out, "\n    Samples    = ");
    push_dec(out, t.cols as u64);
    push_str(out, "\n");
    push_str(out, "    RungMin    = ");
    push_idec(out, t.rmin);
    push_str(out, "\n    RungMax    = ");
    push_idec(out, t.rmax);
    push_str(out, "\n    Bands      = ");
    push_dec(out, t.bands() as u64);
    push_str(out, "\n");
    push_str(out, "    Tiles      = ");
    push_dec(out, t.tiles as u64);
    push_str(out, "\n    IndexByte  = ");
    push_dec(out, (t.index_start + 1) as u64);
    push_str(out, "\n    BodyByte   = ");
    push_dec(out, (t.body_start + 1) as u64);
    push_str(out, "\n    BodyBytes  = ");
    push_dec(out, t.body_bytes as u64);
    push_str(out, "\n");
    push_str(out, "  End_Object\n");
}

#[verifier::spinoff_prover]
#[verifier::rlimit(50)]
fn push_header(out: &mut Vec<u8>, m: &str, seal: &str, specs: &Vec<CubTensorSpec>, hl: usize, fl: usize)
    requires
        hl < usize::MAX,
        forall|i: int| 0 <= i < specs.len() ==> printable(#[trigger] specs[i]),
    ensures
        old(out)@.len() == 0 ==> final(out)@ == header_text(m.spec_bytes(), seal.spec_bytes(), specs@, hl as int, fl as int),
{
    reveal(label_onto);
    reveal(header_text);
    let ghost start = out@;
    push_str(out, "Object = IsisCube\n");
    push_str(out, "  /* Atlas Engine fold cube: the third surface, banded by rung. Lineage: V5 master.cub. */\n");
    push_str(out, "  Object = Core\n");
    push_str(out, "    StartByte   = ");
    push_dec(out, (hl + 1) as u64);
    push_str(out, "\n");
    push_str(out, "    Format      = RungBanded\n");
    push_str(out, "    LineTile    = ");
    push_dec(out, LINE_TILE as u64);
    push_str(out, "\n");
    push_str(
        out,
        "    Group = Pixels\n      Type = UnsignedWord\n      ByteOrder = Lsb\n      Meaning = \"column index; lane byte = sign*128 + (odd-1)/2; band = rmax - rung\"\n    End_Group\n",
    );
    push_str(out, "  End_Object\n");
    push_str(out, "  Object = Label\n");
    push_str(out, "    Model       = \"");
    push_str(out, m);
    push_str(out, "\"\n");
    push_str(out, "    IntakeSeal  = ");
    push_str(out, seal);
    push_str(out, "\n");
    push_str(out, "    Floor       = \"activations below 2^-90 dropped with sticky; above it every term exact\"\n");
    push_str(out, "    Tensors     = ");
    push_dec(out, specs.len() as u64);
    push_str(out, "\n");
    push_str(out, "    FileBytes   = ");
    push_dec(out, fl as u64);
    push_str(out, "\n");
    push_str(out, "  End_Object\n");
    let ghost mid = out@;
    let mut i: usize = 0;
    while i < specs.len()
        invariant
            0 <= i <= specs.len(),
            forall|j: int| 0 <= j < specs.len() ==> printable(#[trigger] specs[j]),
            out@ == tensors_onto(mid, specs@, i as int),
        decreases specs.len() - i,
    {
        push_tensor(out, &specs[i]);
        i += 1;
    }
    push_str(out, "End_Object\nEnd\n");
    proof {
        if start.len() == 0 {
            assert(start =~= seq![]);
        }
    }
}

// ── the whole cube ───────────────────────────────────────────────────────────

/// The first n tiles of a fold, back to back.
pub open spec fn fold_body(f: TensorFold, n: int) -> Seq<u8>
    decreases n,
{
    if n <= 0 {
        seq![]
    } else {
        fold_body(f, n - 1) + tile_of(f, n - 1)
    }
}

/// A fold the cube can hold: well formed, whole line tiles, one band per rung.
pub open spec fn cubable(f: TensorFold) -> bool {
    &&& tensor_wf(f)
    &&& f.rows % 128 == 0
    &&& f.rspan == f.rmax - f.rmin + 1
}

/// A tensor's entry before it is placed: its shape, rungs, tiles and body length.
pub open spec fn base_spec(name: String, f: TensorFold) -> CubTensorSpec {
    CubTensorSpec {
        name,
        rows: f.rows,
        cols: f.cols,
        rmin: f.rmin,
        rmax: f.rmax,
        tiles: (f.rows / 128) as usize,
        index_start: 0,
        body_start: 0,
        body_bytes: fold_body(f, (f.rows / 128) as int).len() as usize,
    }
}

pub open spec fn base_specs(folds: Seq<(String, &TensorFold)>) -> Seq<CubTensorSpec> {
    Seq::new(folds.len(), |i: int| base_spec(folds[i].0, *folds[i].1))
}

/// Σ tiles of the first i tensors.
pub open spec fn tiles_before(base: Seq<CubTensorSpec>, i: int) -> int
    decreases i,
{
    if i <= 0 {
        0
    } else {
        tiles_before(base, i - 1) + base[i - 1].tiles
    }
}

/// Σ body bytes of the first i tensors.
pub open spec fn bytes_before(base: Seq<CubTensorSpec>, i: int) -> int
    decreases i,
{
    if i <= 0 {
        0
    } else {
        bytes_before(base, i - 1) + base[i - 1].body_bytes
    }
}

/// The tensors placed behind a header of h bytes: all indices first, then all bodies.
pub open spec fn placed(base: Seq<CubTensorSpec>, h: int) -> Seq<CubTensorSpec> {
    Seq::new(
        base.len(),
        |i: int|
            CubTensorSpec {
                index_start: (h + 8 * tiles_before(base, i)) as usize,
                body_start: (h + 8 * tiles_before(base, base.len() as int) + bytes_before(base, i)) as usize,
                ..base[i]
            },
    )
}

/// The file length behind a header of h bytes.
pub open spec fn file_end(base: Seq<CubTensorSpec>, h: int) -> int {
    h + 8 * tiles_before(base, base.len() as int) + bytes_before(base, base.len() as int)
}

/// n rounded up to a multiple of 64.
pub open spec fn ceil64(n: int) -> int {
    (n + 63) / 64 * 64
}

/// The header for a header length of h.
pub open spec fn text_at(m: Seq<u8>, seal: Seq<u8>, base: Seq<CubTensorSpec>, h: int) -> Seq<u8> {
    header_text(m, seal, placed(base, h), h, file_end(base, h))
}

/// The header length the first composition asks for.
pub open spec fn first_h(m: Seq<u8>, seal: Seq<u8>, base: Seq<CubTensorSpec>) -> int {
    ceil64(header_text(m, seal, base, 0, 0).len() as int)
}

/// Settling the header length: compose at h; if the padded length is h, done; else try the
/// padded length, at most `rounds` times. (The length the offsets were placed with, the
/// length the header is padded to.)
pub open spec fn settle(m: Seq<u8>, seal: Seq<u8>, base: Seq<CubTensorSpec>, h: int, rounds: nat) -> (int, int)
    decreases rounds,
{
    let nh = ceil64(text_at(m, seal, base, h).len() as int);
    if nh == h || rounds <= 1 {
        (h, nh)
    } else {
        settle(m, seal, base, nh, (rounds - 1) as nat)
    }
}

/// Every offset and header length met while settling fits a word.
pub open spec fn settle_fits(m: Seq<u8>, seal: Seq<u8>, base: Seq<CubTensorSpec>, h: int, rounds: nat) -> bool
    decreases rounds,
{
    let nh = ceil64(text_at(m, seal, base, h).len() as int);
    &&& 0 <= h
    &&& file_end(base, h) + 64 <= usize::MAX
    &&& text_at(m, seal, base, h).len() + 64 <= usize::MAX
    &&& (nh == h || rounds <= 1 || settle_fits(m, seal, base, nh, (rounds - 1) as nat))
}

/// The cube's sizes fit a word.
pub open spec fn cube_fits(m: Seq<u8>, seal: Seq<u8>, folds: Seq<(String, &TensorFold)>) -> bool {
    &&& header_text(m, seal, base_specs(folds), 0, 0).len() + 64 <= usize::MAX
    &&& settle_fits(m, seal, base_specs(folds), first_h(m, seal, base_specs(folds)), 3)
}

/// The header padded with spaces (or cut) to n bytes.
pub open spec fn pad(b: Seq<u8>, n: int) -> Seq<u8> {
    if b.len() >= n {
        b.subrange(0, n)
    } else {
        b + Seq::new((n - b.len()) as nat, |i: int| 32u8)
    }
}

/// The index entries of a fold's first t tiles: each tile's byte offset, from the body start.
pub open spec fn tile_index(f: TensorFold, start: int, t: int) -> Seq<u8>
    decreases t,
{
    if t <= 0 {
        seq![]
    } else {
        tile_index(f, start, t - 1) + le_seq(start + fold_body(f, t - 1).len(), 8)
    }
}

/// The index of the first i tensors.
pub open spec fn index_of(folds: Seq<(String, &TensorFold)>, specs: Seq<CubTensorSpec>, i: int) -> Seq<u8>
    decreases i,
{
    if i <= 0 {
        seq![]
    } else {
        index_of(folds, specs, i - 1) + tile_index(*folds[i - 1].1, specs[i - 1].body_start as int, specs[i - 1].tiles as int)
    }
}

/// The bodies of the first i tensors.
pub open spec fn bodies_of(folds: Seq<(String, &TensorFold)>, i: int) -> Seq<u8>
    decreases i,
{
    if i <= 0 {
        seq![]
    } else {
        bodies_of(folds, i - 1) + fold_body(*folds[i - 1].1, (folds[i - 1].1.rows / 128) as int)
    }
}

/// The cube file of the folds: the settled header, the indices, the bodies.
pub open spec fn cube_file(m: Seq<u8>, seal: Seq<u8>, folds: Seq<(String, &TensorFold)>) -> Seq<u8> {
    let base = base_specs(folds);
    let (used, fin) = settle(m, seal, base, first_h(m, seal, base), 3);
    pad(text_at(m, seal, base, used), fin) + index_of(folds, placed(base, used), folds.len() as int) + bodies_of(
        folds,
        folds.len() as int,
    )
}

/// The tensor entries the cube's header holds.
pub open spec fn cube_specs(m: Seq<u8>, seal: Seq<u8>, folds: Seq<(String, &TensorFold)>) -> Seq<CubTensorSpec> {
    let base = base_specs(folds);
    placed(base, settle(m, seal, base, first_h(m, seal, base), 3).0)
}

/// One fold's tiles, and each tile's length.
fn fold_bytes(f: &TensorFold) -> (r: (Vec<u8>, Vec<u64>))
    requires
        cubable(*f),
    ensures
        r.0@ == fold_body(*f, (f.rows / 128) as int),
        r.1.len() == f.rows / 128,
        forall|t: int| 0 <= t < r.1.len() ==> #[trigger] r.1[t] == tile_of(*f, t).len(),
{
    let tiles = f.rows / LINE_TILE;
    let mut body: Vec<u8> = Vec::new();
    let mut sizes: Vec<u64> = Vec::new();
    let mut t: usize = 0;
    while t < tiles
        invariant
            0 <= t <= tiles,
            tiles == f.rows / 128,
            cubable(*f),
            body@ == fold_body(*f, t as int),
            sizes.len() == t,
            forall|u: int| 0 <= u < t ==> #[trigger] sizes[u] == tile_of(*f, u).len(),
        decreases tiles - t,
    {
        let before = body.len();
        proof {
            assert(t * 128 + 128 <= f.rows) by (nonlinear_arith)
                requires t < tiles, tiles == f.rows / 128, f.rows % 128 == 0, f.rows == 128 * (f.rows / 128);
        }
        push_tile(&mut body, f, t);
        sizes.push((body.len() - before) as u64);
        t += 1;
    }
    (body, sizes)
}

pub(crate) proof fn lemma_before_mono(base: Seq<CubTensorSpec>, i: int, j: int)
    requires
        0 <= i <= j,
    ensures
        tiles_before(base, i) <= tiles_before(base, j),
        bytes_before(base, i) <= bytes_before(base, j),
        0 <= tiles_before(base, i),
        0 <= bytes_before(base, i),
    decreases j,
{
    if j > i {
        lemma_before_mono(base, i, j - 1);
    } else if i > 0 {
        lemma_before_mono(base, 0, i - 1);
        lemma_before_mono(base, i - 1, i - 1);
    }
}

/// Place the tensors behind a header of h bytes.
fn place(specs: &mut Vec<CubTensorSpec>, h: usize, Ghost(base): Ghost<Seq<CubTensorSpec>>)
    requires
        old(specs).len() == base.len(),
        forall|i: int| 0 <= i < base.len() ==> (#[trigger] old(specs)[i]).name == base[i].name && old(specs)[i].tiles == base[i].tiles
            && old(specs)[i].body_bytes == base[i].body_bytes && old(specs)[i].rows == base[i].rows && old(specs)[i].cols
            == base[i].cols && old(specs)[i].rmin == base[i].rmin && old(specs)[i].rmax == base[i].rmax,
        file_end(base, h as int) + 64 <= usize::MAX,
    ensures
        final(specs)@ == placed(base, h as int),
{
    let n = specs.len();
    let mut all_tiles: usize = 0;
    let mut i: usize = 0;
    while i < n
        invariant
            0 <= i <= n,
            n == specs.len(),
            n == base.len(),
            forall|j: int| 0 <= j < base.len() ==> (#[trigger] specs[j]).tiles == base[j].tiles,
            all_tiles == tiles_before(base, i as int),
            file_end(base, h as int) + 64 <= usize::MAX,
        decreases n - i,
    {
        proof {
            lemma_before_mono(base, i + 1, n as int);
            lemma_before_mono(base, 0, n as int);
        }
        all_tiles = all_tiles + specs[i].tiles;
        i += 1;
    }
    let mut tb: usize = 0;
    let mut bb: usize = 0;
    i = 0;
    while i < n
        invariant
            0 <= i <= n,
            n == specs.len(),
            n == base.len(),
            all_tiles == tiles_before(base, n as int),
            tb == tiles_before(base, i as int),
            bb == bytes_before(base, i as int),
            file_end(base, h as int) + 64 <= usize::MAX,
            forall|j: int| 0 <= j < i ==> #[trigger] specs[j] == placed(base, h as int)[j],
            forall|j: int|
                i <= j < n ==> (#[trigger] specs[j]).name == base[j].name && specs[j].tiles == base[j].tiles && specs[j].body_bytes
                    == base[j].body_bytes && specs[j].rows == base[j].rows && specs[j].cols == base[j].cols && specs[j].rmin
                    == base[j].rmin && specs[j].rmax == base[j].rmax,
        decreases n - i,
    {
        proof {
            lemma_before_mono(base, i + 1, n as int);
            lemma_before_mono(base, 0, i as int);
        }
        let t = CubTensorSpec {
            name: specs[i].name.clone(),
            rows: specs[i].rows,
            cols: specs[i].cols,
            rmin: specs[i].rmin,
            rmax: specs[i].rmax,
            tiles: specs[i].tiles,
            index_start: h + 8 * tb,
            body_start: h + 8 * all_tiles + bb,
            body_bytes: specs[i].body_bytes,
        };
        tb = tb + t.tiles;
        bb = bb + t.body_bytes;
        let ghost old_specs = specs@;
        specs.set(i, t);
        proof {
            assert(specs[i as int] == placed(base, h as int)[i as int]);
            assert forall|j: int| 0 <= j < i + 1 implies #[trigger] specs[j] == placed(base, h as int)[j] by {
                if j < i {
                    assert(specs[j] == old_specs[j]);
                }
            }
        }
        i += 1;
    }
    proof {
        assert(specs@ =~= placed(base, h as int));
    }
}

proof fn lemma_fold_body_prefix(f: TensorFold, t: int, n: int)
    requires
        0 <= t <= n,
    ensures
        fold_body(f, t).len() <= fold_body(f, n).len(),
    decreases n,
{
    if n > t {
        lemma_fold_body_prefix(f, t, n - 1);
    }
}

/// Every fold's body fits a word.
pub open spec fn bodies_fit(folds: Seq<(String, &TensorFold)>) -> bool {
    forall|j: int| 0 <= j < folds.len() ==> (#[trigger] fold_body(*folds[j].1, (folds[j].1.rows / 128) as int)).len() <= usize::MAX
}

pub(crate) proof fn lemma_placed_printable(base: Seq<CubTensorSpec>, folds: Seq<(String, &TensorFold)>, h: int)
    requires
        base == base_specs(folds),
        forall|j: int| 0 <= j < folds.len() ==> cubable(*(#[trigger] folds[j]).1),
        0 <= h,
        file_end(base, h) + 64 <= usize::MAX,
    ensures
        forall|j: int| 0 <= j < base.len() ==> printable(#[trigger] placed(base, h)[j]),
{
    assert forall|j: int| 0 <= j < base.len() implies printable(#[trigger] placed(base, h)[j]) by {
        lemma_before_mono(base, j, base.len() as int);
        lemma_before_mono(base, j + 1, base.len() as int);
        assert(cubable(*folds[j].1));
    }
}

/// Settle the header length from h0: place the tensors, compose, pad to 64, until the length
/// holds or three rounds are spent.
#[verifier::rlimit(60)]
fn settle_header(
    model_id: &str,
    intake_seal: &str,
    specs: &mut Vec<CubTensorSpec>,
    all_tiles: usize,
    all_bytes: usize,
    h0: usize,
    Ghost(base): Ghost<Seq<CubTensorSpec>>,
    Ghost(folds): Ghost<Seq<(String, &TensorFold)>>,
) -> (r: (Vec<u8>, usize, Ghost<int>))
    requires
        base == base_specs(folds),
        forall|j: int| 0 <= j < folds.len() ==> cubable(*(#[trigger] folds[j]).1),
        old(specs)@ == base,
        all_tiles == tiles_before(base, base.len() as int),
        all_bytes == bytes_before(base, base.len() as int),
        settle_fits(model_id.spec_bytes(), intake_seal.spec_bytes(), base, h0 as int, 3),
    ensures
        (r.2@, r.1 as int) == settle(model_id.spec_bytes(), intake_seal.spec_bytes(), base, h0 as int, 3),
        final(specs)@ == placed(base, r.2@),
        r.0@ == text_at(model_id.spec_bytes(), intake_seal.spec_bytes(), base, r.2@),
        file_end(base, r.2@) + 64 <= usize::MAX,
        r.2@ >= 0,
{
    let n = specs.len();
    let mut hlen = h0;
    let mut header: Vec<u8> = Vec::new();
    let ghost mut used: int = 0;
    let mut round: usize = 0;
    let mut done = false;
    while !done
        invariant
            n == specs.len(),
            n == base.len(),
            base == base_specs(folds),
            forall|j: int| 0 <= j < folds.len() ==> cubable(*(#[trigger] folds[j]).1),
            forall|j: int|
                0 <= j < base.len() ==> (#[trigger] specs[j]).name == base[j].name && specs[j].tiles == base[j].tiles
                    && specs[j].body_bytes == base[j].body_bytes && specs[j].rows == base[j].rows && specs[j].cols
                    == base[j].cols && specs[j].rmin == base[j].rmin && specs[j].rmax == base[j].rmax,
            all_tiles == tiles_before(base, n as int),
            all_bytes == bytes_before(base, n as int),
            round <= 3,
            !done ==> round < 3 && settle(model_id.spec_bytes(), intake_seal.spec_bytes(), base, h0 as int, 3) == settle(model_id.spec_bytes(), intake_seal.spec_bytes(), base, hlen as int, (3 - round) as nat)
                && settle_fits(model_id.spec_bytes(), intake_seal.spec_bytes(), base, hlen as int, (3 - round) as nat),
            done ==> (used, hlen as int) == settle(model_id.spec_bytes(), intake_seal.spec_bytes(), base, h0 as int, 3) && specs@ == placed(base, used) && header@
                == text_at(model_id.spec_bytes(), intake_seal.spec_bytes(), base, used) && file_end(base, used) + 64 <= usize::MAX && used >= 0,
        decreases 3 - round,
    {
        place(specs, hlen, Ghost(base));
        let fe = hlen + 8 * all_tiles + all_bytes;
        proof {
            lemma_placed_printable(base, folds, hlen as int);
        }
        let mut fresh: Vec<u8> = Vec::new();
        assert(fresh@.len() == 0);
        push_header(&mut fresh, model_id, intake_seal, specs, hlen, fe);
        header = fresh;
        proof {
            assert(fe == file_end(base, hlen as int));
            assert(specs@ == placed(base, hlen as int));
            assert(header@ == header_text(model_id.spec_bytes(), intake_seal.spec_bytes(), specs@, hlen as int, fe as int));
            assert(header@ == text_at(model_id.spec_bytes(), intake_seal.spec_bytes(), base, hlen as int));
            assert(settle_fits(model_id.spec_bytes(), intake_seal.spec_bytes(), base, hlen as int, (3 - round) as nat));
            assert(text_at(model_id.spec_bytes(), intake_seal.spec_bytes(), base, hlen as int).len() + 64 <= usize::MAX);
            assert(file_end(base, hlen as int) + 64 <= usize::MAX);
        }
        let nh = (header.len() + 63) / 64 * 64;
        proof {
            assert(nh == ceil64(text_at(model_id.spec_bytes(), intake_seal.spec_bytes(), base, hlen as int).len() as int));
        }
        if nh == hlen || round == 2 {
            done = true;
            proof {
                used = hlen as int;
            }
        }
        hlen = nh;
        round += 1;
    }
    (header, hlen, Ghost(used))
}

/// The cube file of the folds, in the given order, and the tensor entries its header holds.
#[verifier::rlimit(60)]
pub fn cube_bytes(model_id: &str, intake_seal: &str, folds: &[(String, &TensorFold)]) -> (r: (Vec<u8>, Vec<CubTensorSpec>))
    requires
        forall|i: int| 0 <= i < folds.len() ==> cubable(*(#[trigger] folds[i]).1),
        cube_fits(model_id.spec_bytes(), intake_seal.spec_bytes(), folds@),
    ensures
        r.0@ == cube_file(model_id.spec_bytes(), intake_seal.spec_bytes(), folds@),
        r.1@ == cube_specs(model_id.spec_bytes(), intake_seal.spec_bytes(), folds@),
{
    let ghost m = model_id.spec_bytes();
    let ghost seal = intake_seal.spec_bytes();
    let ghost base = base_specs(folds@);
    let n = folds.len();
    let mut all_bodies: Vec<u8> = Vec::new();
    let mut sizes: Vec<Vec<u64>> = Vec::new();
    let mut specs: Vec<CubTensorSpec> = Vec::new();
    let mut i: usize = 0;
    while i < n
        invariant
            0 <= i <= n,
            n == folds.len(),
            base == base_specs(folds@),
            forall|j: int| 0 <= j < folds.len() ==> cubable(*(#[trigger] folds[j]).1),
            specs.len() == i,
            forall|j: int| 0 <= j < i ==> #[trigger] specs[j] == base[j],
            sizes.len() == i,
            forall|j: int| 0 <= j < i ==> (#[trigger] sizes[j]).len() == base[j].tiles,
            forall|j: int, t: int| 0 <= j < i && 0 <= t < base[j].tiles ==> #[trigger] sizes[j][t] == tile_of(*folds[j].1, t).len(),
            all_bodies@ == bodies_of(folds@, i as int),
            forall|j: int| 0 <= j < i ==> (#[trigger] fold_body(*folds[j].1, (folds[j].1.rows / 128) as int)).len() <= usize::MAX,
        decreases n - i,
    {
        let f = folds[i].1;
        let (mut body, sz) = fold_bytes(f);
        let t = CubTensorSpec {
            name: folds[i].0.clone(),
            rows: f.rows,
            cols: f.cols,
            rmin: f.rmin,
            rmax: f.rmax,
            tiles: f.rows / LINE_TILE,
            index_start: 0,
            body_start: 0,
            body_bytes: body.len(),
        };
        proof {
            assert(t == base[i as int]);
        }
        specs.push(t);
        sizes.push(sz);
        all_bodies.append(&mut body);
        i += 1;
    }
    proof {
        assert(specs@ =~= base);
        assert(bodies_fit(folds@));
    }
    let mut header: Vec<u8> = Vec::new();
    push_header(&mut header, model_id, intake_seal, &specs, 0, 0);
    let mut hlen = (header.len() + 63) / 64 * 64;
    proof {
        lemma_before_mono(base, 0, n as int);
    }
    let mut all_tiles: usize = 0;
    let mut all_bytes: usize = 0;
    i = 0;
    while i < n
        invariant
            0 <= i <= n,
            n == specs.len(),
            specs@ == base,
            hlen == first_h(m, seal, base),
            settle_fits(m, seal, base, hlen as int, 3),
            all_tiles == tiles_before(base, i as int),
            all_bytes == bytes_before(base, i as int),
        decreases n - i,
    {
        proof {
            lemma_before_mono(base, i + 1, n as int);
            lemma_before_mono(base, 0, n as int);
        }
        all_tiles = all_tiles + specs[i].tiles;
        all_bytes = all_bytes + specs[i].body_bytes;
        i += 1;
    }
    let (header, hlen, Ghost(used)) = settle_header(
        model_id,
        intake_seal,
        &mut specs,
        all_tiles,
        all_bytes,
        hlen,
        Ghost(base),
        Ghost(folds@),
    );
    let mut out: Vec<u8> = Vec::new();
    let mut j: usize = 0;
    while j < hlen
        invariant
            0 <= j <= hlen,
            out@ == pad(header@, j as int),
        decreases hlen - j,
    {
        if j < header.len() {
            out.push(header[j]);
        } else {
            out.push(32);
        }
        j += 1;
        proof {
            assert(out@ =~= pad(header@, j as int));
        }
    }
    let ghost start = out@;
    i = 0;
    while i < n
        invariant
            0 <= i <= n,
            n == specs.len(),
            n == folds.len(),
            base == base_specs(folds@),
            specs@ == placed(base, used),
            sizes.len() == n,
            forall|q: int| 0 <= q < n ==> (#[trigger] sizes[q]).len() == base[q].tiles,
            forall|q: int, t: int| 0 <= q < n && 0 <= t < base[q].tiles ==> #[trigger] sizes[q][t] == tile_of(*folds[q].1, t).len(),
            file_end(base, used) + 64 <= usize::MAX,
            used >= 0,
            bodies_fit(folds@),
            out@ == start + index_of(folds@, specs@, i as int),
        decreases n - i,
    {
        let ghost f = *folds[i as int].1;
        let mut off: u64 = specs[i].body_start as u64;
        let tiles = specs[i].tiles;
        proof {
            lemma_before_mono(base, i + 1, n as int);
            lemma_before_mono(base, 0, n as int);
            assert(fold_body(f, (f.rows / 128) as int).len() <= usize::MAX);
            assert(base[i as int].body_bytes == fold_body(f, tiles as int).len());
            lemma_before_mono(base, i as int, n as int);
            assert(specs[i as int] == placed(base, used)[i as int]);
            assert(n == base.len());
            assert(0 <= used + 8 * tiles_before(base, n as int) + bytes_before(base, i as int) <= file_end(base, used));
            assert(specs[i as int].body_start == used + 8 * tiles_before(base, n as int) + bytes_before(base, i as int));
        }
        let ghost mid = out@;
        let mut t: usize = 0;
        while t < tiles
            invariant
                0 <= t <= tiles,
                i < n,
                n == specs.len(),
                n == base.len(),
                specs@ == placed(base, used),
                tiles == specs[i as int].tiles,
                tiles == base[i as int].tiles,
                f == *folds[i as int].1,
                sizes.len() == n,
                forall|q: int| 0 <= q < n ==> (#[trigger] sizes[q]).len() == base[q].tiles,
                forall|q: int, t2: int| 0 <= q < n && 0 <= t2 < base[q].tiles ==> #[trigger] sizes[q][t2] == tile_of(*folds[q].1, t2).len(),
                specs[i as int].body_start + fold_body(f, tiles as int).len() <= usize::MAX,
                off == specs[i as int].body_start + fold_body(f, t as int).len(),
                out@ == mid + tile_index(f, specs[i as int].body_start as int, t as int),
            decreases tiles - t,
        {
            push_le64(&mut out, off);
            proof {
                lemma_fold_body_prefix(f, t + 1, tiles as int);
            }
            off = off + sizes[i][t];
            t += 1;
        }
        i += 1;
        proof {
            assert(out@ =~= start + index_of(folds@, specs@, i as int));
        }
    }
    out.append(&mut all_bodies);
    proof {
        assert(out@ =~= cube_file(m, seal, folds@));
    }
    (out, specs)
}

// ── reading the header ───────────────────────────────────────────────────────

/// `String::from_utf8` on a copy of the bytes: the string they encode, if they are UTF-8.
/// std documents an error exactly when the bytes are not valid UTF-8, and the string holds the
/// characters they encode.
#[verifier::external_body]
pub(crate) fn utf8_string(b: &[u8]) -> (r: Option<String>)
    ensures
        r is Some <==> valid_utf8(b@),
        r matches Some(s) ==> s@ == decode_utf8(b@),
{
    String::from_utf8(b.to_vec()).ok()
}

/// The first byte at or after i that does not start a white space character lying before e.
pub open spec fn skip_ws_in(t: Seq<u8>, i: int, e: int) -> int
    decreases e - i,
{
    if i >= e || ws_len(t, i) == 0 || i + ws_len(t, i) > e {
        i
    } else {
        skip_ws_in(t, i + ws_len(t, i), e)
    }
}

/// Three bytes that encode a white space character.
pub open spec fn ws3(x: u8, y: u8, z: u8) -> bool {
    ||| (x == 0xE1 && y == 0x9A && z == 0x80)
    ||| (x == 0xE2 && y == 0x80 && ((0x80 <= z <= 0x8A) || z == 0xA8 || z == 0xA9 || z == 0xAF))
    ||| (x == 0xE2 && y == 0x81 && z == 0x9F)
    ||| (x == 0xE3 && y == 0x80 && z == 0x80)
}

/// The byte length of a white space character ending at j and starting at or after a (0 if none).
pub open spec fn ws_back(t: Seq<u8>, a: int, j: int) -> int {
    if j - 1 >= a && (t[j - 1] == 32 || (9 <= t[j - 1] <= 13)) {
        1
    } else if j - 2 >= a && t[j - 2] == 0xC2 && (t[j - 1] == 0x85 || t[j - 1] == 0xA0) {
        2
    } else if j - 3 >= a && ws3(t[j - 3], t[j - 2], t[j - 1]) {
        3
    } else {
        0
    }
}

/// The end of t[a..j] with trailing white space removed.
pub open spec fn trim_back(t: Seq<u8>, a: int, j: int) -> int
    decreases j - a,
{
    if j <= a || ws_back(t, a, j) == 0 {
        j
    } else {
        trim_back(t, a, j - ws_back(t, a, j))
    }
}

/// The start of t[i..e] with leading double quotes removed.
pub open spec fn quote_front(t: Seq<u8>, i: int, e: int) -> int
    decreases e - i,
{
    if i < e && t[i] == 34 {
        quote_front(t, i + 1, e)
    } else {
        i
    }
}

/// The end of t[s..j] with trailing double quotes removed.
pub open spec fn quote_back(t: Seq<u8>, s: int, j: int) -> int
    decreases j - s,
{
    if j > s && t[j - 1] == 34 {
        quote_back(t, s, j - 1)
    } else {
        j
    }
}

/// The value of `key = value` after byte `from`: the first `key`, the '=' after it, the line
/// end after that; the value between, trimmed of white space and then of double quotes.
/// (value start, value end, line end)
pub open spec fn pvl_val(t: Seq<u8>, key: Seq<u8>, from: int) -> Option<(int, int, int)> {
    match find_from(t, key, from) {
        None => None,
        Some(p) => match find_from(t, "=".spec_bytes(), p) {
            None => None,
            Some(q) => match find_from(t, "\n".spec_bytes(), q + 1) {
                None => None,
                Some(e) => {
                    let a1 = skip_ws_in(t, q + 1, e);
                    let b1 = trim_back(t, a1, e);
                    let a2 = quote_front(t, a1, b1);
                    Some((a2, quote_back(t, a2, b1), e))
                },
            },
        },
    }
}

/// t[a..b] is all ASCII digits.
pub open spec fn all_digits(t: Seq<u8>, a: int, b: int) -> bool {
    forall|q: int| a <= q < b ==> 48 <= #[trigger] t[q] <= 57
}

/// t[a..b] read as an unsigned word: an optional '+', then at least one digit, nothing else.
pub open spec fn parse_uint(t: Seq<u8>, a: int, b: int) -> Option<usize> {
    let s = if a < b && t[a] == 43 { a + 1 } else { a };
    if s < b && all_digits(t, s, b) && digits_val(t, s, b) <= usize::MAX {
        Some(digits_val(t, s, b) as usize)
    } else {
        None
    }
}

/// t[a..b] read as an i32: an optional sign, then at least one digit, nothing else.
pub open spec fn parse_i32(t: Seq<u8>, a: int, b: int) -> Option<i32> {
    if a < b && t[a] == 45 {
        if a + 1 < b && all_digits(t, a + 1, b) && digits_val(t, a + 1, b) <= 0x8000_0000 {
            Some((-digits_val(t, a + 1, b)) as i32)
        } else {
            None
        }
    } else {
        let s = if a < b && t[a] == 43 { a + 1 } else { a };
        if s < b && all_digits(t, s, b) && digits_val(t, s, b) <= i32::MAX {
            Some(digits_val(t, s, b) as i32)
        } else {
            None
        }
    }
}

/// The unsigned value of `key` after byte b.
pub open spec fn field_uint(t: Seq<u8>, key: Seq<u8>, b: int) -> Option<usize> {
    match pvl_val(t, key, b) {
        Some((x, y, _)) => parse_uint(t, x, y),
        None => None,
    }
}

/// The i32 value of `key` after byte b.
pub open spec fn field_i32(t: Seq<u8>, key: Seq<u8>, b: int) -> Option<i32> {
    match pvl_val(t, key, b) {
        Some((x, y, _)) => parse_i32(t, x, y),
        None => None,
    }
}

/// The tensor object at byte b reads whole: a UTF-8 name, every number, one-based offsets.
pub open spec fn entry_ok(t: Seq<u8>, b: int) -> bool {
    &&& pvl_val(t, "Name".spec_bytes(), b) matches Some((x, y, _)) && valid_utf8(t.subrange(x, y))
    &&& field_uint(t, "Lines".spec_bytes(), b) is Some
    &&& field_uint(t, "Samples".spec_bytes(), b) is Some
    &&& field_i32(t, "RungMin".spec_bytes(), b) is Some
    &&& field_i32(t, "RungMax".spec_bytes(), b) is Some
    &&& field_uint(t, "Tiles".spec_bytes(), b) is Some
    &&& field_uint(t, "IndexByte".spec_bytes(), b) matches Some(v) && v >= 1
    &&& field_uint(t, "BodyByte".spec_bytes(), b) matches Some(v) && v >= 1
    &&& field_uint(t, "BodyBytes".spec_bytes(), b) is Some
}

/// Where the value of `key` after byte b starts, ends, and where its line ends (0 if absent).
pub open spec fn val_start(t: Seq<u8>, key: Seq<u8>, b: int) -> int {
    match pvl_val(t, key, b) {
        Some((x, _, _)) => x,
        None => 0,
    }
}

pub open spec fn val_stop(t: Seq<u8>, key: Seq<u8>, b: int) -> int {
    match pvl_val(t, key, b) {
        Some((_, y, _)) => y,
        None => 0,
    }
}

pub open spec fn line_end(t: Seq<u8>, key: Seq<u8>, b: int) -> int {
    match pvl_val(t, key, b) {
        Some((_, _, e)) => e,
        None => 0,
    }
}

/// Where reading resumes after the tensor object at b: the end of its BodyBytes line.
pub open spec fn entry_next(t: Seq<u8>, b: int) -> int {
    line_end(t, "BodyBytes".spec_bytes(), b)
}

/// The entry holds what the tensor object at b says.
pub open spec fn entry_matches(s: CubTensorSpec, t: Seq<u8>, b: int) -> bool {
    &&& s.name@ == decode_utf8(t.subrange(val_start(t, "Name".spec_bytes(), b), val_stop(t, "Name".spec_bytes(), b)))
    &&& Some(s.rows) == field_uint(t, "Lines".spec_bytes(), b)
    &&& Some(s.cols) == field_uint(t, "Samples".spec_bytes(), b)
    &&& Some(s.rmin) == field_i32(t, "RungMin".spec_bytes(), b)
    &&& Some(s.rmax) == field_i32(t, "RungMax".spec_bytes(), b)
    &&& Some(s.tiles) == field_uint(t, "Tiles".spec_bytes(), b)
    &&& s.index_start + 1 == field_uint(t, "IndexByte".spec_bytes(), b)->0
    &&& s.body_start + 1 == field_uint(t, "BodyByte".spec_bytes(), b)->0
    &&& Some(s.body_bytes) == field_uint(t, "BodyBytes".spec_bytes(), b)
}

/// Every tensor object from byte pos on reads whole.
pub open spec fn tensors_ok(t: Seq<u8>, pos: int) -> bool
    decreases t.len() - pos,
{
    match find_from(t, "Object = Tensor".spec_bytes(), pos) {
        None => true,
        Some(b) => entry_ok(t, b) && pos < entry_next(t, b) <= t.len() && tensors_ok(t, entry_next(t, b)),
    }
}

/// Where the tensor objects from byte pos on start.
pub open spec fn tensor_bases(t: Seq<u8>, pos: int) -> Seq<int>
    decreases t.len() - pos,
{
    match find_from(t, "Object = Tensor".spec_bytes(), pos) {
        None => seq![],
        Some(b) => if entry_ok(t, b) && pos < entry_next(t, b) <= t.len() {
            seq![b] + tensor_bases(t, entry_next(t, b))
        } else {
            seq![]
        },
    }
}

/// The header's end: just past the first "End\n", or HEADER_PAD bytes if there is none.
pub open spec fn header_end(d: Seq<u8>) -> int {
    match find_from(d, "End\n".spec_bytes(), 0) {
        Some(p) => p + 4,
        None => 64,
    }
}

pub(crate) fn skip_ws_in_at(t: &[u8], i: usize, e: usize) -> (r: usize)
    requires
        e <= t.len(),
    ensures
        r == skip_ws_in(t@, i as int, e as int),
        i <= r,
        r <= e || r == i,
    decreases e - i,
{
    if i >= e {
        return i;
    }
    let w = ws_len_at(t, i);
    if w == 0 || w > e - i {
        i
    } else {
        skip_ws_in_at(t, i + w, e)
    }
}

fn ws_back_at(t: &[u8], a: usize, j: usize) -> (r: usize)
    requires
        a <= j <= t.len(),
    ensures
        r == ws_back(t@, a as int, j as int),
        r <= j - a,
{
    if j - a >= 1 && (t[j - 1] == 32 || (9 <= t[j - 1] && t[j - 1] <= 13)) {
        1
    } else if j - a >= 2 && t[j - 2] == 0xC2 && (t[j - 1] == 0x85 || t[j - 1] == 0xA0) {
        2
    } else if j - a >= 3 && ((t[j - 3] == 0xE1 && t[j - 2] == 0x9A && t[j - 1] == 0x80) || (t[j - 3] == 0xE2 && t[j - 2]
        == 0x80 && ((0x80 <= t[j - 1] && t[j - 1] <= 0x8A) || t[j - 1] == 0xA8 || t[j - 1] == 0xA9 || t[j - 1] == 0xAF))
        || (t[j - 3] == 0xE2 && t[j - 2] == 0x81 && t[j - 1] == 0x9F) || (t[j - 3] == 0xE3 && t[j - 2] == 0x80 && t[j
        - 1] == 0x80)) {
        3
    } else {
        0
    }
}

pub(crate) fn trim_back_at(t: &[u8], a: usize, j: usize) -> (r: usize)
    requires
        a <= j <= t.len(),
    ensures
        r == trim_back(t@, a as int, j as int),
        a <= r <= j,
    decreases j - a,
{
    if j <= a {
        return j;
    }
    let w = ws_back_at(t, a, j);
    if w == 0 {
        j
    } else {
        trim_back_at(t, a, j - w)
    }
}

fn quote_front_at(t: &[u8], i: usize, e: usize) -> (r: usize)
    requires
        i <= e <= t.len(),
    ensures
        r == quote_front(t@, i as int, e as int),
        i <= r <= e,
    decreases e - i,
{
    if i < e && t[i] == 34 {
        quote_front_at(t, i + 1, e)
    } else {
        i
    }
}

fn quote_back_at(t: &[u8], s: usize, j: usize) -> (r: usize)
    requires
        s <= j <= t.len(),
    ensures
        r == quote_back(t@, s as int, j as int),
        s <= r <= j,
    decreases j - s,
{
    if j > s && t[j - 1] == 34 {
        quote_back_at(t, s, j - 1)
    } else {
        j
    }
}

proof fn lemma_one_byte_patterns()
    ensures
        "=".spec_bytes().len() == 1,
        "\n".spec_bytes().len() == 1,
{
    reveal_strlit("=");
    reveal_strlit("\n");
    vstd::utf8::is_ascii_chars_encode_utf8("="@);
    vstd::utf8::is_ascii_chars_encode_utf8("\n"@);
}

/// The value of `key = value` after byte `from`: (value start, value end, line end).
fn value_at(t: &[u8], key: &[u8], from: usize) -> (r: Option<(usize, usize, usize)>)
    ensures
        r matches Some((x, y, e)) ==> pvl_val(t@, key@, from as int) == Some((x as int, y as int, e as int)) && x <= y <= e
            <= t.len(),
        r is None ==> pvl_val(t@, key@, from as int) is None,
{
    let p = match find_bytes(t, key, from) {
        Some(p) => p,
        None => return None,
    };
    let eq = "=".as_bytes();
    proof {
        lemma_one_byte_patterns();
    }
    let q = match find_bytes(t, eq, p) {
        Some(q) => q,
        None => return None,
    };
    let nl = "\n".as_bytes();
    let e = match find_bytes(t, nl, q + 1) {
        Some(e) => e,
        None => return None,
    };
    proof {
        assert(find_from(t@, "\n".spec_bytes(), q + 1) == Some(e as int));
        assert(e < t.len());
        assert(q + 1 <= e) by {
            lemma_find_from_after(t@, "\n".spec_bytes(), q + 1);
        }
    }
    let a1 = skip_ws_in_at(t, q + 1, e);
    let b1 = trim_back_at(t, a1, e);
    let a2 = quote_front_at(t, a1, b1);
    let b2 = quote_back_at(t, a2, b1);
    Some((a2, b2, e))
}

pub(crate) proof fn lemma_find_from_after(t: Seq<u8>, pat: Seq<u8>, i: int)
    ensures
        find_from(t, pat, i) matches Some(p) ==> i <= p && p + pat.len() <= t.len(),
    decreases t.len() - i,
{
    if !(i < 0 || i + pat.len() > t.len()) && !crate::surfaces::matches_at(t, pat, i) && i < t.len() {
        lemma_find_from_after(t, pat, i + 1);
    }
}

/// The digits t[s..b] as a word, if they fit.
fn digits_at(t: &[u8], s: usize, b: usize) -> (r: Option<usize>)
    requires
        s <= b <= t.len(),
        all_digits(t@, s as int, b as int),
    ensures
        r matches Some(v) ==> v == digits_val(t@, s as int, b as int),
        r is None <==> digits_val(t@, s as int, b as int) > usize::MAX,
{
    let mut v: usize = 0;
    let mut i: usize = s;
    while i < b
        invariant
            s <= i <= b,
            b <= t.len(),
            all_digits(t@, s as int, b as int),
            v == digits_val(t@, s as int, i as int),
        decreases b - i,
    {
        let d = (t[i] - 48) as usize;
        proof {
            assert(48 <= t@[i as int] <= 57);
            assert(digits_val(t@, s as int, (i + 1) as int) == v * 10 + (t@[i as int] - 48));
            lemma_digits_grow(t@, s as int, (i + 1) as int, b as int);
            lemma_digits_nonneg(t@, s as int, i as int);
        }
        match v.checked_mul(10) {
            Some(v10) => match v10.checked_add(d) {
                Some(nv) => {
                    v = nv;
                },
                None => {
                    return None;
                },
            },
            None => {
                return None;
            },
        }
        i += 1;
    }
    proof {
        lemma_digits_nonneg(t@, s as int, b as int);
    }
    Some(v)
}

fn all_digits_at(t: &[u8], a: usize, b: usize) -> (r: bool)
    requires
        a <= b <= t.len(),
    ensures
        r == all_digits(t@, a as int, b as int),
{
    let mut i: usize = a;
    while i < b
        invariant
            a <= i <= b,
            b <= t.len(),
            all_digits(t@, a as int, i as int),
        decreases b - i,
    {
        if t[i] < 48 || t[i] > 57 {
            return false;
        }
        i += 1;
    }
    true
}

/// t[a..b] as an unsigned word.
pub(crate) fn parse_uint_at(t: &[u8], a: usize, b: usize) -> (r: Option<usize>)
    requires
        a <= b <= t.len(),
    ensures
        r == parse_uint(t@, a as int, b as int),
{
    let s = if a < b && t[a] == 43 { a + 1 } else { a };
    if s < b && all_digits_at(t, s, b) {
        digits_at(t, s, b)
    } else {
        None
    }
}

/// t[a..b] as an i32.
fn parse_i32_at(t: &[u8], a: usize, b: usize) -> (r: Option<i32>)
    requires
        a <= b <= t.len(),
    ensures
        r == parse_i32(t@, a as int, b as int),
{
    if a < b && t[a] == 45 {
        if a + 1 < b && all_digits_at(t, a + 1, b) {
            match digits_at(t, a + 1, b) {
                Some(v) => if v <= 0x8000_0000 {
                    Some((-(v as i64)) as i32)
                } else {
                    None
                },
                None => None,
            }
        } else {
            None
        }
    } else {
        let s = if a < b && t[a] == 43 { a + 1 } else { a };
        if s < b && all_digits_at(t, s, b) {
            match digits_at(t, s, b) {
                Some(v) => if v <= 0x7FFF_FFFF {
                    Some(v as i32)
                } else {
                    None
                },
                None => None,
            }
        } else {
            None
        }
    }
}

fn field_uint_at(t: &[u8], key: &str, b: usize) -> (r: Option<usize>)
    ensures
        r == field_uint(t@, key.spec_bytes(), b as int),
{
    match value_at(t, key.as_bytes(), b) {
        Some((x, y, _)) => parse_uint_at(t, x, y),
        None => None,
    }
}

fn field_i32_at(t: &[u8], key: &str, b: usize) -> (r: Option<i32>)
    ensures
        r == field_i32(t@, key.spec_bytes(), b as int),
{
    match value_at(t, key.as_bytes(), b) {
        Some((x, y, _)) => parse_i32_at(t, x, y),
        None => None,
    }
}

/// The tensor object at byte b, and where reading resumes after it.
fn entry_at(t: &[u8], b: usize) -> (r: Option<(CubTensorSpec, usize)>)
    ensures
        r is Some <==> entry_ok(t@, b as int),
        r matches Some((s, e)) ==> entry_matches(s, t@, b as int) && e == entry_next(t@, b as int),
{
    let (na, nb) = match value_at(t, "Name".as_bytes(), b) {
        Some((x, y, _)) => (x, y),
        None => return None,
    };
    let name = match utf8_string(&t[na..nb]) {
        Some(n) => n,
        None => return None,
    };
    let rows = match field_uint_at(t, "Lines", b) {
        Some(v) => v,
        None => return None,
    };
    let cols = match field_uint_at(t, "Samples", b) {
        Some(v) => v,
        None => return None,
    };
    let rmin = match field_i32_at(t, "RungMin", b) {
        Some(v) => v,
        None => return None,
    };
    let rmax = match field_i32_at(t, "RungMax", b) {
        Some(v) => v,
        None => return None,
    };
    let tiles = match field_uint_at(t, "Tiles", b) {
        Some(v) => v,
        None => return None,
    };
    let ib = match field_uint_at(t, "IndexByte", b) {
        Some(v) => v,
        None => return None,
    };
    let bb = match field_uint_at(t, "BodyByte", b) {
        Some(v) => v,
        None => return None,
    };
    if ib == 0 || bb == 0 {
        return None;
    }
    let (bx, by, e) = match value_at(t, "BodyBytes".as_bytes(), b) {
        Some(v) => v,
        None => return None,
    };
    let bbytes = match parse_uint_at(t, bx, by) {
        Some(v) => v,
        None => return None,
    };
    Some((
        CubTensorSpec { name, rows, cols, rmin, rmax, tiles, index_start: ib - 1, body_start: bb - 1, body_bytes: bbytes },
        e,
    ))
}

/// The first "End\n" of the bytes, as `header_end` reads it.
fn header_end_at(d: &[u8]) -> (r: usize)
    ensures
        r == header_end(d@),
{
    match find_bytes(d, "End\n".as_bytes(), 0) {
        Some(p) => {
            proof {
                lemma_find_from_after(d@, "End\n".spec_bytes(), 0);
                assert(p + "End\n".spec_bytes().len() <= d.len());
                reveal_strlit("End\n");
                vstd::utf8::is_ascii_chars_encode_utf8("End\n"@);
                assert("End\n".spec_bytes().len() == 4);
            }
            p + 4
        },
        None => HEADER_PAD,
    }
}

impl CubFold {
    /// Read a cube from its bytes: the header runs to the first "End\n" (HEADER_PAD bytes if
    /// there is none) and must be UTF-8; every "Object = Tensor" in it, in order, is a tensor.
    /// `None` where the header does not read whole.
    pub fn open(data: Vec<u8>) -> (r: Option<CubFold>)
        ensures
            r is Some <==> (header_end(data@) <= data.len() && valid_utf8(data@.subrange(0, header_end(data@)))
                && tensors_ok(data@.subrange(0, header_end(data@)), 0)),
            r matches Some(c) ==> {
                let t = data@.subrange(0, header_end(data@));
                &&& c.data@ == data@
                &&& c.specs.len() == tensor_bases(t, 0).len()
                &&& forall|i: int| 0 <= i < c.specs.len() ==> entry_matches(#[trigger] c.specs[i], t, tensor_bases(t, 0)[i])
            },
    {
        let end = header_end_at(data.as_slice());
        if end > data.len() {
            return None;
        }
        let t = &data.as_slice()[0..end];
        if utf8_string(t).is_none() {
            return None;
        }
        let mut specs: Vec<CubTensorSpec> = Vec::new();
        let mut pos: usize = 0;
        let ghost mut seen: Seq<int> = seq![];
        loop
            invariant
                pos <= t.len(),
                t@ == data@.subrange(0, header_end(data@)),
                tensors_ok(t@, 0) == tensors_ok(t@, pos as int),
                tensor_bases(t@, 0) == seen + tensor_bases(t@, pos as int),
                seen.len() == specs.len(),
                forall|i: int| 0 <= i < specs.len() ==> entry_matches(#[trigger] specs[i], t@, seen[i]),
            ensures
                tensors_ok(t@, pos as int),
                tensor_bases(t@, pos as int) == Seq::<int>::empty(),
            decreases t.len() - pos,
        {
            let b = match find_bytes(t, "Object = Tensor".as_bytes(), pos) {
                Some(b) => b,
                None => break,
            };
            let (s, e) = match entry_at(t, b) {
                Some(x) => x,
                None => return None,
            };
            if e <= pos || e > t.len() {
                return None;
            }
            proof {
                assert(tensor_bases(t@, pos as int) == seq![b as int] + tensor_bases(t@, e as int));
                assert(seen + tensor_bases(t@, pos as int) =~= seen.push(b as int) + tensor_bases(t@, e as int));
                seen = seen.push(b as int);
            }
            specs.push(s);
            pos = e;
        }
        proof {
            assert(seen + tensor_bases(t@, pos as int) =~= seen);
        }
        Some(CubFold { data, specs })
    }
}

} // verus!
