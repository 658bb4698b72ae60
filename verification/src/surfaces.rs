//! The three surfaces, cold:
//!
//! - `Atoms`: per dictionary id, (sheet, m, n) — decomposed once from the dictionary.
//! - `Place`: the Morton tile schedule for a (tile_rows, tile_cols) shape — computed.
//! - `Grid`:  a tensor's ids exactly as written (tile-major), plus the Place that addresses
//!            them. `line(r, tc)` returns the contiguous ids of row r in tile-column tc;
//!            nothing is ever un-tiled.

use std::sync::Arc;
use vstd::prelude::*;
use vstd::string::StringSliceAdditionalSpecFns;

use crate::cells::{cell_m, cell_n, decompose, finite, is_finite, sheet_of};
use crate::cub::CubFold;
use crate::fiberkernel::FiberAtoms;
use crate::fold::TensorFold;
use crate::cubfile::{lemma_find_from_after, parse_uint, parse_uint_at, skip_ws_in, skip_ws_in_at, trim_back, trim_back_at};
use vstd::utf8::{decode_utf8, valid_utf8};

verus! {

pub const TILE: usize = 128;

// ── atoms ─────────────────────────────────────────────────────────────────────

/// The alphabet, per dictionary id. `pattern` is the id's bf16 pattern, kept for the
/// activation-side composition (embedding rows, γ); the matmul reads (sheet, m, n).
pub struct Atoms {
    pub sheet: Vec<u8>,
    pub m: Vec<u8>,
    pub n: Vec<i16>,
    pub pattern: Vec<u16>,
}

impl Atoms {
    /// Every id carries the cell of its pattern.
    pub open spec fn wf(&self) -> bool {
        &&& self.sheet.len() == self.pattern.len()
        &&& self.m.len() == self.pattern.len()
        &&& self.n.len() == self.pattern.len()
        &&& forall|i: int|
            0 <= i < self.pattern.len() ==> {
                &&& #[trigger] self.sheet[i] == sheet_of(self.pattern[i])
                &&& self.m[i] == cell_m(self.pattern[i])
                &&& self.n[i] == cell_n(self.pattern[i])
                &&& finite(self.pattern[i])
            }
    }

    pub fn from_dict(dict: &[u16]) -> (a: Atoms)
        requires
            forall|i: int| 0 <= i < dict.len() ==> finite(#[trigger] dict[i]),
        ensures
            a.wf(),
            a.pattern@ == dict@,
    {
        let mut a = Atoms { sheet: Vec::new(), m: Vec::new(), n: Vec::new(), pattern: Vec::new() };
        let mut i: usize = 0;
        while i < dict.len()
            invariant
                0 <= i <= dict.len(),
                a.pattern@ == dict@.subrange(0, i as int),
                a.sheet.len() == i,
                a.m.len() == i,
                a.n.len() == i,
                forall|j: int| 0 <= j < dict.len() ==> finite(#[trigger] dict[j]),
                forall|j: int|
                    0 <= j < i ==> {
                        &&& #[trigger] a.sheet[j] == sheet_of(dict[j])
                        &&& a.m[j] == cell_m(dict[j])
                        &&& a.n[j] == cell_n(dict[j])
                    },
            decreases dict.len() - i,
        {
            let p = dict[i];
            let (s, m, n) = decompose(p);
            a.sheet.push(s);
            a.m.push(m);
            a.n.push(n);
            a.pattern.push(p);
            i += 1;
        }
        assert(a.pattern@ =~= dict@);
        a
    }

    pub fn len(&self) -> (r: usize)
        ensures
            r == self.pattern.len(),
    {
        self.pattern.len()
    }

    pub fn is_empty(&self) -> (r: bool)
        ensures
            r == (self.pattern.len() == 0),
    {
        self.pattern.len() == 0
    }
}

// ── place ─────────────────────────────────────────────────────────────────────

/// The bits of x spread to the even positions: bit i of x becomes bit 2i.
pub open spec fn spread_spec(x: nat) -> nat
    decreases x,
{
    if x == 0 {
        0
    } else {
        x % 2 + 4 * spread_spec(x / 2)
    }
}

/// The Morton code of (tile_row, tile_col): column bits at even positions, row bits at odd
/// positions (each coordinate read as its low 32 bits).
pub open spec fn morton_spec(tr: int, tc: int) -> nat {
    spread_spec((tc % 0x1_0000_0000) as nat) + 2 * spread_spec((tr % 0x1_0000_0000) as nat)
}

pub open spec fn spread_expr(x: u64) -> u64 {
    let x = x & 0xFFFF_FFFF;
    let x = (x | (x << 16)) & 0x0000_FFFF_0000_FFFF;
    let x = (x | (x << 8)) & 0x00FF_00FF_00FF_00FF;
    let x = (x | (x << 4)) & 0x0F0F_0F0F_0F0F_0F0F;
    let x = (x | (x << 2)) & 0x3333_3333_3333_3333;
    (x | (x << 1)) & 0x5555_5555_5555_5555
}

proof fn lemma_spread_step(x: u64)
    by (bit_vector)
    requires
        x <= 0xFFFF_FFFF,
    ensures
        spread_expr(x) == (x & 1) + 4 * spread_expr(x >> 1),
        spread_expr(x) & 0xAAAA_AAAA_AAAA_AAAA == 0,
        spread_expr(x) <= 0x5555_5555_5555_5555,
        x & 1 == x % 2,
        x >> 1 == x / 2,
{
}

proof fn lemma_spread(x: u64)
    requires
        x <= 0xFFFF_FFFF,
    ensures
        spread_expr(x) == spread_spec(x as nat),
    decreases x,
{
    lemma_spread_step(x);
    if x > 0 {
        lemma_spread(x >> 1);
    } else {
        assert(spread_expr(0) == 0) by (bit_vector);
    }
}

fn spread(x: u64) -> (r: u64)
    ensures
        r == spread_expr(x),
{
    let mut x = x;
    x &= 0xFFFF_FFFF;
    x = (x | (x << 16)) & 0x0000_FFFF_0000_FFFF;
    x = (x | (x << 8)) & 0x00FF_00FF_00FF_00FF;
    x = (x | (x << 4)) & 0x0F0F_0F0F_0F0F_0F0F;
    x = (x | (x << 2)) & 0x3333_3333_3333_3333;
    x = (x | (x << 1)) & 0x5555_5555_5555_5555;
    x
}

/// Morton code of (tile_row, tile_col): row bits odd, column bits even.
pub fn morton(tr: usize, tc: usize) -> (r: u64)
    ensures
        r == morton_spec(tr as int, tc as int),
{
    let a = spread(tc as u64);
    let b = spread(tr as u64);
    proof {
        let xa = (tc as u64) & 0xFFFF_FFFF;
        let xb = (tr as u64) & 0xFFFF_FFFF;
        assert(spread_expr(tc as u64) == spread_expr(xa)) by (bit_vector)
            requires xa == (tc as u64) & 0xFFFF_FFFF;
        assert(spread_expr(tr as u64) == spread_expr(xb)) by (bit_vector)
            requires xb == (tr as u64) & 0xFFFF_FFFF;
        assert(xa == (tc as u64) % 0x1_0000_0000) by (bit_vector)
            requires xa == (tc as u64) & 0xFFFF_FFFF;
        assert(xb == (tr as u64) % 0x1_0000_0000) by (bit_vector)
            requires xb == (tr as u64) & 0xFFFF_FFFF;
        lemma_spread(xa);
        lemma_spread(xb);
        lemma_spread_step(xa);
        lemma_spread_step(xb);
        assert(a | (b << 1) == a + 2 * b) by (bit_vector)
            requires
                a & 0xAAAA_AAAA_AAAA_AAAA == 0,
                b & 0xAAAA_AAAA_AAAA_AAAA == 0,
        ;
    }
    a | (b << 1)
}

/// Tile `j` comes before tile `i` in the file: its Morton code is smaller, or equal with a
/// smaller row-major index.
pub open spec fn before(keys: Seq<u64>, j: int, i: int) -> bool {
    keys[j] < keys[i] || (keys[j] == keys[i] && j < i)
}

/// How many of the first k tiles come before tile i.
pub open spec fn count_before(keys: Seq<u64>, i: int, k: int) -> nat
    decreases k,
{
    if k <= 0 {
        0
    } else {
        count_before(keys, i, k - 1) + (if before(keys, k - 1, i) { 1nat } else { 0nat })
    }
}

/// The Morton key of row-major tile index i in a shape with `tile_cols` columns.
pub open spec fn tile_key(i: int, tile_cols: int) -> u64 {
    morton_spec(i / tile_cols, i % tile_cols) as u64
}

/// The schedule: `rank[tr * tile_cols + tc]` = position of that tile in the file.
pub struct Place {
    pub tile_rows: usize,
    pub tile_cols: usize,
    pub rank: Vec<u32>,
}

impl Place {
    pub fn new(tile_rows: usize, tile_cols: usize) -> (p: Place)
        requires
            tile_rows * tile_cols <= u32::MAX,
        ensures
            p.tile_rows == tile_rows,
            p.tile_cols == tile_cols,
            p.rank.len() == tile_rows * tile_cols,
            forall|i: int|
                0 <= i < p.rank.len() ==> #[trigger] p.rank[i] == count_before(
                    Seq::new((tile_rows * tile_cols) as nat, |k: int| tile_key(k, tile_cols as int)),
                    i,
                    (tile_rows * tile_cols) as int,
                ),
    {
        let n = tile_rows * tile_cols;
        let ghost keys_spec = Seq::new(n as nat, |k: int| tile_key(k, tile_cols as int));
        let mut keys: Vec<u64> = Vec::new();
        let mut tr: usize = 0;
        while tr < tile_rows
            invariant
                0 <= tr <= tile_rows,
                n == tile_rows * tile_cols,
                keys.len() == tr * tile_cols,
                forall|k: int| 0 <= k < keys.len() ==> #[trigger] keys[k] == tile_key(k, tile_cols as int),
            decreases tile_rows - tr,
        {
            let mut tc: usize = 0;
            proof {
                assert((tr + 1) * tile_cols <= n) by (nonlinear_arith)
                    requires tr < tile_rows, n == tile_rows * tile_cols;
                assert(tr * tile_cols + tile_cols == (tr + 1) * tile_cols) by (nonlinear_arith);
            }
            while tc < tile_cols
                invariant
                    0 <= tr < tile_rows,
                    0 <= tc <= tile_cols,
                    n == tile_rows * tile_cols,
                    (tr + 1) * tile_cols <= n,
                    tr * tile_cols + tile_cols == (tr + 1) * tile_cols,
                    keys.len() == tr * tile_cols + tc,
                    forall|k: int| 0 <= k < keys.len() ==> #[trigger] keys[k] == tile_key(k, tile_cols as int),
                decreases tile_cols - tc,
            {
                let key = morton(tr, tc);
                proof {
                    let k = (tr * tile_cols + tc) as int;
                    assert(k / (tile_cols as int) == tr && k % (tile_cols as int) == tc) by (nonlinear_arith)
                        requires k == tr * tile_cols + tc, 0 <= tc < tile_cols;
                    assert(key < 0x1_0000_0000_0000_0000);
                }
                keys.push(key);
                tc += 1;
            }
            tr += 1;
        }
        assert(keys@ =~= keys_spec);
        let mut rank: Vec<u32> = Vec::new();
        let mut i: usize = 0;
        while i < n
            invariant
                0 <= i <= n,
                n <= u32::MAX,
                keys@ == keys_spec,
                keys.len() == n,
                rank.len() == i,
                forall|k: int| 0 <= k < i ==> #[trigger] rank[k] == count_before(keys_spec, k, n as int),
            decreases n - i,
        {
            let mut c: u32 = 0;
            let mut j: usize = 0;
            while j < n
                invariant
                    0 <= i < n,
                    0 <= j <= n,
                    n <= u32::MAX,
                    keys@ == keys_spec,
                    keys.len() == n,
                    c == count_before(keys_spec, i as int, j as int),
                    c <= j,
                decreases n - j,
            {
                if keys[j] < keys[i] || (keys[j] == keys[i] && j < i) {
                    c += 1;
                }
                j += 1;
            }
            rank.push(c);
            i += 1;
        }
        Place { tile_rows, tile_cols, rank }
    }
}

/// The Morton schedule puts every tile in its own slot: ranks are distinct and below the
/// tile count, so the schedule is a permutation of the file's tiles.
pub proof fn lemma_rank_permutation(keys: Seq<u64>, i: int, j: int)
    requires
        0 <= i < keys.len(),
        0 <= j < keys.len(),
        i != j,
    ensures
        count_before(keys, i, keys.len() as int) != count_before(keys, j, keys.len() as int),
        count_before(keys, i, keys.len() as int) < keys.len(),
{
    if before(keys, j, i) {
        lemma_count_monotone(keys, j, i, keys.len() as int);
    } else {
        lemma_count_monotone(keys, i, j, keys.len() as int);
    }
    lemma_count_bound(keys, i, keys.len() as int);
}

proof fn lemma_count_bound(keys: Seq<u64>, i: int, k: int)
    requires
        0 <= i < keys.len(),
        0 <= k <= keys.len(),
    ensures
        count_before(keys, i, k) <= (if i < k { k - 1 } else { k }),
    decreases k,
{
    if k > 0 {
        lemma_count_bound(keys, i, k - 1);
    }
}

/// If tile j comes before tile i, i has strictly more tiles before it (counted over the
/// first k tiles, once j is among them).
proof fn lemma_count_monotone(keys: Seq<u64>, j: int, i: int, k: int)
    requires
        0 <= i < keys.len(),
        0 <= j < keys.len(),
        before(keys, j, i),
        0 <= k <= keys.len(),
    ensures
        count_before(keys, j, k) <= count_before(keys, i, k),
        j < k ==> count_before(keys, j, k) < count_before(keys, i, k),
    decreases k,
{
    if k > 0 {
        lemma_count_monotone(keys, j, i, k - 1);
    }
}

// ── grid ──────────────────────────────────────────────────────────────────────

pub struct Grid {
    pub rows: usize,
    pub cols: usize,
    pub th: usize,
    pub tw: usize,
    pub ids: Vec<u16>,
    pub place: Arc<Place>,
    /// lowest and highest rung present in this tensor (its one denominator is 2^rmin)
    pub rmin: i32,
    pub rmax: i32,
}

impl Grid {
    /// The tiles cover the matrix and every rank points at a tile of the file.
    pub open spec fn wf(&self) -> bool {
        &&& self.th > 0
        &&& self.tw > 0
        &&& self.rows == self.place.tile_rows * self.th
        &&& self.cols == self.place.tile_cols * self.tw
        &&& self.place.rank.len() == self.place.tile_rows * self.place.tile_cols
        &&& forall|k: int|
            0 <= k < self.place.rank.len() ==> #[trigger] self.place.rank[k] < self.place.tile_rows
                * self.place.tile_cols
        &&& self.ids.len() == self.rows * self.cols
    }

    /// Where the id of matrix cell (r, c) sits in the file.
    pub open spec fn offset(&self, r: int, c: int) -> int {
        let t = self.place.rank[(r / self.th as int) * self.place.tile_cols + c / self.tw as int] as int;
        t * self.th * self.tw + (r % self.th as int) * self.tw + c % self.tw as int
    }

    /// The id at matrix cell (r, c).
    pub open spec fn at(&self, r: int, c: int) -> u16 {
        self.ids[self.offset(r, c)]
    }

    pub fn tile_cols(&self) -> (t: usize)
        requires
            self.tw > 0,
        ensures
            t == self.cols / self.tw,
    {
        self.cols / self.tw
    }

    /// `tw` contiguous ids: row `r`, tile column `tc`.
    pub fn line(&self, r: usize, tc: usize) -> (l: &[u16])
        requires
            self.wf(),
            r < self.rows,
            tc < self.place.tile_cols,
        ensures
            l.len() == self.tw,
            forall|j: int| 0 <= j < self.tw ==> #[trigger] l[j] == self.at(r as int, tc * self.tw + j),
    {
        let tr = r / self.th;
        let ln = r % self.th;
        let ghost tr_ = self.place.tile_rows as int;
        let ghost tcs = self.place.tile_cols as int;
        proof {
            assert(tr < tr_) by (nonlinear_arith)
                requires r < self.rows, self.rows == tr_ * self.th, self.th > 0, tr == r / self.th;
            assert(tr * tcs + tc < tr_ * tcs) by (nonlinear_arith)
                requires tr < tr_, tc < tcs;
        }
        let t = self.place.rank[tr * self.place.tile_cols + tc] as usize;
        proof {
            let nt = tr_ * tcs;
            assert(t < nt);
            assert(t * self.th * self.tw + ln * self.tw + self.tw <= self.ids.len()) by (nonlinear_arith)
                requires
                    t < nt,
                    ln < self.th,
                    self.ids.len() == self.rows * self.cols,
                    self.rows == tr_ * self.th,
                    self.cols == tcs * self.tw,
                    nt == tr_ * tcs,
                    self.th > 0,
                    self.tw > 0,
            ;
            assert(t * self.th <= t * self.th * self.tw) by (nonlinear_arith)
                requires self.tw > 0;
            assert(ln * self.tw <= t * self.th * self.tw + ln * self.tw);
        }
        let base = t * self.th * self.tw + ln * self.tw;
        let l = &self.ids[base..base + self.tw];
        proof {
            assert forall|j: int| 0 <= j < self.tw implies #[trigger] l[j] == self.at(r as int, tc * self.tw + j) by {
                let w = self.tw as int;
                assert(tc * w == w * tc) by (nonlinear_arith);
                vstd::arithmetic::div_mod::lemma_div_multiples_vanish_fancy(tc as int, j, w);
                vstd::arithmetic::div_mod::lemma_mod_multiples_vanish(tc as int, j, w);
                vstd::arithmetic::div_mod::lemma_small_mod(j as nat, w as nat);
            }
        }
        l
    }
}


// ── config ────────────────────────────────────────────────────────────────────

/// The model's shape, read from its JSON config.
#[derive(Clone, Debug)]
pub struct Config {
    pub hidden: usize,
    pub intermediate: usize,
    pub n_layers: usize,
    pub n_q_heads: usize,
    pub n_kv_heads: usize,
    pub head_dim: usize,
    pub vocab: usize,
    pub tied: bool,
}

/// `pat` sits in `t` at byte i.
pub open spec fn matches_at(t: Seq<u8>, pat: Seq<u8>, i: int) -> bool {
    0 <= i && i + pat.len() <= t.len() && t.subrange(i, i + pat.len()) == pat
}

/// The first occurrence of `pat` in `t` at or after byte i.
pub open spec fn find_from(t: Seq<u8>, pat: Seq<u8>, i: int) -> Option<int>
    decreases t.len() - i,
{
    if i < 0 || i + pat.len() > t.len() {
        None
    } else if matches_at(t, pat, i) {
        Some(i)
    } else if i >= t.len() {
        None
    } else {
        find_from(t, pat, i + 1)
    }
}

/// A key as it stands in JSON: between double quotes.
pub open spec fn quoted(key: Seq<u8>) -> Seq<u8> {
    seq![34u8] + key + seq![34u8]
}

/// The length in bytes of the Unicode white space character starting at byte i (0 if none).
pub open spec fn ws_len(t: Seq<u8>, i: int) -> int {
    if i < 0 || i >= t.len() {
        0
    } else if t[i] == 32 || (9 <= t[i] <= 13) {
        1
    } else if t[i] == 0xC2 && i + 1 < t.len() && (t[i + 1] == 0x85 || t[i + 1] == 0xA0) {
        2
    } else if i + 2 < t.len() && ((t[i] == 0xE1 && t[i + 1] == 0x9A && t[i + 2] == 0x80) || (t[i] == 0xE2
        && t[i + 1] == 0x80 && (t[i + 2] <= 0x8A && t[i + 2] >= 0x80 || t[i + 2] == 0xA8 || t[i + 2] == 0xA9
        || t[i + 2] == 0xAF)) || (t[i] == 0xE2 && t[i + 1] == 0x81 && t[i + 2] == 0x9F) || (t[i] == 0xE3 && t[i
        + 1] == 0x80 && t[i + 2] == 0x80)) {
        3
    } else {
        0
    }
}

/// The first byte at or after i that does not start white space (or, with `colons`, a ':').
pub open spec fn skip_ws(t: Seq<u8>, i: int, colons: bool) -> int
    decreases t.len() - i,
{
    if i < 0 || i >= t.len() {
        i
    } else if colons && t[i] == 58 {
        skip_ws(t, i + 1, colons)
    } else if ws_len(t, i) > 0 {
        skip_ws(t, i + ws_len(t, i), colons)
    } else {
        i
    }
}

/// The first byte at or after i that is not an ASCII digit (or the end).
pub open spec fn digits_end(t: Seq<u8>, i: int) -> int
    decreases t.len() - i,
{
    if i < 0 || i >= t.len() {
        i
    } else if 48 <= t[i] <= 57 {
        digits_end(t, i + 1)
    } else {
        i
    }
}

/// The decimal value of the digits t[s..e].
pub open spec fn digits_val(t: Seq<u8>, s: int, e: int) -> int
    decreases e - s,
{
    if e <= s {
        0
    } else {
        digits_val(t, s, e - 1) * 10 + (t[e - 1] - 48)
    }
}

/// The unsigned integer after `"key":` (white space allowed after the colon), if it is there
/// and fits a word.
pub open spec fn int_after(t: Seq<u8>, key: Seq<u8>) -> Option<usize> {
    match find_from(t, quoted(key), 0) {
        None => None,
        Some(p0) => match find_from(t, seq![58u8], p0 + quoted(key).len()) {
            None => None,
            Some(c) => {
                let s = skip_ws(t, c + 1, false);
                let e = digits_end(t, s);
                if e > s && digits_val(t, s, e) <= usize::MAX {
                    Some(digits_val(t, s, e) as usize)
                } else {
                    None
                }
            },
        },
    }
}

/// The boolean after `"key"` (colons and white space skipped), if it is `true` or `false`.
pub open spec fn bool_after(t: Seq<u8>, key: Seq<u8>) -> Option<bool> {
    match find_from(t, quoted(key), 0) {
        None => None,
        Some(p0) => {
            let r = skip_ws(t, p0 + quoted(key).len(), true);
            if matches_at(t, seq![116u8, 114u8, 117u8, 101u8], r) {
                Some(true)
            } else if matches_at(t, seq![102u8, 97u8, 108u8, 115u8, 101u8], r) {
                Some(false)
            } else {
                None
            }
        },
    }
}

/// Does `pat` sit in `t` at byte i?
fn bytes_match_at(t: &[u8], pat: &[u8], i: usize) -> (r: bool)
    ensures
        r == matches_at(t@, pat@, i as int),
{
    if i > t.len() || pat.len() > t.len() - i {
        return false;
    }
    let mut j: usize = 0;
    while j < pat.len()
        invariant
            0 <= j <= pat.len(),
            i + pat.len() <= t.len(),
            forall|q: int| 0 <= q < j ==> t@[i + q] == pat@[q],
        decreases pat.len() - j,
    {
        if t[i + j] != pat[j] {
            proof {
                assert(t@.subrange(i as int, i + pat.len())[j as int] != pat@[j as int]);
            }
            return false;
        }
        j += 1;
    }
    proof {
        assert(t@.subrange(i as int, i + pat.len()) =~= pat@);
    }
    true
}

/// The first occurrence of `pat` at or after byte i.
pub(crate) fn find_bytes(t: &[u8], pat: &[u8], i: usize) -> (r: Option<usize>)
    ensures
        r matches Some(p) ==> find_from(t@, pat@, i as int) == Some(p as int) && p + pat.len() <= t.len(),
        r is None ==> find_from(t@, pat@, i as int) is None,
    decreases t.len() - i,
{
    if i > t.len() || pat.len() > t.len() - i {
        return None;
    }
    if bytes_match_at(t, pat, i) {
        Some(i)
    } else if i >= t.len() {
        None
    } else {
        find_bytes(t, pat, i + 1)
    }
}

/// The byte length of the white space character at i (0 if none).
pub(crate) fn ws_len_at(t: &[u8], i: usize) -> (r: usize)
    ensures
        r == ws_len(t@, i as int),
{
    if i >= t.len() {
        return 0;
    }
    let b = t[i];
    if b == 32 || (9 <= b && b <= 13) {
        1
    } else if b == 0xC2 && t.len() - i > 1 && (t[i + 1] == 0x85 || t[i + 1] == 0xA0) {
        2
    } else if t.len() - i > 2 && ((b == 0xE1 && t[i + 1] == 0x9A && t[i + 2] == 0x80) || (b == 0xE2 && t[i + 1]
        == 0x80 && (t[i + 2] <= 0x8A && t[i + 2] >= 0x80 || t[i + 2] == 0xA8 || t[i + 2] == 0xA9 || t[i + 2]
        == 0xAF)) || (b == 0xE2 && t[i + 1] == 0x81 && t[i + 2] == 0x9F) || (b == 0xE3 && t[i + 1] == 0x80 && t[i
        + 2] == 0x80)) {
        3
    } else {
        0
    }
}

fn skip_ws_at(t: &[u8], i: usize, colons: bool) -> (r: usize)
    ensures
        r == skip_ws(t@, i as int, colons),
    decreases t.len() - i,
{
    if i >= t.len() {
        return i;
    }
    if colons && t[i] == 58 {
        return skip_ws_at(t, i + 1, colons);
    }
    let w = ws_len_at(t, i);
    if w > 0 {
        skip_ws_at(t, i + w, colons)
    } else {
        i
    }
}

fn digits_end_at(t: &[u8], i: usize) -> (r: usize)
    ensures
        r == digits_end(t@, i as int),
        i <= r,
        r <= t.len() || r == i,
    decreases t.len() - i,
{
    if i >= t.len() {
        return i;
    }
    if 48 <= t[i] && t[i] <= 57 {
        digits_end_at(t, i + 1)
    } else {
        i
    }
}

/// The unsigned integer after `"key":` in a JSON text.
pub fn find_int(text: &str, key: &str) -> (r: Option<usize>)
    ensures
        r == int_after(text.spec_bytes(), key.spec_bytes()),
{
    let t = text.as_bytes();
    let k = key.as_bytes();
    let mut q: Vec<u8> = Vec::new();
    q.push(34);
    let mut j: usize = 0;
    while j < k.len()
        invariant
            0 <= j <= k.len(),
            q@ == seq![34u8] + k@.subrange(0, j as int),
        decreases k.len() - j,
    {
        q.push(k[j]);
        j += 1;
    }
    q.push(34);
    proof {
        assert(k@.subrange(0, k.len() as int) == k@);
        assert(q@ == quoted(k@));
    }
    let p0 = match find_bytes(t, q.as_slice(), 0) {
        Some(p) => p,
        None => return None,
    };
    let colon: [u8; 1] = [58u8];
    proof {
        assert(colon@ == seq![58u8]);
    }
    let c = match find_bytes(t, &colon, p0 + q.len()) {
        Some(c) => c,
        None => return None,
    };
    let s = skip_ws_at(t, c + 1, false);
    let e = digits_end_at(t, s);
    if e <= s {
        return None;
    }
    proof {
        lemma_skip_ws_bound(t@, (c + 1) as int, false);
        lemma_digits_end_all(t@, s as int);
        assert(int_after(t@, k@) == (if digits_val(t@, s as int, e as int) <= usize::MAX {
            Some(digits_val(t@, s as int, e as int) as usize)
        } else {
            None::<usize>
        }));
    }
    let mut v: usize = 0;
    let mut i: usize = s;
    while i < e
        invariant
            s <= i <= e,
            e <= t.len(),
            v == digits_val(t@, s as int, i as int),
            t@ == text.spec_bytes(),
            k@ == key.spec_bytes(),
            digits_end(t@, s as int) == e,
            int_after(t@, k@) == (if digits_val(t@, s as int, e as int) <= usize::MAX {
                Some(digits_val(t@, s as int, e as int) as usize)
            } else {
                None::<usize>
            }),
            forall|q2: int| s <= q2 < e ==> 48 <= #[trigger] t@[q2] <= 57,
        decreases e - i,
    {
        let d = (t[i] - 48) as usize;
        match v.checked_mul(10) {
            Some(v10) => match v10.checked_add(d) {
                Some(nv) => {
                    v = nv;
                },
                None => {
                    proof {
                        lemma_digits_grow(t@, s as int, (i + 1) as int, e as int);
                        assert(digits_val(t@, s as int, (i + 1) as int) == v * 10 + (t@[i as int] - 48));
                        assert(digits_val(t@, s as int, e as int) > usize::MAX);
                        assert(int_after(t@, k@) is None);
                    }
                    return None;
                },
            },
            None => {
                proof {
                    lemma_digits_grow(t@, s as int, (i + 1) as int, e as int);
                    lemma_digits_nonneg(t@, s as int, i as int);
                    assert(digits_val(t@, s as int, (i + 1) as int) == v * 10 + (t@[i as int] - 48));
                    assert(digits_val(t@, s as int, e as int) > usize::MAX);
                    assert(int_after(t@, k@) is None);
                }
                return None;
            },
        }
        i += 1;
    }
    Some(v)
}

proof fn lemma_skip_ws_bound(t: Seq<u8>, i: int, colons: bool)
    requires
        0 <= i,
    ensures
        i <= skip_ws(t, i, colons),
        skip_ws(t, i, colons) <= t.len() || skip_ws(t, i, colons) == i,
    decreases t.len() - i,
{
    if i < t.len() {
        if colons && t[i] == 58 {
            lemma_skip_ws_bound(t, i + 1, colons);
        } else if ws_len(t, i) > 0 {
            lemma_skip_ws_bound(t, i + ws_len(t, i), colons);
        }
    }
}

proof fn lemma_digits_end_all(t: Seq<u8>, i: int)
    requires
        0 <= i <= t.len(),
    ensures
        i <= digits_end(t, i) <= t.len(),
        forall|q: int| i <= q < digits_end(t, i) ==> 48 <= #[trigger] t[q] <= 57,
    decreases t.len() - i,
{
    if i < t.len() && 48 <= t[i] <= 57 {
        lemma_digits_end_all(t, i + 1);
    }
}

pub(crate) proof fn lemma_digits_grow(t: Seq<u8>, s: int, i: int, e: int)
    requires
        s <= i <= e,
        forall|q: int| s <= q < e ==> 48 <= #[trigger] t[q] <= 57,
    ensures
        digits_val(t, s, i) <= digits_val(t, s, e),
        digits_val(t, s, e) >= 0,
    decreases e - i,
{
    if i < e {
        lemma_digits_grow(t, s, i, e - 1);
        lemma_digits_nonneg(t, s, e - 1);
    } else {
        lemma_digits_nonneg(t, s, e);
    }
}

pub(crate) proof fn lemma_digits_nonneg(t: Seq<u8>, s: int, e: int)
    requires
        forall|q: int| s <= q < e ==> 48 <= #[trigger] t[q] <= 57,
    ensures
        digits_val(t, s, e) >= 0,
    decreases e - s,
{
    if e > s {
        lemma_digits_nonneg(t, s, e - 1);
    }
}

/// The boolean after `"key"` in a JSON text.
pub fn find_bool(text: &str, key: &str) -> (r: Option<bool>)
    ensures
        r == bool_after(text.spec_bytes(), key.spec_bytes()),
{
    let t = text.as_bytes();
    let k = key.as_bytes();
    let mut q: Vec<u8> = Vec::new();
    q.push(34);
    let mut j: usize = 0;
    while j < k.len()
        invariant
            0 <= j <= k.len(),
            q@ == seq![34u8] + k@.subrange(0, j as int),
        decreases k.len() - j,
    {
        q.push(k[j]);
        j += 1;
    }
    q.push(34);
    proof {
        assert(k@.subrange(0, k.len() as int) == k@);
        assert(q@ == quoted(k@));
    }
    let p0 = match find_bytes(t, q.as_slice(), 0) {
        Some(p) => p,
        None => return None,
    };
    let r = skip_ws_at(t, p0 + q.len(), true);
    let tr: [u8; 4] = [116, 114, 117, 101];
    let fa: [u8; 5] = [102, 97, 108, 115, 101];
    proof {
        assert(tr@ == seq![116u8, 114u8, 117u8, 101u8]);
        assert(fa@ == seq![102u8, 97u8, 108u8, 115u8, 101u8]);
    }
    if bytes_match_at(t, &tr, r) {
        Some(true)
    } else if bytes_match_at(t, &fa, r) {
        Some(false)
    } else {
        None
    }
}

impl Config {
    /// The config's shape. Every integer key must be present (the config is refused
    /// otherwise); `tie_word_embeddings` defaults to false.
    pub fn from_json(text: &str) -> (c: Config)
        requires
            int_after(text.spec_bytes(), "hidden_size".spec_bytes()) is Some,
            int_after(text.spec_bytes(), "intermediate_size".spec_bytes()) is Some,
            int_after(text.spec_bytes(), "num_hidden_layers".spec_bytes()) is Some,
            int_after(text.spec_bytes(), "num_attention_heads".spec_bytes()) is Some,
            int_after(text.spec_bytes(), "num_key_value_heads".spec_bytes()) is Some,
            int_after(text.spec_bytes(), "head_dim".spec_bytes()) is Some,
            int_after(text.spec_bytes(), "vocab_size".spec_bytes()) is Some,
        ensures
            Some(c.hidden) == int_after(text.spec_bytes(), "hidden_size".spec_bytes()),
            Some(c.intermediate) == int_after(text.spec_bytes(), "intermediate_size".spec_bytes()),
            Some(c.n_layers) == int_after(text.spec_bytes(), "num_hidden_layers".spec_bytes()),
            Some(c.n_q_heads) == int_after(text.spec_bytes(), "num_attention_heads".spec_bytes()),
            Some(c.n_kv_heads) == int_after(text.spec_bytes(), "num_key_value_heads".spec_bytes()),
            Some(c.head_dim) == int_after(text.spec_bytes(), "head_dim".spec_bytes()),
            Some(c.vocab) == int_after(text.spec_bytes(), "vocab_size".spec_bytes()),
            c.tied == (bool_after(text.spec_bytes(), "tie_word_embeddings".spec_bytes()) == Some(true)),
    {
        let hidden = find_int(text, "hidden_size").unwrap();
        let intermediate = find_int(text, "intermediate_size").unwrap();
        let n_layers = find_int(text, "num_hidden_layers").unwrap();
        let n_q_heads = find_int(text, "num_attention_heads").unwrap();
        let n_kv_heads = find_int(text, "num_key_value_heads").unwrap();
        let head_dim = find_int(text, "head_dim").unwrap();
        let vocab = find_int(text, "vocab_size").unwrap();
        let tied = match find_bool(text, "tie_word_embeddings") {
            Some(b) => b,
            None => false,
        };
        Config { hidden, intermediate, n_layers, n_q_heads, n_kv_heads, head_dim, vocab, tied }
    }

    pub fn q_dim(&self) -> (r: usize)
        requires
            self.n_q_heads * self.head_dim <= usize::MAX,
        ensures
            r == self.n_q_heads * self.head_dim,
    {
        self.n_q_heads * self.head_dim
    }

    pub fn kv_dim(&self) -> (r: usize)
        requires
            self.n_kv_heads * self.head_dim <= usize::MAX,
        ensures
            r == self.n_kv_heads * self.head_dim,
    {
        self.n_kv_heads * self.head_dim
    }
}

// ── model ─────────────────────────────────────────────────────────────────────

/// The model: config, atoms, every 2-D grid and every norm vector by tensor name, and the
/// surfaces a kernel may have built (folds, the cube, the fiber positions).
pub struct Model {
    pub id: String,
    pub cfg: Config,
    pub atoms: Atoms,
    pub grids: Vec<(String, Grid)>,
    /// the 1-D norm vectors, composed to patterns (γ of RMSNorm, an activation-side operand)
    pub norms: Vec<(String, Vec<u16>)>,
    /// every grid folded by (sign, odd, rung) per row, when the radix kernel runs
    pub folds: Vec<(String, TensorFold)>,
    /// the fold cube (rung bands), when the cube kernel runs
    pub cub: Option<CubFold>,
    /// the dictionary as positions on the 2-adic torus, when the fiber kernel runs
    pub fiber: Option<FiberAtoms>,
}

/// The last of the first n entries named `name` (−1 if none): a later entry of a name wins.
pub open spec fn name_at<T>(v: Seq<(String, T)>, name: Seq<char>, n: int) -> int
    decreases n,
{
    if n <= 0 {
        -1
    } else if v[n - 1].0@ == name {
        n - 1
    } else {
        name_at(v, name, n - 1)
    }
}

/// The entry a name looks up.
pub open spec fn named_entry<T>(v: Seq<(String, T)>, name: Seq<char>) -> int {
    name_at(v, name, v.len() as int)
}

proof fn lemma_name_at_range<T>(v: Seq<(String, T)>, name: Seq<char>, n: int)
    requires
        0 <= n <= v.len(),
    ensures
        -1 <= name_at(v, name, n) < n,
    decreases n,
{
    if n > 0 {
        lemma_name_at_range(v, name, n - 1);
    }
}

/// Where `name` sits among the entries (the last of that name).
fn find_named<T>(v: &Vec<(String, T)>, name: &str) -> (r: usize)
    requires
        named_entry(v@, name@) >= 0,
    ensures
        r == named_entry(v@, name@),
        r < v.len(),
{
    proof {
        lemma_name_at_range(v@, name@, v.len() as int);
    }
    let want = name.to_owned();
    let mut n = v.len();
    while n > 0
        invariant
            0 <= n <= v.len(),
            want@ == name@,
            named_entry(v@, name@) >= 0,
            named_entry(v@, name@) == name_at(v@, name@, n as int),
        decreases n,
    {
        if v[n - 1].0 == want {
            return n - 1;
        }
        n -= 1;
    }
    0
}

/// The rung range a grid's ids reach over nonzero cores ((0, 0) if none).
pub open spec fn rung_min(ids: Seq<u16>, atoms: Atoms, k: int) -> int
    decreases k,
{
    if k <= 0 {
        i32::MAX as int
    } else if atoms.m[ids[k - 1] as int] != 0 && (atoms.n[ids[k - 1] as int] as int) < rung_min(ids, atoms, k - 1) {
        atoms.n[ids[k - 1] as int] as int
    } else {
        rung_min(ids, atoms, k - 1)
    }
}

pub open spec fn rung_max(ids: Seq<u16>, atoms: Atoms, k: int) -> int
    decreases k,
{
    if k <= 0 {
        i32::MIN as int
    } else if atoms.m[ids[k - 1] as int] != 0 && (atoms.n[ids[k - 1] as int] as int) > rung_max(ids, atoms, k - 1) {
        atoms.n[ids[k - 1] as int] as int
    } else {
        rung_max(ids, atoms, k - 1)
    }
}

/// The lowest and highest rung over the ids with a nonzero core; (0, 0) when there are none.
pub fn rung_range(ids: &[u16], atoms: &Atoms) -> (r: (i32, i32))
    requires
        atoms.wf(),
        forall|i: int| 0 <= i < ids.len() ==> (#[trigger] ids[i] as int) < atoms.pattern.len(),
    ensures
        rung_min(ids@, *atoms, ids.len() as int) <= rung_max(ids@, *atoms, ids.len() as int) ==> r == (
            rung_min(ids@, *atoms, ids.len() as int) as i32,
            rung_max(ids@, *atoms, ids.len() as int) as i32,
        ),
        rung_min(ids@, *atoms, ids.len() as int) > rung_max(ids@, *atoms, ids.len() as int) ==> r == (0i32, 0i32),
{
    let mut rmin: i32 = i32::MAX;
    let mut rmax: i32 = i32::MIN;
    let mut k: usize = 0;
    while k < ids.len()
        invariant
            0 <= k <= ids.len(),
            atoms.wf(),
            forall|i: int| 0 <= i < ids.len() ==> (#[trigger] ids[i] as int) < atoms.pattern.len(),
            rmin == rung_min(ids@, *atoms, k as int),
            rmax == rung_max(ids@, *atoms, k as int),
        decreases ids.len() - k,
    {
        let id = ids[k] as usize;
        if atoms.m[id] != 0 {
            let n = atoms.n[id] as i32;
            if n < rmin {
                rmin = n;
            }
            if n > rmax {
                rmax = n;
            }
        }
        k += 1;
    }
    if rmin > rmax {
        (0, 0)
    } else {
        (rmin, rmax)
    }
}

/// A norm vector composed to patterns: the dictionary pattern of every id.
pub fn norm_patterns(ids: &[u16], atoms: &Atoms) -> (v: Vec<u16>)
    requires
        forall|i: int| 0 <= i < ids.len() ==> (#[trigger] ids[i] as int) < atoms.pattern.len(),
    ensures
        v.len() == ids.len(),
        forall|i: int| 0 <= i < ids.len() ==> #[trigger] v[i] == atoms.pattern[ids[i] as int],
{
    let mut v: Vec<u16> = Vec::new();
    let mut k: usize = 0;
    while k < ids.len()
        invariant
            0 <= k <= ids.len(),
            forall|i: int| 0 <= i < ids.len() ==> (#[trigger] ids[i] as int) < atoms.pattern.len(),
            v.len() == k,
            forall|i: int| 0 <= i < k ==> #[trigger] v[i] == atoms.pattern[ids[i] as int],
        decreases ids.len() - k,
    {
        v.push(atoms.pattern[ids[k] as usize]);
        k += 1;
    }
    v
}

/// Little-endian u16 words of an even number of bytes.
pub fn words_le(b: &[u8]) -> (w: Vec<u16>)
    requires
        b.len() % 2 == 0,
    ensures
        w.len() == b.len() / 2,
        forall|i: int| 0 <= i < w.len() ==> #[trigger] w[i] == b[2 * i] + 256 * b[2 * i + 1],
{
    let mut w: Vec<u16> = Vec::new();
    let mut k: usize = 0;
    while k < b.len() / 2
        invariant
            0 <= k <= b.len() / 2,
            b.len() % 2 == 0,
            w.len() == k,
            forall|i: int| 0 <= i < k ==> #[trigger] w[i] == b[2 * i] + 256 * b[2 * i + 1],
        decreases b.len() / 2 - k,
    {
        w.push(b[2 * k] as u16 + 256 * b[2 * k + 1] as u16);
        k += 1;
    }
    w
}

impl Model {
    /// The radix kernel runs when the folds are built.
    pub fn radix(&self) -> (r: bool)
        ensures
            r == (self.folds.len() > 0),
    {
        self.folds.len() > 0
    }

    /// The fold of that name.
    pub fn fold(&self, name: &str) -> (f: &TensorFold)
        requires
            named_entry(self.folds@, name@) >= 0,
        ensures
            *f == self.folds[named_entry(self.folds@, name@)].1,
    {
        let i = find_named(&self.folds, name);
        &self.folds[i].1
    }

    /// The grid of that name.
    pub fn grid(&self, name: &str) -> (g: &Grid)
        requires
            named_entry(self.grids@, name@) >= 0,
        ensures
            *g == self.grids[named_entry(self.grids@, name@)].1,
    {
        let i = find_named(&self.grids, name);
        &self.grids[i].1
    }

    /// The norm vector of that name, composed to patterns.
    pub fn norm(&self, name: &str) -> (v: &[u16])
        requires
            named_entry(self.norms@, name@) >= 0,
        ensures
            v@ == self.norms[named_entry(self.norms@, name@)].1@,
    {
        let i = find_named(&self.norms, name);
        self.norms[i].1.as_slice()
    }

    /// One embedding row composed to patterns (the input surface): the dictionary pattern of
    /// every id of row `token` of "model.embed_tokens.weight", tile column by tile column.
    pub fn embed_row(&self, token: usize) -> (out: Vec<u16>)
        requires
            named_entry(self.grids@, "model.embed_tokens.weight"@) >= 0,
            self.grids[named_entry(self.grids@, "model.embed_tokens.weight"@)].1.wf(),
            crate::matmul::ids_in(self.grids[named_entry(self.grids@, "model.embed_tokens.weight"@)].1, self.atoms),
            token < self.grids[named_entry(self.grids@, "model.embed_tokens.weight"@)].1.rows,
        ensures
            out@ == crate::matmul::grid_row(self.grids[named_entry(self.grids@, "model.embed_tokens.weight"@)].1, self.atoms, token as int),
    {
        let g = self.grid("model.embed_tokens.weight");
        let mut out: Vec<u16> = Vec::new();
        let ntc = g.tile_cols();
        let ghost w = g.tw as int;
        proof {
            assert(ntc == g.place.tile_cols) by (nonlinear_arith)
                requires g.cols == g.place.tile_cols * g.tw, g.tw > 0, ntc == g.cols / g.tw;
        }
        let mut tc: usize = 0;
        while tc < ntc
            invariant
                0 <= tc <= ntc,
                ntc == g.place.tile_cols,
                g.wf(),
                crate::matmul::ids_in(*g, self.atoms),
                token < g.rows,
                w == g.tw,
                out.len() == tc * g.tw,
                forall|c: int| 0 <= c < out.len() ==> #[trigger] out[c] == self.atoms.pattern[g.at(token as int, c) as int],
            decreases ntc - tc,
        {
            let l = g.line(token, tc);
            let mut j: usize = 0;
            while j < l.len()
                invariant
                    0 <= j <= l.len(),
                    l.len() == g.tw,
                    tc < ntc,
                    ntc == g.place.tile_cols,
                    g.wf(),
                    crate::matmul::ids_in(*g, self.atoms),
                    token < g.rows,
                    w == g.tw,
                    forall|q: int| 0 <= q < g.tw ==> #[trigger] l[q] == g.at(token as int, tc * g.tw + q),
                    out.len() == tc * g.tw + j,
                    forall|c: int| 0 <= c < out.len() ==> #[trigger] out[c] == self.atoms.pattern[g.at(token as int, c) as int],
                decreases l.len() - j,
            {
                proof {
                    assert(tc * w + j < g.cols) by (nonlinear_arith)
                        requires tc < ntc, j < w, g.cols == ntc * w;
                    crate::matmul::lemma_at_in(*g, self.atoms, token as int, tc * w + j);
                }
                out.push(self.atoms.pattern[l[j] as usize]);
                j += 1;
            }
            proof {
                assert((tc + 1) * w == tc * w + w) by (nonlinear_arith);
            }
            tc += 1;
        }
        proof {
            assert(out.len() == g.cols) by (nonlinear_arith)
                requires out.len() == ntc * w, g.cols == ntc * w, ntc == g.place.tile_cols, g.cols == g.place.tile_cols * g.tw, w == g.tw;
            assert(out@ =~= crate::matmul::grid_row(*g, self.atoms, token as int));
        }
        out
    }
}


/// The bytes `"name": "` that open an entry's name.
pub open spec fn name_key() -> Seq<u8> {
    seq![34u8, 110u8, 97u8, 109u8, 101u8, 34u8, 58u8, 32u8, 34u8]
}

/// The bytes `"shape": [` that open an entry's shape.
pub open spec fn shape_key() -> Seq<u8> {
    seq![34u8, 115u8, 104u8, 97u8, 112u8, 101u8, 34u8, 58u8, 32u8, 91u8]
}

/// `s` put in front of the sequence in `o`, if there is one.
pub open spec fn prepend<A>(s: Seq<A>, o: Option<Seq<A>>) -> Option<Seq<A>> {
    match o {
        Some(r) => Some(s + r),
        None => None,
    }
}

/// The piece t[a..c] of a shape, trimmed of white space and read as a word.
pub open spec fn piece_val(t: Seq<u8>, a: int, c: int) -> Option<usize> {
    let s = skip_ws_in(t, a, c);
    parse_uint(t, s, trim_back(t, s, c))
}

/// The comma-separated words of t[a..e], the piece at hand starting at a and scanned up to i.
pub open spec fn shape_from(t: Seq<u8>, a: int, i: int, e: int) -> Option<Seq<usize>>
    decreases e - i,
{
    if i >= e {
        match piece_val(t, a, e) {
            Some(v) => Some(seq![v]),
            None => None,
        }
    } else if t[i] == 44 {
        match piece_val(t, a, i) {
            Some(v) => prepend(seq![v], shape_from(t, i + 1, i + 1, e)),
            None => None,
        }
    } else {
        shape_from(t, a, i + 1, e)
    }
}

/// The (name bytes, shape) entries of a manifest text from byte `pos` on: each name follows
/// `"name": "` up to the next double quote, its shape the first `"shape": [` after that up to the
/// next `]`, and the scan goes on from that bracket. `None` where an entry is cut short or a
/// dimension is not a word.
pub open spec fn manifest_from(t: Seq<u8>, pos: int) -> Option<Seq<(Seq<u8>, Seq<usize>)>>
    decreases t.len() - pos,
    via manifest_from_decreases
{
    match find_from(t, name_key(), pos) {
        None => Some(Seq::empty()),
        Some(p) => match find_from(t, seq![34u8], p + 9) {
            None => None,
            Some(end) => match find_from(t, shape_key(), end) {
                None => None,
                Some(q) => match find_from(t, seq![93u8], q + 10) {
                    None => None,
                    Some(se) => match shape_from(t, q + 10, q + 10, se) {
                        None => None,
                        Some(sh) => prepend(seq![(t.subrange(p + 9, end), sh)], manifest_from(t, se)),
                    },
                },
            },
        },
    }
}

#[via_fn]
proof fn manifest_from_decreases(t: Seq<u8>, pos: int) {
    lemma_find_from_after(t, name_key(), pos);
    if let Some(p) = find_from(t, name_key(), pos) {
        lemma_find_from_after(t, seq![34u8], p + 9);
        if let Some(end) = find_from(t, seq![34u8], p + 9) {
            lemma_find_from_after(t, shape_key(), end);
            if let Some(q) = find_from(t, shape_key(), end) {
                lemma_find_from_after(t, seq![93u8], q + 10);
            }
        }
    }
}

/// The piece t[a..c] of a shape as a word.
fn piece_at(t: &[u8], a: usize, c: usize) -> (r: Option<usize>)
    requires
        a <= c <= t.len(),
    ensures
        r == piece_val(t@, a as int, c as int),
{
    let s = skip_ws_in_at(t, a, c);
    let b = trim_back_at(t, s, c);
    parse_uint_at(t, s, b)
}

/// The comma-separated words of t[a..e].
fn shape_at(t: &[u8], a: usize, e: usize) -> (r: Option<Vec<usize>>)
    requires
        a <= e <= t.len(),
    ensures
        r matches Some(v) ==> shape_from(t@, a as int, a as int, e as int) == Some(v@),
        r is None ==> shape_from(t@, a as int, a as int, e as int) is None,
{
    let mut out: Vec<usize> = Vec::new();
    let mut ps: usize = a;
    let mut i: usize = a;
    loop
        invariant
            a <= ps <= i <= e <= t.len(),
            shape_from(t@, a as int, a as int, e as int) == prepend(out@, shape_from(t@, ps as int, i as int, e as int)),
        decreases e - i,
    {
        if i >= e {
            match piece_at(t, ps, e) {
                Some(v) => {
                    proof {
                        assert(out@ + seq![v] == out@.push(v));
                    }
                    out.push(v);
                    return Some(out);
                },
                None => {
                    return None;
                },
            }
        }
        if t[i] == 44 {
            match piece_at(t, ps, i) {
                Some(v) => {
                    proof {
                        let rest = shape_from(t@, (i + 1) as int, (i + 1) as int, e as int);
                        if let Some(r) = rest {
                            assert(out@ + (seq![v] + r) == out@.push(v) + r);
                        }
                    }
                    out.push(v);
                    i += 1;
                    ps = i;
                },
                None => {
                    return None;
                },
            }
        } else {
            i += 1;
        }
    }
}

/// Where `find_from` finds the pattern, it sits there.
proof fn lemma_found_matches(t: Seq<u8>, pat: Seq<u8>, i: int)
    ensures
        find_from(t, pat, i) matches Some(p) ==> matches_at(t, pat, p),
    decreases t.len() - i,
{
    if !(i < 0 || i + pat.len() > t.len()) && !matches_at(t, pat, i) && i < t.len() {
        lemma_found_matches(t, pat, i + 1);
    }
}

/// Between two double quotes of a valid UTF-8 text the bytes are valid UTF-8.
proof fn lemma_quoted_utf8(b: Seq<u8>, i: int, j: int)
    requires
        valid_utf8(b),
        0 <= i < j < b.len(),
        b[i] == 34,
        b[j] == 34,
    ensures
        valid_utf8(b.subrange(i + 1, j)),
{
    vstd::utf8::is_char_boundary_iff_not_is_continuation_byte(b, j);
    vstd::utf8::valid_utf8_split(b, j);
    let b1 = b.subrange(0, j);
    vstd::utf8::is_char_boundary_iff_not_is_continuation_byte(b1, i);
    vstd::utf8::valid_utf8_split(b1, i);
    let b2 = b1.subrange(i, j);
    assert(b2[0] == 34);
    assert(valid_utf8(vstd::utf8::pop_first_scalar(b2)));
    assert(vstd::utf8::pop_first_scalar(b2) =~= b.subrange(i + 1, j));
}

/// The (name, shape) entries of a manifest text, in the order they stand; `None` where an entry
/// is cut short or a dimension is not a word.
pub fn scan_manifest(text: &str) -> (r: Option<Vec<(String, Vec<usize>)>>)
    ensures
        r is Some <==> manifest_from(text.spec_bytes(), 0) is Some,
        r matches Some(v) ==> manifest_from(text.spec_bytes(), 0) matches Some(e) && v.len() == e.len() && forall|
            i: int,
        | 0 <= i < v.len() ==> v[i].0@ == decode_utf8(#[trigger] e[i].0) && v[i].1@ == e[i].1,
{
    let t = text.as_bytes();
    let nk: [u8; 9] = [34, 110, 97, 109, 101, 34, 58, 32, 34];
    let sk: [u8; 10] = [34, 115, 104, 97, 112, 101, 34, 58, 32, 91];
    let qt: [u8; 1] = [34];
    let cb: [u8; 1] = [93];
    proof {
        assert(nk@ == name_key());
        assert(sk@ == shape_key());
        assert(qt@ == seq![34u8]);
        assert(cb@ == seq![93u8]);
        vstd::utf8::encode_utf8_valid_utf8(text@);
    }
    let mut out: Vec<(String, Vec<usize>)> = Vec::new();
    let ghost mut acc: Seq<(Seq<u8>, Seq<usize>)> = Seq::empty();
    let mut pos: usize = 0;
    loop
        invariant
            pos <= t.len(),
            t@ == text.spec_bytes(),
            valid_utf8(t@),
            nk@ == name_key(),
            sk@ == shape_key(),
            qt@ == seq![34u8],
            cb@ == seq![93u8],
            manifest_from(t@, 0) == prepend(acc, manifest_from(t@, pos as int)),
            out.len() == acc.len(),
            forall|i: int| 0 <= i < out.len() ==> out[i].0@ == decode_utf8(#[trigger] acc[i].0) && out[i].1@ == acc[i].1,
        decreases t.len() - pos,
    {
        let p = match find_bytes(t, &nk, pos) {
            Some(p) => p,
            None => {
                proof {
                    assert(acc + Seq::empty() == acc);
                }
                return Some(out);
            },
        };
        let start = p + 9;
        let end = match find_bytes(t, &qt, start) {
            Some(x) => x,
            None => {
                return None;
            },
        };
        let q = match find_bytes(t, &sk, end) {
            Some(x) => x,
            None => {
                return None;
            },
        };
        proof {
            lemma_find_from_after(t@, name_key(), pos as int);
            lemma_find_from_after(t@, seq![34u8], start as int);
            lemma_find_from_after(t@, shape_key(), end as int);
        }
        let sp = q + 10;
        let se = match find_bytes(t, &cb, sp) {
            Some(x) => x,
            None => {
                return None;
            },
        };
        proof {
            lemma_find_from_after(t@, seq![93u8], sp as int);
        }
        let sh = match shape_at(t, sp, se) {
            Some(v) => v,
            None => {
                return None;
            },
        };
        proof {
            lemma_found_matches(t@, name_key(), pos as int);
            lemma_found_matches(t@, seq![34u8], start as int);
            assert(t@.subrange(p as int, p + 9) == name_key());
            assert(t@[start - 1] == t@.subrange(p as int, p + 9)[8]);
            assert(t@.subrange(end as int, end + 1) == seq![34u8]);
            assert(t@[end as int] == t@.subrange(end as int, end + 1)[0]);
            lemma_quoted_utf8(t@, start - 1, end as int);
            assert(t@.subrange(start as int, end as int) == t@.subrange((start - 1) + 1, end as int));
        }
        let name = match crate::cubfile::utf8_string(&t[start..end]) {
            Some(n) => n,
            None => {
                return None;
            },
        };
        let ghost item = (t@.subrange(start as int, end as int), sh@);
        proof {
            let rest = manifest_from(t@, se as int);
            if let Some(r) = rest {
                assert(acc + (seq![item] + r) == acc.push(item) + r);
            }
        }
        out.push((name, sh));
        proof {
            acc = acc.push(item);
        }
        pos = se;
    }
}

} // verus!
