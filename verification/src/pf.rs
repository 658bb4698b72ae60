//! The Pedro Fibonacci set over a TPB run: each cycle closes a square r², and the relation just
//! before it closes, (r − 1)(r + 1) / r², is collapsed to factors read from the run's ledger.

use std::collections::BTreeMap;
use vstd::std_specs::btree::spec_btree_map_iter;
use vstd::std_specs::iter::IteratorSpec;
use vstd::arithmetic::power2::{lemma2_to64, lemma_pow2_adds, lemma_pow2_strictly_increases, pow2};
use vstd::prelude::*;
use vstd::string::StringSliceAdditionalSpecFns;
use vstd::utf8::{encode_scalar, encode_utf8};

use crate::cubfile::{lemma_find_from_after, parse_uint, parse_uint_at, skip_ws_in, skip_ws_in_at};
use crate::surfaces::{find_bytes, find_from, ws_len, ws_len_at};

verus! {

broadcast use {vstd::std_specs::btree::group_btree_axioms, vstd::laws_cmp::group_laws_cmp};

/// Atom names are ordered as integers, so the maps below keep their keys in order.
proof fn lemma_u64_keys_ordered()
    ensures
        vstd::laws_cmp::obeys_cmp::<u64>(),
        vstd::std_specs::btree::key_obeys_cmp_spec::<u64>(),
{
}

/// Rods: atom name → beads.
pub type Rods = BTreeMap<u64, u32>;

/// Beads of `k` in a rod map, zero where the atom is absent.
pub open spec fn beads(m: Map<u64, u32>, k: u64) -> int {
    if m.contains_key(k) { m[k] as int } else { 0 }
}

/// Two rod maps held together: every atom's beads added.
pub open spec fn held(a: Map<u64, u32>, b: Map<u64, u32>) -> Map<u64, u32> {
    Map::new(|k: u64| a.contains_key(k) || b.contains_key(k), |k: u64| (beads(a, k) + beads(b, k)) as u32)
}

/// Whether holding `a` and `b` together keeps every bead count within `u32`.
pub open spec fn holdable(a: Map<u64, u32>, b: Map<u64, u32>) -> bool {
    forall|k: u64| a.contains_key(k) && b.contains_key(k) ==> a[k] + b[k] <= u32::MAX
}

/// Holds two rod maps together: the beads of each atom are added.
pub fn hold(a: &Rods, b: &Rods) -> (out: Rods)
    requires
        holdable(a@, b@),
    ensures
        out@ == held(a@, b@),
{
    let mut out = a.clone();
    let ghost seen: Map<u64, u32> = Map::empty();
    proof {
        lemma_u64_keys_ordered();
        let rem = spec_btree_map_iter(b).remaining();
        assert forall|j: u64| #[trigger] b@.contains_key(j) implies exists|i: int| 0 <= i < rem.len() && *rem[i].0 == j by {
            let i = choose|i: int| 0 <= i < rem.len() && rem[i] == (&j, &b@[j]);
        }
    }
    for (k, v) in it: b.iter()
        invariant
            holdable(a@, b@),
            it.seq() == spec_btree_map_iter(b).remaining(),
            it.seq().no_duplicates(),
            forall|i: int| 0 <= i < it.seq().len() ==> b@.contains_key(*#[trigger] it.seq()[i].0) && b@[*it.seq()[i].0] == *it.seq()[i].1,
            seen.submap_of(b@),
            out@ == held(a@, seen),
            forall|i: int| 0 <= i < it.index() ==> seen.contains_key(*#[trigger] it.seq()[i].0),
            forall|j: u64| #[trigger] seen.contains_key(j) ==> exists|i: int| 0 <= i < it.index() && *it.seq()[i].0 == j,
            forall|j: u64| #[trigger] b@.contains_key(j) ==> seen.contains_key(j) || exists|i: int| it.index() <= i < it.seq().len() && *it.seq()[i].0 == j,
    {
        proof {
            let idx = it.index() - 1;
            if seen.contains_key(*k) {
                let i = choose|i: int| 0 <= i < idx && *it.seq()[i].0 == *k;
                assert(it.seq()[i] == it.seq()[idx]);
            }
        }
        let cur: u32 = match out.get(k) {
            Some(c) => *c,
            None => 0,
        };
        out.insert(*k, cur + *v);
        proof {
            seen = seen.insert(*k, *v);
        }
    }
    proof {
        assert(seen =~= b@);
    }
    out
}


/// A run of the cycler as read from disk: how many cycles closed, the seam (the atom named at each
/// cycle's reference, in order), the squares (square name → its atom) and the one rectangle.
pub struct Run {
    pub cycles: usize,
    pub seam: Vec<u64>,
    pub squares: BTreeMap<u64, u64>,
    pub rectangle: Option<(u64, u64)>,
}

impl Run {
    /// What a run read from disk carries: names are 32-bit words plus one, a square is the
    /// square of its atom, and the rectangle's sides are proper factors whose product is a word.
    pub open spec fn wf(&self) -> bool {
        &&& forall|i: int| 0 <= i < self.seam.len() ==> 1 <= #[trigger] self.seam@[i] <= 0x1_0000_0000u64
        &&& forall|k: u64| #[trigger] self.squares@.contains_key(k) ==> 1 <= self.squares@[k] && k == self.squares@[k] * self.squares@[k]
        &&& (self.rectangle matches Some((a, b)) ==> 2 <= a && 2 <= b && a * b <= u64::MAX)
    }
}

/// The name of the atom record at byte offset `o` of the atoms file (two words a record): its
/// second word plus one; `None` where no record starts there.
pub open spec fn name_at(atoms: Seq<u32>, o: u32) -> Option<u64> {
    if o % 8 == 0 && (o / 8) < atoms.len() / 2 {
        Some((atoms[2 * (o / 8) + 1] + 1) as u64)
    } else {
        None
    }
}

/// Every atom offset of the chart at word i (n factors) names an atom.
pub open spec fn chart_names_ok(atoms: Seq<u32>, charts: Seq<u32>, i: int, n: int) -> bool {
    forall|k: int| 0 <= k < n ==> #[trigger] name_at(atoms, charts[i + 1 + 2 * k]) is Some
}

/// The squares and the rectangle of the charts from word i on, over those found before: a chart
/// is a count n and n (atom offset, beads) pairs; one factor held twice is a square of its atom,
/// two factors are the rectangle (the last one wins). `None` where a chart runs past the end,
/// names no atom, or squares an atom past a word.
pub open spec fn charts_from(
    atoms: Seq<u32>,
    charts: Seq<u32>,
    i: int,
    sq: Map<u64, u64>,
    rect: Option<(u64, u64)>,
) -> Option<(Map<u64, u64>, Option<(u64, u64)>)>
    decreases charts.len() - i,
{
    if i < 0 || i >= charts.len() {
        Some((sq, rect))
    } else {
        let n = charts[i] as int;
        if i + 1 + 2 * n > charts.len() || !chart_names_ok(atoms, charts, i, n) {
            None
        } else {
            let f0 = if n >= 1 { name_at(atoms, charts[i + 1])->0 } else { 0 };
            let square = n == 1 && charts[i + 2] == 2;
            if square && f0 * f0 > u64::MAX {
                None
            } else {
                let sq2 = if square { sq.insert((f0 * f0) as u64, f0) } else { sq };
                let rect2 = if n == 2 { Some((f0, name_at(atoms, charts[i + 3])->0)) } else { rect };
                charts_from(atoms, charts, i + 1 + 2 * n, sq2, rect2)
            }
        }
    }
}

/// The seam's offsets read as atom names, if each names one.
pub open spec fn seam_names(atoms: Seq<u32>, seam: Seq<u32>) -> Option<Seq<u64>> {
    if forall|k: int| 0 <= k < seam.len() ==> #[trigger] name_at(atoms, seam[k]) is Some {
        Some(Seq::new(seam.len(), |k: int| name_at(atoms, seam[k])->0))
    } else {
        None
    }
}

/// The rectangle, if there is one, has sides of at least two whose product is a word.
pub open spec fn rect_fits(r: Option<(u64, u64)>) -> bool {
    r matches Some((a, b)) ==> 2 <= a && 2 <= b && a * b <= u64::MAX
}

/// The name at an offset.
pub(crate) fn name_of(atoms: &[u32], o: u32) -> (r: Option<u64>)
    requires
        atoms.len() <= 0x4000_0000,
    ensures
        r == name_at(atoms@, o),
{
    if o % 8 == 0 && ((o / 8) as usize) < atoms.len() / 2 {
        let k = (o / 8) as usize;
        Some(atoms[2 * k + 1] as u64 + 1)
    } else {
        None
    }
}

impl Run {
    /// A run from its files read as little-endian words: the atoms (two words a record), the
    /// charts, the seam (atom offsets), and the count of cycles that closed. `None` where an
    /// offset names no atom, a chart runs past the end, or a square of an atom is past a word.
    /// A run so read is well formed exactly when its rectangle fits.
    pub fn from_words(cycles: usize, atoms: &[u32], charts: &[u32], seam: &[u32]) -> (r: Option<Run>)
        requires
            atoms.len() <= 0x4000_0000,
        ensures
            r is Some <==> seam_names(atoms@, seam@) is Some && charts_from(atoms@, charts@, 0, Map::empty(), None) is Some,
            r matches Some(run) ==> {
                &&& run.cycles == cycles
                &&& Some(run.seam@) == seam_names(atoms@, seam@)
                &&& charts_from(atoms@, charts@, 0, Map::empty(), None) == Some((run.squares@, run.rectangle))
                &&& run.wf() == rect_fits(run.rectangle)
            },
    {
        proof {
            lemma_u64_keys_ordered();
        }
        let mut names: Vec<u64> = Vec::new();
        let mut k: usize = 0;
        while k < seam.len()
            invariant
                atoms.len() <= 0x4000_0000,
                k <= seam.len(),
                names.len() == k,
                forall|j: int| 0 <= j < k ==> #[trigger] name_at(atoms@, seam@[j]) == Some(names@[j]),
            decreases seam.len() - k,
        {
            match name_of(atoms, seam[k]) {
                Some(n) => names.push(n),
                None => {
                    proof {
                        assert(name_at(atoms@, seam@[k as int]) is None);
                    }
                    return None;
                },
            }
            k += 1;
        }
        proof {
            assert(Some(names@) == seam_names(atoms@, seam@)) by {
                assert(names@ =~= Seq::new(seam@.len(), |j: int| name_at(atoms@, seam@[j])->0));
            }
        }
        let mut squares: BTreeMap<u64, u64> = BTreeMap::new();
        let mut rectangle: Option<(u64, u64)> = None;
        let mut i: usize = 0;
        while i < charts.len()
            invariant
                atoms.len() <= 0x4000_0000,
                i <= charts.len(),
                charts_from(atoms@, charts@, 0, Map::empty(), None) == charts_from(atoms@, charts@, i as int, squares@, rectangle),
                forall|q: u64| #[trigger] squares@.contains_key(q) ==> 1 <= squares@[q] && q == squares@[q] * squares@[q],
                rectangle matches Some((a, b)) ==> 1 <= a <= 0x1_0000_0000u64 && 1 <= b <= 0x1_0000_0000u64,
            decreases charts.len() - i,
        {
            let n = charts[i] as usize;
            let ghost sq0 = squares@;
            let ghost rect0 = rectangle;
            if n > (charts.len() - i - 1) / 2 {
                return None;
            }
            let mut f: Vec<u64> = Vec::new();
            let mut j: usize = 0;
            while j < n
                invariant
                    atoms.len() <= 0x4000_0000,
                    i < charts.len(),
                    n == charts@[i as int],
                    i + 1 + 2 * n <= charts.len(),
                    j <= n,
                    f.len() == j,
                    forall|q: int| 0 <= q < j ==> #[trigger] name_at(atoms@, charts@[i + 1 + 2 * q]) == Some(f@[q]),
                    charts_from(atoms@, charts@, 0, Map::empty(), None) == charts_from(atoms@, charts@, i as int, squares@, rectangle),
                decreases n - j,
            {
                match name_of(atoms, charts[i + 1 + 2 * j]) {
                    Some(a) => f.push(a),
                    None => {
                        proof {
                            assert(name_at(atoms@, charts@[i + 1 + 2 * j]) is None);
                            assert(!chart_names_ok(atoms@, charts@, i as int, n as int));
                        }
                        return None;
                    },
                }
                j += 1;
            }
            proof {
                assert(chart_names_ok(atoms@, charts@, i as int, n as int));
            }
            if n == 1 && charts[i + 2] == 2 {
                let a = f[0];
                if a > 0xFFFF_FFFF {
                    proof {
                        assert(a * a > u64::MAX) by (nonlinear_arith)
                            requires
                                a >= 0x1_0000_0000u64,
                        ;
                    }
                    return None;
                }
                proof {
                    assert(a * a <= u64::MAX) by (nonlinear_arith)
                        requires
                            a <= 0xFFFF_FFFFu64,
                    ;
                }
                squares.insert(a * a, a);
            }
            if n == 2 {
                rectangle = Some((f[0], f[1]));
            }
            proof {
                let f0 = if n >= 1 { name_at(atoms@, charts@[i + 1])->0 } else { 0 };
                if n >= 1 {
                    assert(name_at(atoms@, charts@[i + 1 + 2 * 0]) == Some(f@[0]));
                    assert(f0 == f@[0]);
                }
                if n == 2 {
                    assert(name_at(atoms@, charts@[i + 1 + 2 * 1]) == Some(f@[1]));
                }
                let square = n == 1 && charts@[i + 2] == 2;
                let sq2 = if square { sq0.insert((f0 * f0) as u64, f0) } else { sq0 };
                let rect2 = if n == 2 { Some((f0, name_at(atoms@, charts@[i + 3])->0)) } else { rect0 };
                assert(squares@ == sq2);
                assert(rectangle == rect2);
                assert(charts_from(atoms@, charts@, i as int, sq0, rect0) == charts_from(atoms@, charts@, i + 1 + 2 * n, sq2, rect2));
            }
            i = i + 1 + 2 * n;
        }
        let run = Run { cycles, seam: names, squares, rectangle };
        proof {
            assert forall|j: int| 0 <= j < run.seam.len() implies 1 <= #[trigger] run.seam@[j] <= 0x1_0000_0000u64 by {
                assert(name_at(atoms@, seam@[j]) == Some(run.seam@[j]));
            }
        }
        Some(run)
    }
}

/// A run file's bytes as little-endian 32-bit words; a trailing part word is dropped.
pub fn words32_le(b: &[u8]) -> (w: Vec<u32>)
    ensures
        w.len() == b.len() / 4,
        forall|i: int| 0 <= i < w.len() ==> #[trigger] w[i] == b[4 * i] + 256 * b[4 * i + 1] + 65536 * b[4 * i + 2]
            + 16777216 * b[4 * i + 3],
{
    let mut w: Vec<u32> = Vec::new();
    let mut k: usize = 0;
    while k < b.len() / 4
        invariant
            0 <= k <= b.len() / 4,
            w.len() == k,
            forall|i: int| 0 <= i < k ==> #[trigger] w[i] == b[4 * i] + 256 * b[4 * i + 1] + 65536 * b[4 * i + 2]
                + 16777216 * b[4 * i + 3],
        decreases b.len() / 4 - k,
    {
        let v: u32 = b[4 * k] as u32 + 256 * (b[4 * k + 1] as u32) + 65536 * (b[4 * k + 2] as u32) + 16777216 * (b[4
            * k + 3] as u32);
        w.push(v);
        k += 1;
    }
    w
}

/// The bytes `cycles=`.
pub open spec fn cycles_key() -> Seq<u8> {
    seq![99u8, 121u8, 99u8, 108u8, 101u8, 115u8, 61u8]
}

/// The first byte at or after a, before e, that starts white space (or e).
pub open spec fn word_end(t: Seq<u8>, a: int, e: int) -> int
    decreases e - a,
{
    if a >= e || ws_len(t, a) > 0 {
        a
    } else {
        word_end(t, a + 1, e)
    }
}

/// The count of cycles a run's receipt states: the first white-space separated word after the
/// first `cycles=` (and before any next one), read as a word; `None` where there is none.
pub open spec fn cycles_in(t: Seq<u8>) -> Option<usize> {
    match find_from(t, cycles_key(), 0) {
        None => None,
        Some(p) => {
            let e = match find_from(t, cycles_key(), p + 7) {
                Some(q) => q,
                None => t.len() as int,
            };
            let a = skip_ws_in(t, p + 7, e);
            if a >= e {
                None
            } else {
                parse_uint(t, a, word_end(t, a, e))
            }
        },
    }
}

fn word_end_at(t: &[u8], a: usize, e: usize) -> (r: usize)
    requires
        a <= e <= t.len(),
    ensures
        r == word_end(t@, a as int, e as int),
        a <= r <= e,
    decreases e - a,
{
    if a >= e || ws_len_at(t, a) > 0 {
        a
    } else {
        word_end_at(t, a + 1, e)
    }
}

/// The count of cycles a run's receipt states.
pub fn cycles_of(receipt: &str) -> (r: Option<usize>)
    ensures
        r == cycles_in(receipt.spec_bytes()),
{
    let t = receipt.as_bytes();
    let key: [u8; 7] = [99, 121, 99, 108, 101, 115, 61];
    proof {
        assert(key@ == cycles_key());
    }
    let p = match find_bytes(t, &key, 0) {
        Some(p) => p,
        None => {
            return None;
        },
    };
    let e = match find_bytes(t, &key, p + 7) {
        Some(q) => q,
        None => t.len(),
    };
    proof {
        lemma_find_from_after(t@, cycles_key(), p + 7);
    }
    let a = skip_ws_in_at(t, p + 7, e);
    if a >= e {
        None
    } else {
        let b = word_end_at(t, a, e);
        parse_uint_at(t, a, b)
    }
}

/// The product of the rectangle's sides, if the run has one.
pub open spec fn rect_product(r: Option<(u64, u64)>) -> Option<int> {
    match r {
        Some((a, b)) => Some(a * b),
        None => None,
    }
}

/// A number in its factors, as far as the collapsed entries `c` and the run name it: 1 is empty; a
/// collapsed entry is its rods; the rectangle's product holds both sides; a square holds its atom
/// twice; a seam name is itself, once; anything else is not in the ledger.
pub open spec fn factors_of(run: Run, c: Map<u64, Map<u64, u32>>, n: u64) -> Option<Map<u64, u32>>
    decreases n,
    when run.wf()
{
    if n == 1 {
        Some(Map::empty())
    } else if c.contains_key(n) {
        Some(c[n])
    } else if rect_product(run.rectangle) == Some(n as int) {
        let (a, b) = run.rectangle->0;
        proof {
            lemma_side_below(a, b, n);
            lemma_side_below(b, a, n);
        }
        match (factors_of(run, c, a), factors_of(run, c, b)) {
            (Some(fa), Some(fb)) => Some(held(fa, fb)),
            _ => None,
        }
    } else if run.squares@.contains_key(n) {
        let a = run.squares@[n];
        proof {
            lemma_root_below(a, n);
        }
        match factors_of(run, c, a) {
            Some(fa) => Some(held(fa, fa)),
            None => None,
        }
    } else if run.seam@.contains(n) {
        Some(map![n => 1u32])
    } else {
        None
    }
}

pub proof fn lemma_side_below(a: u64, b: u64, n: u64)
    requires
        2 <= a,
        2 <= b,
        a * b == n,
    ensures
        a < n,
{
    assert(a * 2 <= a * b) by (nonlinear_arith)
        requires
            2 <= b,
            0 <= a,
    ;
}

pub proof fn lemma_root_below(a: u64, n: u64)
    requires
        1 <= a,
        a * a == n,
        n != 1,
    ensures
        a < n,
{
    if a == 1 {
        assert(a * a == 1);
    } else {
        lemma_side_below(a, a, n);
    }
}

/// Every atom's beads are at most the base-2 logarithm of the number they make up.
pub open spec fn beads_within(m: Map<u64, u32>, n: int) -> bool {
    forall|k: u64| #[trigger] m.contains_key(k) ==> pow2(m[k] as nat) <= n
}

proof fn lemma_small_beads(x: nat, n: int)
    requires
        pow2(x) <= n,
        n <= u64::MAX,
    ensures
        x < 64,
{
    if x >= 64 {
        lemma2_to64();
        if x > 64 {
            lemma_pow2_strictly_increases(64, x);
        }
    }
}

/// Holding two rod maps within a and b gives one within a·b, with no bead count past `u32`.
proof fn lemma_held_within(x: Map<u64, u32>, y: Map<u64, u32>, a: int, b: int)
    requires
        beads_within(x, a),
        beads_within(y, b),
        1 <= a,
        1 <= b,
        a * b <= u64::MAX,
    ensures
        holdable(x, y),
        beads_within(held(x, y), a * b),
{
    assert(a <= a * b && b <= a * b) by (nonlinear_arith)
        requires
            1 <= a,
            1 <= b,
    ;
    assert forall|k: u64| x.contains_key(k) && y.contains_key(k) implies x[k] + y[k] <= u32::MAX
        && pow2((x[k] + y[k]) as nat) <= a * b by {
        let (p, q) = (pow2(x[k] as nat) as int, pow2(y[k] as nat) as int);
        lemma_pow2_adds(x[k] as nat, y[k] as nat);
        assert(p * q <= a * b) by (nonlinear_arith)
            requires
                0 <= p <= a,
                0 <= q <= b,
        ;
        lemma_small_beads((x[k] + y[k]) as nat, a * b);
    }
}

/// The collapsed entries as rod maps.
pub open spec fn collapsed_view(c: Map<u64, Rods>) -> Map<u64, Map<u64, u32>> {
    c.map_values(|r: Rods| r@)
}

/// The run's ledger: the entries collapsed so far, each an atom's factors.
pub struct Ledger<'r> {
    pub run: &'r Run,
    pub collapsed: BTreeMap<u64, Rods>,
}

impl<'r> Ledger<'r> {
    /// The collapsed entries, in the model.
    pub open spec fn entries(&self) -> Map<u64, Map<u64, u32>> {
        collapsed_view(self.collapsed@)
    }

    /// The run is well formed and every collapsed entry's beads stay within its logarithm.
    pub open spec fn wf(&self) -> bool {
        &&& self.run.wf()
        &&& forall|n: u64| #[trigger] self.entries().contains_key(n) ==> beads_within(self.entries()[n], n as int)
    }

    /// A number in its factors, as far as the ledger has collapsed it.
    pub fn factors(&self, n: u64) -> (r: Option<Rods>)
        requires
            self.wf(),
        ensures
            r is None <==> factors_of(*self.run, self.entries(), n) is None,
            r matches Some(m) ==> factors_of(*self.run, self.entries(), n) == Some(m@) && beads_within(m@, n as int),
        decreases n,
    {
        if n == 1 {
            return Some(Rods::new());
        }
        match self.collapsed.get(&n) {
            Some(r) => {
                proof {
                    assert(self.entries().contains_key(n));
                }
                return Some(r.clone());
            },
            None => {},
        }
        match self.run.rectangle {
            Some((a, b)) => {
                if a * b == n {
                    proof {
                        lemma_side_below(a, b, n);
                        lemma_side_below(b, a, n);
                    }
                    let fa = match self.factors(a) {
                        Some(f) => f,
                        None => return None,
                    };
                    let fb = match self.factors(b) {
                        Some(f) => f,
                        None => return None,
                    };
                    proof {
                        lemma_held_within(fa@, fb@, a as int, b as int);
                    }
                    return Some(hold(&fa, &fb));
                }
            },
            None => {},
        }
        match self.run.squares.get(&n) {
            Some(a) => {
                let a = *a;
                proof {
                    lemma_root_below(a, n);
                }
                let fa = match self.factors(a) {
                    Some(f) => f,
                    None => return None,
                };
                proof {
                    lemma_held_within(fa@, fa@, a as int, a as int);
                }
                return Some(hold(&fa, &fa));
            },
            None => {},
        }
        if seam_has(&self.run.seam, n) {
            let mut m = Rods::new();
            m.insert(n, 1);
            proof {
                assert(m@ =~= map![n => 1u32]);
                vstd::arithmetic::power2::lemma2_to64();
            }
            return Some(m);
        }
        None
    }
}

/// Whether the seam names n.
fn seam_has(seam: &Vec<u64>, n: u64) -> (r: bool)
    ensures
        r == seam@.contains(n),
{
    let mut i: usize = 0;
    while i < seam.len()
        invariant
            0 <= i <= seam.len(),
            forall|j: int| 0 <= j < i ==> seam@[j] != n,
        decreases seam.len() - i,
    {
        if seam[i] == n {
            return true;
        }
        i += 1;
    }
    false
}


/// One cycle's limit: the whole reference r, its neighbours r − 1 and r + 1, the numerator (the
/// neighbours held together) and denominator (r's factors held twice), and the entry it collapsed.
pub struct Lim {
    pub cycle: usize,
    pub whole: u64,
    pub below: u64,
    pub above: u64,
    pub num: Rods,
    pub den: Rods,
    /// the entry this limit collapsed, if it had arrived as an unnamed atom
    pub deduped: Option<u64>,
}

/// A limit in the model: (cycle, whole, numerator, denominator, collapsed entry).
pub type LimModel = (int, u64, Map<u64, u32>, Map<u64, u32>, Option<u64>);

/// Whether a limit holds what the model says.
pub open spec fn lim_is(l: Lim, m: LimModel) -> bool {
    &&& l.cycle == m.0
    &&& l.whole == m.1
    &&& l.below == m.1 - 1
    &&& l.above == m.1 + 1
    &&& l.num@ == m.2
    &&& l.den@ == m.3
    &&& l.deduped == m.4
}

/// The set from cycle k (0-based) up to `end`, over collapsed entries c: each cycle reads its
/// reference r and its neighbours from the ledger, stops where a neighbour is not in it, and
/// collapses (r − 1)(r + 1) to the neighbours' factors when the ledger held it as an unnamed atom.
/// Gives the limits and the entries at the end.
pub open spec fn pf_from(run: Run, c: Map<u64, Map<u64, u32>>, k: int, end: int) -> (Seq<LimModel>, Map<u64, Map<u64, u32>>)
    decreases end - k,
{
    if k < 0 || k >= end || k >= run.seam.len() {
        (seq![], c)
    } else {
        let r = run.seam@[k];
        match (factors_of(run, c, r), factors_of(run, c, (r - 1) as u64), factors_of(run, c, (r + 1) as u64)) {
            (Some(fr), Some(fb), Some(fa)) => {
                let n = ((r - 1) * (r + 1)) as u64;
                let num = held(fb, fa);
                let dedup = factors_of(run, c, n) == Some(map![n => 1u32]) && num != map![n => 1u32];
                let c2 = if dedup { c.insert(n, num) } else { c };
                let rest = pf_from(run, c2, k + 1, end);
                (seq![(k + 1, r, num, held(fr, fr), if dedup { Some(n) } else { None })] + rest.0, rest.1)
            },
            _ => (seq![], c),
        }
    }
}

/// Whether every cycle the set reaches finds its reference in the ledger.
pub open spec fn references_found(run: Run, c: Map<u64, Map<u64, u32>>, k: int, end: int) -> bool
    decreases end - k,
{
    if k < 0 || k >= end || k >= run.seam.len() {
        true
    } else {
        let r = run.seam@[k];
        &&& factors_of(run, c, r) is Some
        &&& match (factors_of(run, c, (r - 1) as u64), factors_of(run, c, (r + 1) as u64)) {
            (Some(fb), Some(fa)) => {
                let n = ((r - 1) * (r + 1)) as u64;
                let num = held(fb, fa);
                let dedup = factors_of(run, c, n) == Some(map![n => 1u32]) && num != map![n => 1u32];
                references_found(run, if dedup { c.insert(n, num) } else { c }, k + 1, end)
            },
            _ => true,
        }
    }
}

/// The number of cycles the set reads: the cycles the run closed, as far as the seam goes.
pub open spec fn set_end(run: Run) -> int {
    if run.cycles < run.seam.len() { run.cycles as int } else { run.seam.len() as int }
}

/// Nothing names zero: it is in the ledger only if collapsed.
proof fn lemma_zero_unnamed(run: Run, c: Map<u64, Map<u64, u32>>)
    requires
        run.wf(),
        !c.contains_key(0),
    ensures
        factors_of(run, c, 0) is None,
{
    match run.rectangle {
        Some((a, b)) => {
            assert(a * b >= 4) by (nonlinear_arith)
                requires
                    2 <= a,
                    2 <= b,
            ;
        },
        None => {},
    }
    if run.squares@.contains_key(0) {
        let a = run.squares@[0];
        assert(a * a >= 1) by (nonlinear_arith)
            requires
                1 <= a,
        ;
    }
}

/// Whether a rod map is exactly n, once.
fn is_unnamed(m: &Rods, n: u64) -> (r: bool)
    ensures
        r == (m@ == map![n => 1u32]),
{
    proof {
        lemma_u64_keys_ordered();
    }
    if m.len() != 1 {
        proof {
            if m@ == map![n => 1u32] {
                assert(m@.dom() =~= set![n]);
            }
        }
        return false;
    }
    match m.get(&n) {
        Some(v) => {
            proof {
                assert(m@.dom().contains(n));
                vstd::set_lib::lemma_subset_equality(set![n], m@.dom());
                assert(m@.dom() =~= set![n]);
                if *v == 1 {
                    assert(m@ =~= map![n => 1u32]);
                }
            }
            *v == 1
        },
        None => false,
    }
}

/// Whether two rod maps hold the same atoms with the same beads.
fn same_rods(a: &Rods, b: &Rods) -> (r: bool)
    ensures
        r == (a@ == b@),
{
    proof {
        lemma_u64_keys_ordered();
    }
    if a.len() != b.len() {
        return false;
    }
    for (k, v) in it: a.iter()
        invariant
            a@.dom().len() == b@.dom().len(),
            it.seq() == spec_btree_map_iter(a).remaining(),
            forall|i: int| 0 <= i < it.seq().len() ==> a@.contains_key(*#[trigger] it.seq()[i].0) && a@[*it.seq()[i].0] == *it.seq()[i].1,
            forall|j: u64| #[trigger] a@.contains_key(j) ==> exists|i: int| 0 <= i < it.seq().len() && *it.seq()[i].0 == j,
            forall|i: int| 0 <= i < it.index() ==> b@.contains_key(*#[trigger] it.seq()[i].0) && b@[*it.seq()[i].0] == *it.seq()[i].1,
    {
        match b.get(k) {
            Some(w) => {
                if *w != *v {
                    return false;
                }
            },
            None => {
                return false;
            },
        }
    }
    proof {
        assert forall|j: u64| a@.contains_key(j) implies b@.contains_key(j) && b@[j] == a@[j] by {
            let i = choose|i: int| 0 <= i < spec_btree_map_iter(a).remaining().len() && *spec_btree_map_iter(a).remaining()[i].0 == j;
        }
        vstd::set_lib::lemma_subset_equality(a@.dom(), b@.dom());
        assert(a@ =~= b@);
    }
    true
}


/// The Pedro Fibonacci set over a run: one limit per cycle, as far as the ledger reaches, and
/// the ledger with the entries the limits collapsed.
pub fn pedro_fibonacci(run: &Run) -> (r: (Vec<Lim>, Ledger<'_>))
    requires
        run.wf(),
        references_found(*run, Map::empty(), 0, set_end(*run)),
    ensures
        r.1.run == run,
        r.1.wf(),
        r.0.len() == pf_from(*run, Map::empty(), 0, set_end(*run)).0.len(),
        forall|i: int| 0 <= i < r.0.len() ==> lim_is(#[trigger] r.0[i], pf_from(*run, Map::empty(), 0, set_end(*run)).0[i]),
        r.1.entries() == pf_from(*run, Map::empty(), 0, set_end(*run)).1,
{
    match pedro_fibonacci_checked(run) {
        Some(r) => r,
        None => {
            proof {
                assert(false);
            }
            (Vec::new(), Ledger { run, collapsed: BTreeMap::new() })
        },
    }
}

/// The Pedro Fibonacci set over a run, or `None` where a cycle's reference is not in the ledger.
pub fn pedro_fibonacci_checked(run: &Run) -> (r: Option<(Vec<Lim>, Ledger<'_>)>)
    requires
        run.wf(),
    ensures
        r is Some <==> references_found(*run, Map::empty(), 0, set_end(*run)),
        r matches Some(r) ==> {
            &&& r.1.run == run
            &&& r.1.wf()
            &&& r.0.len() == pf_from(*run, Map::empty(), 0, set_end(*run)).0.len()
            &&& forall|i: int| 0 <= i < r.0.len() ==> lim_is(#[trigger] r.0[i], pf_from(*run, Map::empty(), 0, set_end(*run)).0[i])
            &&& r.1.entries() == pf_from(*run, Map::empty(), 0, set_end(*run)).1
        },
{
    let mut ledger = Ledger { run, collapsed: BTreeMap::new() };
    let mut out: Vec<Lim> = Vec::new();
    let end: usize = if run.cycles < run.seam.len() { run.cycles } else { run.seam.len() };
    let ghost whole = pf_from(*run, Map::empty(), 0, end as int);
    let mut k: usize = 0;
    let mut going = true;
    proof {
        assert(ledger.entries() =~= Map::empty());
    }
    while going && k < end
        invariant
            end == set_end(*run),
            end <= run.seam.len(),
            k <= end,
            ledger.run == run,
            ledger.wf(),
            whole == pf_from(*run, Map::empty(), 0, end as int),
            going ==> (references_found(*run, Map::empty(), 0, end as int) == references_found(*run, ledger.entries(), k as int, end as int)),
            !going ==> references_found(*run, Map::empty(), 0, end as int),
            !ledger.entries().contains_key(0),
            going ==> {
                let rest = pf_from(*run, ledger.entries(), k as int, end as int);
                &&& whole.0.len() == out.len() + rest.0.len()
                &&& forall|i: int| 0 <= i < out.len() ==> lim_is(#[trigger] out@[i], whole.0[i])
                &&& forall|i: int| 0 <= i < rest.0.len() ==> whole.0[out.len() + i] == #[trigger] rest.0[i]
                &&& whole.1 == rest.1
            },
            !going ==> {
                &&& whole.0.len() == out.len()
                &&& forall|i: int| 0 <= i < out.len() ==> lim_is(#[trigger] out@[i], whole.0[i])
                &&& whole.1 == ledger.entries()
            },
        decreases end - k + if going { 1int } else { 0int },
    {
        let r = run.seam[k];
        let ghost c0 = ledger.entries();
        let fr = match ledger.factors(r) {
            Some(f) => f,
            None => {
                return None;
            },
        };
        proof {
            assert forall|j: u64| fr@.contains_key(j) implies fr@[j] + fr@[j] <= u32::MAX by {
                lemma_small_beads(fr@[j] as nat, r as int);
            }
            lemma_zero_unnamed(*run, ledger.entries());
        }
        let den = hold(&fr, &fr);
        let below = r - 1;
        let above = r + 1;
        let ob = ledger.factors(below);
        let oa = ledger.factors(above);
        match (ob, oa) {
            (Some(fb), Some(fa)) => {
                proof {
                    assert((r - 1) * (r + 1) <= u64::MAX) by (nonlinear_arith)
                        requires
                            1 <= r <= 0x1_0000_0000u64,
                    ;
                }
                let n = below * above;
                proof {
                    lemma_held_within(fb@, fa@, below as int, above as int);
                }
                let num = hold(&fb, &fa);
                let mut deduped: Option<u64> = None;
                let cur = ledger.factors(n);
                match cur {
                    Some(current) => {
                        if is_unnamed(&current, n) && !same_rods(&num, &current) {
                            let ghost before = ledger.entries();
                            ledger.collapsed.insert(n, num.clone());
                            proof {
                                assert(ledger.entries() =~= before.insert(n, num@));
                            }
                            deduped = Some(n);
                        }
                    },
                    None => {},
                }
                let ghost model: LimModel = (k + 1, r, num@, den@, deduped);
                let ghost rest0 = pf_from(*run, c0, k as int, end as int);
                let ghost rest = pf_from(*run, ledger.entries(), k + 1, end as int);
                proof {
                    assert(rest0 == (seq![model] + rest.0, rest.1));
                }
                let ghost len0 = out.len();
                out.push(Lim { cycle: k + 1, whole: r, below, above, num, den, deduped });
                k += 1;
                proof {
                    assert(whole.0[len0 as int] == rest0.0[0]);
                    assert(lim_is(out@[len0 as int], model));
                    assert forall|i: int| 0 <= i < rest.0.len() implies whole.0[out.len() + i] == #[trigger] rest.0[i] by {
                        assert(rest0.0[i + 1] == rest.0[i]);
                    }
                }
            },
            _ => {
                going = false;
            },
        }
    }
    Some((out, ledger))
}


// ── text ────────────────────────────────────────────────────────────────────

pub(crate) proof fn lemma_encode_concat(a: Seq<char>, b: Seq<char>)
    ensures
        encode_utf8(a + b) == encode_utf8(a) + encode_utf8(b),
    decreases a.len(),
{
    if a.len() == 0 {
        assert(a + b =~= b);
    } else {
        lemma_encode_concat(a.drop_first(), b);
        assert((a + b).drop_first() =~= a.drop_first() + b);
    }
}

proof fn lemma_encode_one(c: char)
    ensures
        encode_utf8(seq![c]) == encode_scalar(c as u32),
{
    let one = seq![c];
    assert(one.drop_first() =~= Seq::<char>::empty());
    assert(encode_utf8(one.drop_first()) == Seq::<u8>::empty());
    assert(one[0] == c);
    assert(encode_utf8(one) == encode_scalar(one[0] as u32) + encode_utf8(one.drop_first()));
    assert(encode_scalar(c as u32) + Seq::<u8>::empty() =~= encode_scalar(c as u32));
}

/// Appends the UTF-8 encoding of c.
pub(crate) fn push_char(out: &mut Vec<u8>, c: char)
    ensures
        final(out)@ == old(out)@ + encode_utf8(seq![c]),
{
    proof {
        lemma_encode_one(c);
        vstd::utf8::char_is_scalar(c);
    }
    let u = c as u32;
    if u <= 0x7F {
        out.push((u & 0x7F) as u8);
    } else if u <= 0x7FF {
        out.push(0xC0 | ((u >> 6) & 0x1F) as u8);
        out.push(0x80 | (u & 0x3F) as u8);
    } else if u <= 0xFFFF {
        out.push(0xE0 | ((u >> 12) & 0x0F) as u8);
        out.push(0x80 | ((u >> 6) & 0x3F) as u8);
        out.push(0x80 | (u & 0x3F) as u8);
    } else {
        out.push(0xF0 | ((u >> 18) & 0x7) as u8);
        out.push(0x80 | ((u >> 12) & 0x3F) as u8);
        out.push(0x80 | ((u >> 6) & 0x3F) as u8);
        out.push(0x80 | (u & 0x3F) as u8);
    }
    proof {
        assert(final(out)@ =~= old(out)@ + encode_scalar(c as u32));
    }
}

/// A natural number in decimal digits.
pub open spec fn dec_chars(n: nat) -> Seq<char>
    decreases n,
{
    if n < 10 {
        seq![digit_char(n)]
    } else {
        dec_chars(n / 10).push(digit_char(n % 10))
    }
}

/// The decimal digit d.
pub open spec fn digit_char(d: nat) -> char {
    if d == 0 { '0' } else if d == 1 { '1' } else if d == 2 { '2' } else if d == 3 { '3' }
    else if d == 4 { '4' } else if d == 5 { '5' } else if d == 6 { '6' } else if d == 7 { '7' }
    else if d == 8 { '8' } else { '9' }
}

/// The superscript digit d.
pub open spec fn sup_digit(d: nat) -> char {
    if d == 0 { '⁰' } else if d == 1 { '¹' } else if d == 2 { '²' } else if d == 3 { '³' }
    else if d == 4 { '⁴' } else if d == 5 { '⁵' } else if d == 6 { '⁶' } else if d == 7 { '⁷' }
    else if d == 8 { '⁸' } else { '⁹' }
}

/// A natural number in superscript digits.
pub open spec fn sup_chars(n: nat) -> Seq<char>
    decreases n,
{
    if n < 10 {
        seq![sup_digit(n)]
    } else {
        sup_chars(n / 10).push(sup_digit(n % 10))
    }
}

fn digit_of(d: u64) -> (c: char)
    requires
        d < 10,
    ensures
        c == digit_char(d as nat),
{
    if d == 0 { '0' } else if d == 1 { '1' } else if d == 2 { '2' } else if d == 3 { '3' }
    else if d == 4 { '4' } else if d == 5 { '5' } else if d == 6 { '6' } else if d == 7 { '7' }
    else if d == 8 { '8' } else { '9' }
}

fn sup_of(d: u32) -> (c: char)
    requires
        d < 10,
    ensures
        c == sup_digit(d as nat),
{
    if d == 0 { '⁰' } else if d == 1 { '¹' } else if d == 2 { '²' } else if d == 3 { '³' }
    else if d == 4 { '⁴' } else if d == 5 { '⁵' } else if d == 6 { '⁶' } else if d == 7 { '⁷' }
    else if d == 8 { '⁸' } else { '⁹' }
}

pub(crate) fn push_dec_chars(out: &mut Vec<u8>, n: u64)
    ensures
        final(out)@ == old(out)@ + encode_utf8(dec_chars(n as nat)),
    decreases n,
{
    if n >= 10 {
        push_dec_chars(out, n / 10);
    }
    let ghost mid = out@;
    push_char(out, digit_of(n % 10));
    proof {
        if n >= 10 {
            lemma_encode_concat(dec_chars((n / 10) as nat), seq![digit_char((n % 10) as nat)]);
            assert(dec_chars(n as nat) =~= dec_chars((n / 10) as nat) + seq![digit_char((n % 10) as nat)]);
        }
    }
}

fn push_sup_chars(out: &mut Vec<u8>, n: u32)
    ensures
        final(out)@ == old(out)@ + encode_utf8(sup_chars(n as nat)),
    decreases n,
{
    if n >= 10 {
        push_sup_chars(out, n / 10);
    }
    push_char(out, sup_of(n % 10));
    proof {
        if n >= 10 {
            lemma_encode_concat(sup_chars((n / 10) as nat), seq![sup_digit((n % 10) as nat)]);
            assert(sup_chars(n as nat) =~= sup_chars((n / 10) as nat) + seq![sup_digit((n % 10) as nat)]);
        }
    }
}

/// The string whose UTF-8 encoding `out` holds.
pub(crate) fn string_of(out: &Vec<u8>, Ghost(chars): Ghost<Seq<char>>) -> (s: String)
    requires
        out@ == encode_utf8(chars),
    ensures
        s@ == chars,
{
    proof {
        vstd::utf8::encode_utf8_valid_utf8(chars);
        vstd::utf8::encode_utf8_decode_utf8(chars);
    }
    match crate::cubfile::utf8_string(out.as_slice()) {
        Some(s) => s,
        None => {
            proof {
                assert(false);
            }
            String::new()
        },
    }
}

/// A bead count in superscript digits.
pub fn sup(v: u32) -> (s: String)
    ensures
        s@ == sup_chars(v as nat),
{
    let mut out: Vec<u8> = Vec::new();
    push_sup_chars(&mut out, v);
    proof {
        assert(out@ =~= encode_utf8(sup_chars(v as nat)));
    }
    string_of(&out, Ghost(sup_chars(v as nat)))
}


/// One atom with its beads: the name in decimal, the beads in superscript.
pub open spec fn rod_chars(a: u64, b: u32) -> Seq<char> {
    dec_chars(a as nat) + sup_chars(b as nat)
}

/// The atoms `ks` of m, each with its beads, joined by " × ".
pub open spec fn rods_join(ks: Seq<u64>, m: Map<u64, u32>) -> Seq<char>
    decreases ks.len(),
{
    if ks.len() <= 1 {
        if ks.len() == 0 { seq![] } else { rod_chars(ks[0], m[ks[0]]) }
    } else {
        rods_join(ks.drop_last(), m) + seq![' ', '×', ' '] + rod_chars(ks.last(), m[ks.last()])
    }
}

/// `ks` lists the atoms of m in increasing order.
pub open spec fn in_key_order(ks: Seq<u64>, m: Map<u64, u32>) -> bool {
    &&& forall|i: int, j: int| 0 <= i < j < ks.len() ==> ks[i] < ks[j]
    &&& forall|i: int| 0 <= i < ks.len() ==> m.contains_key(#[trigger] ks[i])
    &&& forall|k: u64| #[trigger] m.contains_key(k) ==> ks.contains(k)
}

/// A rod map as text over its atoms in order: "1" when empty.
pub open spec fn rods_chars(ks: Seq<u64>, m: Map<u64, u32>) -> Seq<char> {
    if ks.len() == 0 { seq!['1'] } else { rods_join(ks, m) }
}

/// A rod map as text: each atom with its beads in superscript, in increasing order, joined by
/// " × "; "1" when it holds no atom.
pub fn rods_text(r: &Rods) -> (s: String)
    ensures
        exists|ks: Seq<u64>| in_key_order(ks, r@) && s@ == rods_chars(ks, r@),
{
    let (out, Ghost(ks)) = rods_text_bytes(r);
    string_of(&out, Ghost(rods_chars(ks, r@)))
}

/// A prefix of a map's entries in iteration order has strictly increasing keys.
proof fn lemma_increasing_keys<'a>(rem: Seq<(&'a u64, &'a u32)>, ks: Seq<u64>)
    requires
        vstd::std_specs::btree::increasing_seq(rem.map_values(|kv: (&u64, &u32)| *kv.0)),
        ks.len() <= rem.len(),
        forall|i: int| 0 <= i < ks.len() ==> ks[i] == *#[trigger] rem[i].0,
    ensures
        forall|i: int, j: int| 0 <= i < j < ks.len() ==> ks[i] < ks[j],
{
    lemma_u64_keys_ordered();
    let km = rem.map_values(|kv: (&u64, &u32)| *kv.0);
    vstd::std_specs::btree::axiom_increasing_seq_meaning(km);
    assert forall|i: int, j: int| 0 <= i < j < ks.len() implies ks[i] < ks[j] by {
        assert(km[i] == ks[i]);
        assert(km[j] == ks[j]);
        assert(vstd::std_specs::cmp::OrdSpec::cmp_spec(&km[i], &km[j]) is Less);
    }
}

fn rods_text_bytes(r: &Rods) -> (res: (Vec<u8>, Ghost<Seq<u64>>))
    ensures
        in_key_order(res.1@, r@),
        res.0@ == encode_utf8(rods_chars(res.1@, r@)),
{
    proof {
        lemma_u64_keys_ordered();
    }
    let mut out: Vec<u8> = Vec::new();
    if r.is_empty() {
        push_char(&mut out, '1');
        proof {
            assert(out@ =~= encode_utf8(rods_chars(seq![], r@)));
        }
        let ghost none: Seq<u64> = seq![];
        return (out, Ghost(none));
    }
    let ghost mut ks: Seq<u64> = seq![];
    let mut first = true;
    let ghost rem = spec_btree_map_iter(r).remaining();
    proof {
        assert forall|j: u64| #[trigger] r@.contains_key(j) implies exists|i: int| 0 <= i < rem.len() && *rem[i].0 == j by {
            let i = choose|i: int| 0 <= i < rem.len() && rem[i] == (&j, &r@[j]);
        }
    }
    for (a, b) in it: r.iter()
        invariant
            r@.len() > 0,
            it.seq() == rem,
            rem == spec_btree_map_iter(r).remaining(),
            forall|i: int| 0 <= i < rem.len() ==> r@.contains_key(*#[trigger] rem[i].0) && r@[*rem[i].0] == *rem[i].1,
            forall|j: u64| #[trigger] r@.contains_key(j) ==> ks.contains(j) || exists|i: int| it.index() <= i < rem.len() && *rem[i].0 == j,
            vstd::std_specs::btree::increasing_seq(rem.map_values(|kv: (&u64, &u32)| *kv.0)),
            ks.len() == it.index(),
            first == (ks.len() == 0),
            forall|i: int| 0 <= i < ks.len() ==> ks[i] == *#[trigger] rem[i].0,
            ks.len() == 0 ==> out@.len() == 0,
            ks.len() > 0 ==> out@ == encode_utf8(rods_join(ks, r@)),
    {
        let ghost ks0 = ks;
        if !first {
            push_char(&mut out, ' ');
            push_char(&mut out, '×');
            push_char(&mut out, ' ');
        }
        push_dec_chars(&mut out, *a);
        push_sup_chars(&mut out, *b);
        first = false;
        proof {
            ks = ks.push(*a);
            assert(ks.drop_last() =~= ks0);
            assert(ks.last() == *a);
            let sep = seq![' ', '×', ' '];
            lemma_encode_concat(dec_chars(*a as nat), sup_chars(*b as nat));
            if ks0.len() > 0 {
                lemma_encode_concat(seq![' '], seq!['×']);
                lemma_encode_concat(seq![' ', '×'], seq![' ']);
                assert(seq![' '] + seq!['×'] =~= seq![' ', '×']);
                assert(seq![' ', '×'] + seq![' '] =~= sep);
                lemma_encode_concat(rods_join(ks0, r@), sep);
                lemma_encode_concat(rods_join(ks0, r@) + sep, rod_chars(*a, *b));
                assert(out@ =~= encode_utf8(rods_join(ks0, r@) + sep + rod_chars(*a, *b)));
            } else {
                assert(out@ =~= encode_utf8(rod_chars(*a, *b)));
            }
        }
    }
    proof {
        assert(ks.len() == rem.len());
        lemma_increasing_keys(rem, ks);
        assert forall|k: u64| #[trigger] r@.contains_key(k) implies ks.contains(k) by {}
        assert forall|i: int| 0 <= i < ks.len() implies r@.contains_key(#[trigger] ks[i]) by {
            assert(ks[i] == *rem[i].0);
        }
    }
    (out, Ghost(ks))
}

/// A rod map's text, in parentheses when it holds more than one atom.
pub open spec fn wrapped_chars(ks: Seq<u64>, m: Map<u64, u32>) -> Seq<char> {
    if m.len() > 1 { seq!['('] + rods_chars(ks, m) + seq![')'] } else { rods_chars(ks, m) }
}

fn push_wrapped(out: &mut Vec<u8>, r: &Rods) -> (ks: Ghost<Seq<u64>>)
    ensures
        in_key_order(ks@, r@),
        final(out)@ == old(out)@ + encode_utf8(wrapped_chars(ks@, r@)),
{
    proof {
        lemma_u64_keys_ordered();
    }
    let (mut body, Ghost(ks)) = rods_text_bytes(r);
    let ghost text = rods_chars(ks, r@);
    if r.len() > 1 {
        push_char(out, '(');
        out.append(&mut body);
        push_char(out, ')');
        proof {
            lemma_encode_concat(seq!['('], text);
            lemma_encode_concat(seq!['('] + text, seq![')']);
            assert(final(out)@ =~= old(out)@ + encode_utf8(wrapped_chars(ks, r@)));
        }
    } else {
        out.append(&mut body);
    }
    Ghost(ks)
}

/// A relation as text: numerator over denominator, each in parentheses when it holds more than
/// one atom.
pub fn relation_text(num: &Rods, den: &Rods) -> (s: String)
    ensures
        exists|kn: Seq<u64>, kd: Seq<u64>|
            in_key_order(kn, num@) && in_key_order(kd, den@) && s@ == wrapped_chars(kn, num@) + seq!['/'] + wrapped_chars(kd, den@),
{
    let mut out: Vec<u8> = Vec::new();
    let Ghost(kn) = push_wrapped(&mut out, num);
    push_char(&mut out, '/');
    let Ghost(kd) = push_wrapped(&mut out, den);
    let ghost text = wrapped_chars(kn, num@) + seq!['/'] + wrapped_chars(kd, den@);
    proof {
        lemma_encode_concat(wrapped_chars(kn, num@), seq!['/']);
        lemma_encode_concat(wrapped_chars(kn, num@) + seq!['/'], wrapped_chars(kd, den@));
        assert(out@ =~= encode_utf8(text));
    }
    string_of(&out, Ghost(text))
}

/// d ≤ ⌊n / d⌋ exactly when d² ≤ n.
proof fn lemma_square_below(d: int, n: int)
    requires
        0 < d,
        0 <= n,
    ensures
        (d <= n / d) == (d * d <= n),
{
    vstd::arithmetic::div_mod::lemma_fundamental_div_mod(n, d);
    let q = n / d;
    let m = n % d;
    assert(0 <= m < d);
    if d <= q {
        assert(d * d <= d * q) by (nonlinear_arith)
            requires
                d <= q,
                0 < d,
        ;
    } else {
        assert(d * d >= d * (q + 1)) by (nonlinear_arith)
            requires
                q + 1 <= d,
                0 < d,
        ;
        assert(d * (q + 1) == d * q + d) by (nonlinear_arith);
    }
}

/// Whether d divides n.
pub open spec fn divides(d: int, n: int) -> bool {
    n % d == 0
}

/// Whether n has a divisor d with 2 ≤ d and d² ≤ n (n > 3): trial division by the line. An outside
/// check, reported and never used by the ledger.
pub fn shadow_composite(n: u64) -> (r: bool)
    ensures
        r == (n > 3 && exists|d: int| 2 <= d && d * d <= n && #[trigger] divides(d, n as int)),
{
    if n <= 3 {
        return false;
    }
    let mut d: u64 = 2;
    while d <= n / d
        invariant
            2 <= d,
            3 < n,
            (d - 1) * (d - 1) <= n,
            d <= 0x1_0000_0000u64,
            forall|e: int| 2 <= e < d ==> !#[trigger] divides(e, n as int),
        decreases n - d,
    {
        proof {
            lemma_square_below(d as int, n as int);
        }
        if n % d == 0 {
            proof {
                assert(divides(d as int, n as int));
            }
            return true;
        }
        proof {
            assert(d * d <= n);
            assert(d < n) by (nonlinear_arith)
                requires
                    2 <= d,
                    d * d <= n,
            ;
            assert(d < 0x1_0000_0000u64) by (nonlinear_arith)
                requires
                    d * d <= n,
                    n <= u64::MAX,
            ;
        }
        d += 1;
    }
    proof {
        lemma_square_below(d as int, n as int);
        assert forall|e: int| 2 <= e && e * e <= n implies !#[trigger] divides(e, n as int) by {
            if e >= d {
                assert(e * e >= d * d) by (nonlinear_arith)
                    requires
                        e >= d,
                        d >= 0,
                ;
            }
        }
    }
    false
}

} // verus!
