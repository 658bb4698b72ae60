//! The mesh of a rendered ball: every atom (a cell of the model, a point) lands in one cell of a
//! W × H frame. R renders an atom into its cell at a level (coordinates halved `level` times);
//! O observes a pooled cell: the atoms of every finer cell under it. `tight`: R(a) ∈ C ⇔ a ∈ O(C).

use vstd::arithmetic::power2::*;
use crate::pf::{lemma_encode_concat, push_char, string_of};
use std::collections::BTreeMap;
use vstd::prelude::*;
use vstd::std_specs::btree::spec_btree_map_iter;
use vstd::std_specs::iter::IteratorSpec;
use vstd::utf8::encode_utf8;


verus! {

/// The mesh: the frame, and where every atom landed (atom id = its index).
pub struct Mesh {
    pub w: usize,
    pub h: usize,
    pub digits: u32,
    /// cell → the atoms in it, in id order; one entry per occupied cell
    pub cells: Vec<((usize, usize), Vec<u32>)>,
    /// atom id → its cell
    pub where_: Vec<(usize, usize)>,
}

/// The atoms among the first n that landed in cell c, in id order.
pub open spec fn atoms_at(wh: Seq<(usize, usize)>, c: (usize, usize), n: int) -> Seq<u32>
    decreases n,
{
    if n <= 0 {
        seq![]
    } else {
        atoms_at(wh, c, n - 1) + if wh[n - 1] == c {
            seq![(n - 1) as u32]
        } else {
            seq![]
        }
    }
}

/// The pooled cell a landing renders to at a level: both coordinates divided by 2^level.
#[verifier::opaque]
pub open spec fn rendered(p: (usize, usize), level: nat) -> (int, int) {
    (p.0 as int / pow2(level) as int, p.1 as int / pow2(level) as int)
}

/// How many of the first n atoms render to pooled cell c.
pub open spec fn count_at(wh: Seq<(usize, usize)>, level: nat, c: (int, int), n: int) -> nat
    decreases n,
{
    if n <= 0 {
        0
    } else {
        count_at(wh, level, c, n - 1) + if rendered(wh[n - 1], level) == c {
            1nat
        } else {
            0nat
        }
    }
}

/// What observing pooled cell c at pooling k gives: the atoms of every finer cell under it,
/// finer rows di < k outer, columns dj < k inner; the first `di` rows.
pub open spec fn obs_rows(wh: Seq<(usize, usize)>, c: (usize, usize), k: int, di: int) -> Seq<u32>
    decreases di,
{
    if di <= 0 {
        seq![]
    } else {
        obs_rows(wh, c, k, di - 1) + obs_cols(wh, c, k, di - 1, k)
    }
}

/// Finer row di under c: its first `dj` cells.
pub open spec fn obs_cols(wh: Seq<(usize, usize)>, c: (usize, usize), k: int, di: int, dj: int) -> Seq<u32>
    decreases dj,
{
    if dj <= 0 {
        seq![]
    } else {
        obs_cols(wh, c, k, di, dj - 1) + atoms_at(
            wh,
            ((c.0 * k + di) as usize, (c.1 * k + dj - 1) as usize),
            wh.len() as int,
        )
    }
}

proof fn lemma_atoms_at_cell(wh: Seq<(usize, usize)>, c: (usize, usize), n: int)
    requires
        0 <= n <= wh.len(),
        n <= 0x1_0000_0000,
    ensures
        forall|q: int| 0 <= q < atoms_at(wh, c, n).len() ==> {
            &&& (#[trigger] atoms_at(wh, c, n)[q]) < n
            &&& wh[atoms_at(wh, c, n)[q] as int] == c
        },
        (forall|a: int| 0 <= a < n ==> wh[a] != c) ==> atoms_at(wh, c, n).len() == 0,
        atoms_at(wh, c, n).len() <= n,
    decreases n,
{
    if n > 0 {
        lemma_atoms_at_cell(wh, c, n - 1);
        let s = atoms_at(wh, c, n);
        let s0 = atoms_at(wh, c, n - 1);
        assert forall|q: int| 0 <= q < s.len() implies (#[trigger] s[q]) < n && wh[s[q] as int] == c by {
            if q < s0.len() {
                assert(s[q] == s0[q]);
            }
        }
    }
}

proof fn lemma_atoms_at_has(wh: Seq<(usize, usize)>, c: (usize, usize), n: int, a: int)
    requires
        0 <= a < n <= wh.len(),
        n <= 0x1_0000_0000,
        wh[a] == c,
    ensures
        atoms_at(wh, c, n).contains(a as u32),
    decreases n,
{
    if a < n - 1 {
        lemma_atoms_at_has(wh, c, n - 1, a);
        let s0 = atoms_at(wh, c, n - 1);
        let w = choose|q: int| 0 <= q < s0.len() && s0[q] == a as u32;
        assert(atoms_at(wh, c, n)[w] == a as u32);
    } else {
        let s = atoms_at(wh, c, n);
        assert(s[s.len() - 1] == a as u32);
    }
}

/// The cells group the first n atoms: one entry per occupied cell, listing its atoms.
pub open spec fn grouped(cells: Seq<((usize, usize), Vec<u32>)>, wh: Seq<(usize, usize)>, n: int) -> bool {
    &&& forall|i: int, j: int| 0 <= i < cells.len() && 0 <= j < cells.len() && i != j ==> cells[i].0 != cells[j].0
    &&& forall|i: int| 0 <= i < cells.len() ==> (#[trigger] cells[i]).1@ == atoms_at(wh, cells[i].0, n)
    &&& forall|a: int| 0 <= a < n ==> exists|i: int| 0 <= i < cells.len() && cells[i].0 == #[trigger] wh[a]
    &&& forall|i: int| 0 <= i < cells.len() ==> exists|a: int| 0 <= a < n && wh[a] == (#[trigger] cells[i]).0
}

proof fn lemma_group_join(c0: Seq<((usize, usize), Vec<u32>)>, c1: Seq<((usize, usize), Vec<u32>)>, wh: Seq<(usize, usize)>, n: int, i: int)
    requires
        grouped(c0, wh, n),
        0 <= n < wh.len(),
        n < 0x1_0000_0000,
        0 <= i < c0.len(),
        c0[i].0 == wh[n],
        c1.len() == c0.len(),
        c1[i].0 == c0[i].0,
        c1[i].1@ == c0[i].1@.push(n as u32),
        forall|q: int| 0 <= q < c0.len() && q != i ==> #[trigger] c1[q] == c0[q],
    ensures
        grouped(c1, wh, n + 1),
{
    assert forall|q: int| 0 <= q < c1.len() implies (#[trigger] c1[q]).1@ == atoms_at(wh, c1[q].0, n + 1) by {
        if q != i {
            assert(c1[q] == c0[q]);
            assert(c0[q].0 != c0[i].0);
        }
    }
    assert forall|a: int| 0 <= a < n + 1 implies exists|q: int| 0 <= q < c1.len() && c1[q].0 == #[trigger] wh[a] by {
        if a == n {
            assert(c1[i].0 == wh[a]);
        } else {
            let w = choose|w: int| 0 <= w < c0.len() && c0[w].0 == #[trigger] wh[a];
            assert(c1[w].0 == wh[a]);
        }
    }
    assert forall|q: int| 0 <= q < c1.len() implies exists|a: int| 0 <= a < n + 1 && wh[a] == (#[trigger] c1[q]).0 by {
        let a = choose|a: int| 0 <= a < n && wh[a] == (#[trigger] c0[q]).0;
        assert(wh[a] == c1[q].0);
    }
    assert forall|p: int, q: int| 0 <= p < c1.len() && 0 <= q < c1.len() && p != q implies c1[p].0 != c1[q].0 by {
        assert(c1[p].0 == c0[p].0 && c1[q].0 == c0[q].0);
    }
}

proof fn lemma_group_new(c0: Seq<((usize, usize), Vec<u32>)>, c1: Seq<((usize, usize), Vec<u32>)>, wh: Seq<(usize, usize)>, n: int)
    requires
        grouped(c0, wh, n),
        0 <= n < wh.len(),
        n < 0x1_0000_0000,
        forall|q: int| 0 <= q < c0.len() ==> (#[trigger] c0[q]).0 != wh[n],
        c1.len() == c0.len() + 1,
        c1[c0.len() as int].0 == wh[n],
        c1[c0.len() as int].1@ == seq![n as u32],
        forall|q: int| 0 <= q < c0.len() ==> #[trigger] c1[q] == c0[q],
    ensures
        grouped(c1, wh, n + 1),
{
    let last = c0.len() as int;
    assert forall|a: int| 0 <= a < n implies wh[a] != wh[n] by {
        let w = choose|w: int| 0 <= w < c0.len() && c0[w].0 == #[trigger] wh[a];
        assert(c0[w].0 != wh[n]);
    }
    lemma_atoms_at_cell(wh, wh[n], n);
    assert forall|q: int| 0 <= q < c1.len() implies (#[trigger] c1[q]).1@ == atoms_at(wh, c1[q].0, n + 1) by {
        if q == last {
            assert(c1[q].1@ =~= atoms_at(wh, c1[q].0, n + 1));
        } else {
            assert(c1[q] == c0[q]);
        }
    }
    assert forall|a: int| 0 <= a < n + 1 implies exists|q: int| 0 <= q < c1.len() && c1[q].0 == #[trigger] wh[a] by {
        if a == n {
            assert(c1[last].0 == wh[a]);
        } else {
            let w = choose|w: int| 0 <= w < c0.len() && c0[w].0 == #[trigger] wh[a];
            assert(c1[w].0 == wh[a]);
        }
    }
    assert forall|q: int| 0 <= q < c1.len() implies exists|a: int| 0 <= a < n + 1 && wh[a] == (#[trigger] c1[q]).0 by {
        if q == last {
            assert(wh[n] == c1[q].0);
        } else {
            let a = choose|a: int| 0 <= a < n && wh[a] == (#[trigger] c0[q]).0;
            assert(wh[a] == c1[q].0);
        }
    }
    assert forall|p: int, q: int| 0 <= p < c1.len() && 0 <= q < c1.len() && p != q implies c1[p].0 != c1[q].0 by {
        if p == last {
            assert(c1[q] == c0[q]);
        } else if q == last {
            assert(c1[p] == c0[p]);
        } else {
            assert(c1[p] == c0[p] && c1[q] == c0[q]);
        }
    }
}

/// The pooled counts hold, one entry per pooled cell some atom renders to, how many of the
/// n atoms render there.
pub open spec fn counts_ok(v: Seq<((usize, usize), usize)>, wh: Seq<(usize, usize)>, level: nat, n: int) -> bool {
    &&& forall|i: int, j: int| 0 <= i < v.len() && 0 <= j < v.len() && i != j ==> v[i].0 != v[j].0
    &&& forall|i: int| 0 <= i < v.len() ==> (#[trigger] v[i]).1 == count_at(wh, level, (v[i].0.0 as int, v[i].0.1 as int), n)
    &&& forall|i: int| 0 <= i < v.len() ==> exists|a: int| 0 <= a < n && rendered(wh[a], level) == ((#[trigger] v[i]).0.0 as int, v[i].0.1 as int)
    &&& forall|a: int| 0 <= a < n ==> exists|i: int| 0 <= i < v.len() && rendered(#[trigger] wh[a], level) == (v[i].0.0 as int, v[i].0.1 as int)
}

proof fn lemma_count_step(wh: Seq<(usize, usize)>, level: nat, c: (int, int), n: int)
    requires
        0 <= n < wh.len(),
    ensures
        count_at(wh, level, c, n + 1) == count_at(wh, level, c, n) + if rendered(wh[n], level) == c { 1int } else { 0int },
{
}

proof fn lemma_count_none(wh: Seq<(usize, usize)>, level: nat, c: (int, int), n: int)
    requires
        0 <= n <= wh.len(),
        forall|a: int| 0 <= a < n ==> rendered(#[trigger] wh[a], level) != c,
    ensures
        count_at(wh, level, c, n) == 0,
    decreases n,
{
    if n > 0 {
        lemma_count_none(wh, level, c, n - 1);
    }
}

proof fn lemma_count_bound(wh: Seq<(usize, usize)>, level: nat, c: (int, int), n: int)
    requires
        0 <= n <= wh.len(),
    ensures
        count_at(wh, level, c, n) <= n,
    decreases n,
{
    if n > 0 {
        lemma_count_bound(wh, level, c, n - 1);
    }
}

/// Every atom observed under pooled cell c renders to c.
proof fn lemma_obs_rendered(wh: Seq<(usize, usize)>, c: (usize, usize), level: nat, di: int)
    requires
        0 <= di <= pow2(level),
        wh.len() <= 0x1_0000_0000,
        (c.0 + 1) * pow2(level) <= usize::MAX + 1,
        (c.1 + 1) * pow2(level) <= usize::MAX + 1,
    ensures
        forall|q: int| 0 <= q < obs_rows(wh, c, pow2(level) as int, di).len() ==> {
            &&& (#[trigger] obs_rows(wh, c, pow2(level) as int, di)[q]) < wh.len()
            &&& rendered(wh[obs_rows(wh, c, pow2(level) as int, di)[q] as int], level) == (c.0 as int, c.1 as int)
        },
    decreases di,
{
    let k = pow2(level) as int;
    lemma_pow2_pos(level);
    if di > 0 {
        lemma_obs_rendered(wh, c, level, di - 1);
        lemma_obs_cols_rendered(wh, c, level, di - 1, k);
        let a = obs_rows(wh, c, k, di - 1);
        let b = obs_cols(wh, c, k, di - 1, k);
        assert forall|q: int| 0 <= q < (a + b).len() implies (#[trigger] (a + b)[q]) < wh.len() && rendered(
            wh[(a + b)[q] as int],
            level,
        ) == (c.0 as int, c.1 as int) by {
            if q < a.len() {
                assert((a + b)[q] == a[q]);
            } else {
                assert((a + b)[q] == b[q - a.len()]);
            }
        }
    }
}

proof fn lemma_obs_cols_rendered(wh: Seq<(usize, usize)>, c: (usize, usize), level: nat, di: int, dj: int)
    requires
        0 <= di < pow2(level),
        0 <= dj <= pow2(level),
        wh.len() <= 0x1_0000_0000,
        (c.0 + 1) * pow2(level) <= usize::MAX + 1,
        (c.1 + 1) * pow2(level) <= usize::MAX + 1,
    ensures
        forall|q: int| 0 <= q < obs_cols(wh, c, pow2(level) as int, di, dj).len() ==> {
            &&& (#[trigger] obs_cols(wh, c, pow2(level) as int, di, dj)[q]) < wh.len()
            &&& rendered(wh[obs_cols(wh, c, pow2(level) as int, di, dj)[q] as int], level) == (c.0 as int, c.1 as int)
        },
    decreases dj,
{
    let k = pow2(level) as int;
    lemma_pow2_pos(level);
    reveal(rendered);
    if dj > 0 {
        lemma_obs_cols_rendered(wh, c, level, di, dj - 1);
        let fine = ((c.0 * k + di) as usize, (c.1 * k + dj - 1) as usize);
        assert(c.0 * k + di < (c.0 + 1) * k) by (nonlinear_arith)
            requires di < k;
        assert(c.1 * k + dj - 1 < (c.1 + 1) * k) by (nonlinear_arith)
            requires dj - 1 < k;
        assert(fine.0 as int == c.0 * k + di);
        assert(fine.1 as int == c.1 * k + dj - 1);
        vstd::arithmetic::div_mod::lemma_fundamental_div_mod_converse(c.0 * k + di, k, c.0 as int, di);
        vstd::arithmetic::div_mod::lemma_fundamental_div_mod_converse(c.1 * k + dj - 1, k, c.1 as int, dj - 1);
        lemma_atoms_at_cell(wh, fine, wh.len() as int);
        let a = obs_cols(wh, c, k, di, dj - 1);
        let b = atoms_at(wh, fine, wh.len() as int);
        assert forall|q: int| 0 <= q < (a + b).len() implies (#[trigger] (a + b)[q]) < wh.len() && rendered(
            wh[(a + b)[q] as int],
            level,
        ) == (c.0 as int, c.1 as int) by {
            if q < a.len() {
                assert((a + b)[q] == a[q]);
            } else {
                assert((a + b)[q] == b[q - a.len()]);
            }
        }
    }
}

fn has_atom(list: &Vec<u32>, a: u32) -> (r: bool)
    ensures
        r == list@.contains(a),
{
    let mut i: usize = 0;
    while i < list.len()
        invariant
            0 <= i <= list.len(),
            forall|j: int| 0 <= j < i ==> list@[j] != a,
        decreases list.len() - i,
    {
        if list[i] == a {
            return true;
        }
        i += 1;
    }
    false
}

#[verifier::spinoff_prover]
#[verifier::rlimit(60)]
proof fn lemma_counts_bump(o0: Seq<((usize, usize), usize)>, o1: Seq<((usize, usize), usize)>, wh: Seq<(usize, usize)>, level: nat, n: int, i: int)
    requires
        counts_ok(o0, wh, level, n),
        0 <= n < wh.len(),
        0 <= i < o0.len(),
        rendered(wh[n], level) == (o0[i].0.0 as int, o0[i].0.1 as int),
        wh.len() <= usize::MAX,
        o1 == o0.update(i, (o0[i].0, (o0[i].1 + 1) as usize)),
    ensures
        counts_ok(o1, wh, level, n + 1),
{
    let c = o0[i].0;
    lemma_count_bound(wh, level, (c.0 as int, c.1 as int), n);
    assert forall|q: int| 0 <= q < o1.len() implies (#[trigger] o1[q]).1 == count_at(wh, level, (o1[q].0.0 as int, o1[q].0.1 as int), n + 1) by {
        let kq = (o1[q].0.0 as int, o1[q].0.1 as int);
        lemma_count_step(wh, level, kq, n);
        if q != i {
            assert(o1[q] == o0[q]);
            assert(o0[q].0 != c);
            assert(kq != (c.0 as int, c.1 as int));
        } else {
            assert(o0[i].1 == count_at(wh, level, (o0[i].0.0 as int, o0[i].0.1 as int), n));
            assert(o1[i].1 == o0[i].1 + 1);
            assert(kq == (c.0 as int, c.1 as int));
        }
    }
    assert forall|q: int| 0 <= q < o1.len() implies exists|a: int| 0 <= a < n + 1 && rendered(wh[a], level) == ((#[trigger] o1[q]).0.0 as int, o1[q].0.1 as int) by {
        let a = choose|a: int| 0 <= a < n && rendered(wh[a], level) == ((#[trigger] o0[q]).0.0 as int, o0[q].0.1 as int);
        assert(o1[q].0 == o0[q].0);
    }
    assert forall|a: int| 0 <= a < n + 1 implies exists|q: int| 0 <= q < o1.len() && rendered(#[trigger] wh[a], level) == (o1[q].0.0 as int, o1[q].0.1 as int) by {
        if a == n {
            assert(o1[i].0 == c);
        } else {
            let w = choose|w: int| 0 <= w < o0.len() && rendered(#[trigger] wh[a], level) == (o0[w].0.0 as int, o0[w].0.1 as int);
            assert(o1[w].0 == o0[w].0);
        }
    }
    assert forall|p: int, q: int| 0 <= p < o1.len() && 0 <= q < o1.len() && p != q implies o1[p].0 != o1[q].0 by {
        assert(o1[p].0 == o0[p].0 && o1[q].0 == o0[q].0);
    }
}

#[verifier::spinoff_prover]
#[verifier::rlimit(60)]
proof fn lemma_counts_new(o0: Seq<((usize, usize), usize)>, o1: Seq<((usize, usize), usize)>, wh: Seq<(usize, usize)>, level: nat, n: int)
    requires
        counts_ok(o0, wh, level, n),
        0 <= n < wh.len(),
        forall|q: int| 0 <= q < o0.len() ==> (#[trigger] o0[q]).0 != o1[o0.len() as int].0,
        o1.len() == o0.len() + 1,
        rendered(wh[n], level) == (o1[o0.len() as int].0.0 as int, o1[o0.len() as int].0.1 as int),
        o1[o0.len() as int].1 == 1,
        forall|q: int| 0 <= q < o0.len() ==> #[trigger] o1[q] == o0[q],
    ensures
        counts_ok(o1, wh, level, n + 1),
{
    let last = o0.len() as int;
    let c = o1[last].0;
    let cc = (c.0 as int, c.1 as int);
    assert forall|q: int| 0 <= q < o1.len() implies (#[trigger] o1[q]).1 == count_at(wh, level, (o1[q].0.0 as int, o1[q].0.1 as int), n + 1) by {
        let kq = (o1[q].0.0 as int, o1[q].0.1 as int);
        lemma_count_step(wh, level, kq, n);
        if q == last {
            assert forall|a: int| 0 <= a < n implies rendered(#[trigger] wh[a], level) != cc by {
                let w = choose|w: int| 0 <= w < o0.len() && rendered(#[trigger] wh[a], level) == (o0[w].0.0 as int, o0[w].0.1 as int);
                assert(o0[w].0 != c);
            }
            lemma_count_none(wh, level, cc, n);
        } else {
            assert(o1[q] == o0[q]);
            assert(o0[q].0 != c);
        }
    }
    assert forall|q: int| 0 <= q < o1.len() implies exists|a: int| 0 <= a < n + 1 && rendered(wh[a], level) == ((#[trigger] o1[q]).0.0 as int, o1[q].0.1 as int) by {
        if q == last {
            assert(rendered(wh[n], level) == cc);
        } else {
            let a = choose|a: int| 0 <= a < n && rendered(wh[a], level) == ((#[trigger] o0[q]).0.0 as int, o0[q].0.1 as int);
            assert(o1[q] == o0[q]);
        }
    }
    assert forall|a: int| 0 <= a < n + 1 implies exists|q: int| 0 <= q < o1.len() && rendered(#[trigger] wh[a], level) == (o1[q].0.0 as int, o1[q].0.1 as int) by {
        if a == n {
            assert(o1[last].0 == c);
        } else {
            let w = choose|w: int| 0 <= w < o0.len() && rendered(#[trigger] wh[a], level) == (o0[w].0.0 as int, o0[w].0.1 as int);
            assert(o1[w] == o0[w]);
        }
    }
    assert forall|p: int, q: int| 0 <= p < o1.len() && 0 <= q < o1.len() && p != q implies o1[p].0 != o1[q].0 by {
        if p == last {
            assert(o1[q] == o0[q]);
        } else if q == last {
            assert(o1[p] == o0[p]);
        } else {
            assert(o1[p] == o0[p] && o1[q] == o0[q]);
        }
    }
}

proof fn lemma_obs_cols_has(wh: Seq<(usize, usize)>, c: (usize, usize), k: int, di: int, dj: int, dj0: int, x: u32)
    requires
        0 <= dj0 < dj,
        atoms_at(wh, ((c.0 * k + di) as usize, (c.1 * k + dj0) as usize), wh.len() as int).contains(x),
    ensures
        obs_cols(wh, c, k, di, dj).contains(x),
    decreases dj,
{
    let a = obs_cols(wh, c, k, di, dj - 1);
    let b = atoms_at(wh, ((c.0 * k + di) as usize, (c.1 * k + dj - 1) as usize), wh.len() as int);
    if dj0 < dj - 1 {
        lemma_obs_cols_has(wh, c, k, di, dj - 1, dj0, x);
        let w = choose|w: int| 0 <= w < a.len() && a[w] == x;
        assert((a + b)[w] == x);
    } else {
        let w = choose|w: int| 0 <= w < b.len() && b[w] == x;
        assert((a + b)[a.len() + w] == x);
    }
}

proof fn lemma_obs_rows_has(wh: Seq<(usize, usize)>, c: (usize, usize), k: int, di: int, di0: int, x: u32)
    requires
        0 <= di0 < di,
        obs_cols(wh, c, k, di0, k).contains(x),
    ensures
        obs_rows(wh, c, k, di).contains(x),
    decreases di,
{
    let a = obs_rows(wh, c, k, di - 1);
    let b = obs_cols(wh, c, k, di - 1, k);
    if di0 < di - 1 {
        lemma_obs_rows_has(wh, c, k, di - 1, di0, x);
        let w = choose|w: int| 0 <= w < a.len() && a[w] == x;
        assert((a + b)[w] == x);
    } else {
        let w = choose|w: int| 0 <= w < b.len() && b[w] == x;
        assert((a + b)[a.len() + w] == x);
    }
}

/// tight: atom a renders to pooled cell c at a level exactly when observing c at that level
/// gives a.
pub proof fn lemma_tight(wh: Seq<(usize, usize)>, level: nat, a: int, c: (usize, usize))
    requires
        0 <= a < wh.len(),
        wh.len() <= 0x1_0000_0000,
        (c.0 + 1) * pow2(level) <= usize::MAX + 1,
        (c.1 + 1) * pow2(level) <= usize::MAX + 1,
    ensures
        rendered(wh[a], level) == (c.0 as int, c.1 as int) <==> obs_rows(wh, c, pow2(level) as int, pow2(level) as int).contains(
            a as u32,
        ),
{
    let k = pow2(level) as int;
    lemma_pow2_pos(level);
    lemma_obs_rendered(wh, c, level, k);
    let obs = obs_rows(wh, c, k, k);
    if obs.contains(a as u32) {
        let w = choose|w: int| 0 <= w < obs.len() && obs[w] == a as u32;
        assert(obs[w] as int == a);
    }
    if rendered(wh[a], level) == (c.0 as int, c.1 as int) {
        reveal(rendered);
        let p = wh[a];
        vstd::arithmetic::div_mod::lemma_fundamental_div_mod(p.0 as int, k);
        vstd::arithmetic::div_mod::lemma_fundamental_div_mod(p.1 as int, k);
        vstd::arithmetic::div_mod::lemma_mod_pos_bound(p.0 as int, k);
        vstd::arithmetic::div_mod::lemma_mod_pos_bound(p.1 as int, k);
        let di = p.0 as int % k;
        let dj = p.1 as int % k;
        assert(p.0 as int == c.0 * k + di) by (nonlinear_arith)
            requires p.0 as int == k * (p.0 as int / k) + di, p.0 as int / k == c.0;
        assert(p.1 as int == c.1 * k + dj) by (nonlinear_arith)
            requires p.1 as int == k * (p.1 as int / k) + dj, p.1 as int / k == c.1;
        assert(((c.0 * k + di) as usize, (c.1 * k + dj) as usize) == p);
        lemma_atoms_at_has(wh, p, wh.len() as int, a);
        lemma_obs_cols_has(wh, c, k, di, k, dj, a as u32);
        lemma_obs_rows_has(wh, c, k, k, di, a as u32);
    }
}

/// R and O are inverses at a level: for every atom a and every pooled cell c whose finer cells
/// the coordinates can address, a renders to c exactly when observing c gives a.
pub open spec fn is_tight(wh: Seq<(usize, usize)>, level: nat) -> bool {
    forall|a: int, c: (usize, usize)|
        0 <= a < wh.len() && (c.0 + 1) * pow2(level) <= usize::MAX + 1 && (c.1 + 1) * pow2(level) <= usize::MAX + 1
            ==> (rendered(wh[a], level) == (c.0 as int, c.1 as int) <==> #[trigger] obs_rows(
            wh,
            c,
            pow2(level) as int,
            pow2(level) as int,
        ).contains(a as u32))
}

/// Every mesh of at most 2^32 atoms is tight at every level.
proof fn lemma_mesh_is_tight(wh: Seq<(usize, usize)>, level: nat)
    requires
        wh.len() <= 0x1_0000_0000,
    ensures
        is_tight(wh, level),
{
    assert forall|a: int, c: (usize, usize)|
        0 <= a < wh.len() && (c.0 + 1) * pow2(level) <= usize::MAX + 1 && (c.1 + 1) * pow2(level) <= usize::MAX + 1
            implies (rendered(wh[a], level) == (c.0 as int, c.1 as int) <==> #[trigger] obs_rows(
            wh,
            c,
            pow2(level) as int,
            pow2(level) as int,
        ).contains(a as u32)) by {
        lemma_tight(wh, level, a, c);
    }
}

/// The greatest count among the first e pooled entries (0 when e is 0).
pub open spec fn max_count(v: Seq<((usize, usize), usize)>, e: int) -> nat
    decreases e,
{
    if e <= 0 {
        0
    } else {
        let m = max_count(v, e - 1);
        if v[e - 1].1 > m { v[e - 1].1 as nat } else { m }
    }
}

/// The densest pooled cell's count among the cells of the first a atoms (0 when a is 0).
pub open spec fn peak(wh: Seq<(usize, usize)>, level: nat, a: int) -> nat
    decreases a,
{
    if a <= 0 {
        0
    } else {
        let m = peak(wh, level, a - 1);
        let c = count_at(wh, level, rendered(wh[a - 1], level), wh.len() as int);
        if c > m { c } else { m }
    }
}

/// The shading scale: the densest pooled cell's count, at least 1.
pub open spec fn scale(wh: Seq<(usize, usize)>, level: nat) -> nat {
    let p = peak(wh, level, wh.len() as int);
    if p == 0 { 1 } else { p }
}

/// The shading ramp, lightest first.
pub open spec fn ramp() -> Seq<char> {
    seq![' ', '.', ':', '-', '=', '+', '*', '#', '%', '@']
}

/// The shade of count c against scale mx: ramp entry ⌈9c / mx⌉, at most the last.
pub open spec fn shade(c: nat, mx: nat) -> char {
    let k = (c * 9 + mx - 1) / (mx as int);
    ramp()[if k < 9 { k } else { 9 }]
}

/// Text row r (top first) of a ww × hh pooled frame: each pooled cell's shade.
pub open spec fn sil_row(wh: Seq<(usize, usize)>, level: nat, ww: int, hh: int, r: int) -> Seq<char> {
    Seq::new(ww as nat, |i: int| shade(count_at(wh, level, (i, hh - 1 - r), wh.len() as int), scale(wh, level)))
}

/// The first k text rows, joined by newlines.
pub open spec fn sil_rows(wh: Seq<(usize, usize)>, level: nat, ww: int, hh: int, k: int) -> Seq<char>
    decreases k,
{
    if k <= 0 {
        seq![]
    } else if k == 1 {
        sil_row(wh, level, ww, hh, 0)
    } else {
        sil_rows(wh, level, ww, hh, k - 1) + seq!['\n'] + sil_row(wh, level, ww, hh, k - 1)
    }
}

fn ramp_char(k: u64) -> (c: char)
    requires
        k <= 9,
    ensures
        c == ramp()[k as int],
{
    if k == 0 { ' ' } else if k == 1 { '.' } else if k == 2 { ':' } else if k == 3 { '-' }
    else if k == 4 { '=' } else if k == 5 { '+' } else if k == 6 { '*' } else if k == 7 { '#' }
    else if k == 8 { '%' } else { '@' }
}

proof fn lemma_cell_index(i: int, j: int, ww: int, hh: int)
    requires
        0 <= i < ww,
        0 <= j < hh,
    ensures
        0 <= j * ww,
        j * ww + i < ww * hh,
{
    assert(0 <= j * ww) by (nonlinear_arith)
        requires
            0 <= j,
            0 <= ww,
    ;
    assert(j * ww + i < ww * hh) by (nonlinear_arith)
        requires
            0 <= i < ww,
            0 <= j < hh,
    ;
}

proof fn lemma_cell_distinct(i: int, j: int, i2: int, j2: int, ww: int)
    requires
        0 <= i < ww,
        0 <= i2 < ww,
        0 <= j,
        0 <= j2,
        j * ww + i == j2 * ww + i2,
    ensures
        i == i2 && j == j2,
{
    if j < j2 {
        assert(j * ww + ww <= j2 * ww) by (nonlinear_arith)
            requires
                j < j2,
                0 <= ww,
        ;
    } else if j > j2 {
        assert(j2 * ww + ww <= j * ww) by (nonlinear_arith)
            requires
                j2 < j,
                0 <= ww,
        ;
    }
}

/// The greatest pooled count is the densest cell of any atom.
proof fn lemma_peak_is_max(v: Seq<((usize, usize), usize)>, wh: Seq<(usize, usize)>, level: nat)
    requires
        counts_ok(v, wh, level, wh.len() as int),
    ensures
        max_count(v, v.len() as int) == peak(wh, level, wh.len() as int),
{
    let n = wh.len() as int;
    lemma_max_count_bounds(v, v.len() as int);
    lemma_peak_bounds(wh, level, n);
    // every entry's count is some atom's cell count
    if v.len() > 0 {
        let e = choose|e: int| 0 <= e < v.len() && v[e].1 == max_count(v, v.len() as int);
        let a = choose|a: int| 0 <= a < n && rendered(wh[a], level) == ((#[trigger] v[e]).0.0 as int, v[e].0.1 as int);
        assert(count_at(wh, level, rendered(wh[a], level), n) <= peak(wh, level, n));
    }
    if n > 0 {
        let a = choose|a: int| 0 <= a < n && count_at(wh, level, rendered(wh[a], level), n) == peak(wh, level, n);
        let e = choose|e: int| 0 <= e < v.len() && rendered(#[trigger] wh[a], level) == (v[e].0.0 as int, v[e].0.1 as int);
        assert(v[e].1 <= max_count(v, v.len() as int));
    }
}

proof fn lemma_peak_at_most(wh: Seq<(usize, usize)>, level: nat)
    ensures
        peak(wh, level, wh.len() as int) <= wh.len(),
{
    let n = wh.len() as int;
    if n > 0 {
        lemma_peak_bounds(wh, level, n);
        let q = choose|q: int| 0 <= q < n && count_at(wh, level, rendered(wh[q], level), n) == peak(wh, level, n);
        lemma_count_bound(wh, level, rendered(wh[q], level), n);
    } else {
        lemma_peak_bounds(wh, level, n);
    }
}

proof fn lemma_max_count_bounds(v: Seq<((usize, usize), usize)>, e: int)
    requires
        0 <= e <= v.len(),
    ensures
        forall|q: int| 0 <= q < e ==> (#[trigger] v[q]).1 <= max_count(v, e),
        e > 0 ==> exists|q: int| 0 <= q < e && v[q].1 == max_count(v, e),
        e == 0 ==> max_count(v, e) == 0,
    decreases e,
{
    if e > 0 {
        lemma_max_count_bounds(v, e - 1);
        if v[e - 1].1 > max_count(v, e - 1) || e == 1 {
            assert(v[e - 1].1 == max_count(v, e));
        } else {
            let q = choose|q: int| 0 <= q < e - 1 && v[q].1 == max_count(v, e - 1);
            assert(v[q].1 == max_count(v, e));
        }
    }
}

proof fn lemma_peak_bounds(wh: Seq<(usize, usize)>, level: nat, a: int)
    requires
        0 <= a <= wh.len(),
    ensures
        forall|q: int| 0 <= q < a ==> count_at(wh, level, rendered(#[trigger] wh[q], level), wh.len() as int) <= peak(wh, level, a),
        a > 0 ==> exists|q: int| 0 <= q < a && count_at(wh, level, rendered(wh[q], level), wh.len() as int) == peak(wh, level, a),
        a == 0 ==> peak(wh, level, a) == 0,
    decreases a,
{
    if a > 0 {
        lemma_peak_bounds(wh, level, a - 1);
        let c = count_at(wh, level, rendered(wh[a - 1], level), wh.len() as int);
        if c > peak(wh, level, a - 1) || a == 1 {
            assert(c == peak(wh, level, a));
        } else {
            let q = choose|q: int| 0 <= q < a - 1 && count_at(wh, level, rendered(wh[q], level), wh.len() as int) == peak(wh, level, a - 1);
            assert(count_at(wh, level, rendered(wh[q], level), wh.len() as int) == peak(wh, level, a));
        }
    }
}

proof fn lemma_row_base(j: int, ww: int, hh: int)
    requires
        0 <= j < hh,
        0 <= ww,
    ensures
        0 <= j * ww <= ww * hh,
{
    assert(0 <= j * ww <= ww * hh) by (nonlinear_arith)
        requires
            0 <= j < hh,
            0 <= ww,
    ;
}

/// The silhouette text over the pooled counts, with its characters.
fn shade_rows(grid: &Vec<usize>, Ghost(wh): Ghost<Seq<(usize, usize)>>, level: u32, ww: usize, hh: usize, mx: u64) -> (res: (Vec<u8>, Ghost<Seq<char>>))
    requires
        wh.len() <= 0x1_0000_0000,
        ww * hh <= usize::MAX,
        grid.len() == ww * hh,
        forall|i: int, j: int| 0 <= i < ww && 0 <= j < hh ==> #[trigger] grid@[j * ww + i] == count_at(wh, level as nat, (i, j), wh.len() as int),
        mx == scale(wh, level as nat),
        1 <= mx <= 0x1_0000_0000,
    ensures
        res.1@ == sil_rows(wh, level as nat, ww as int, hh as int, hh as int),
        res.0@ == encode_utf8(res.1@),
{
    let ghost n = wh.len() as int;
    let mut out: Vec<u8> = Vec::new();
    let ghost mut text: Seq<char> = seq![];
    let mut r: usize = 0;
    while r < hh
        invariant
            0 <= r <= hh,
            n == wh.len(),
            n <= 0x1_0000_0000,
            ww * hh <= usize::MAX,
            grid.len() == ww * hh,
            forall|i: int, j: int| 0 <= i < ww && 0 <= j < hh ==> #[trigger] grid@[j * ww + i] == count_at(wh, level as nat, (i, j), n),
            mx == scale(wh, level as nat),
            1 <= mx <= 0x1_0000_0000,
            text == sil_rows(wh, level as nat, ww as int, hh as int, r as int),
            out@ == encode_utf8(text),
        decreases hh - r,
    {
        let ghost before = text;
        if r > 0 {
            push_char(&mut out, '\n');
            proof {
                lemma_encode_concat(text, seq!['\n']);
                text = text + seq!['\n'];
            }
        }
        let j = hh - 1 - r;
        proof {
            lemma_row_base(j as int, ww as int, hh as int);
        }
        let base = j * ww;
        let mut i: usize = 0;
        let ghost row_start = text;
        let ghost row = sil_row(wh, level as nat, ww as int, hh as int, r as int);
        while i < ww
            invariant
                0 <= i <= ww,
                j < hh,
                base == j * ww,
                n == wh.len(),
                n <= 0x1_0000_0000,
                ww * hh <= usize::MAX,
                grid.len() == ww * hh,
                forall|i: int, j: int| 0 <= i < ww && 0 <= j < hh ==> #[trigger] grid@[j * ww + i] == count_at(wh, level as nat, (i, j), n),
                1 <= mx <= 0x1_0000_0000,
                mx == scale(wh, level as nat),
                j == hh - 1 - r,
                row == sil_row(wh, level as nat, ww as int, hh as int, r as int),
                text == row_start + row.take(i as int),
                out@ == encode_utf8(text),
            decreases ww - i,
        {
            proof {
                lemma_cell_index(i as int, j as int, ww as int, hh as int);
                lemma_count_bound(wh, level as nat, (i as int, j as int), n);
            }
            let cnt = grid[base + i] as u64;
            let k = (cnt * 9 + mx - 1) / mx;
            let ch = ramp_char(if k < 9 { k } else { 9 });
            push_char(&mut out, ch);
            proof {
                lemma_encode_concat(text, seq![ch]);
                assert(row[i as int] == ch);
                assert(row.take(i + 1) =~= row.take(i as int).push(ch));
                text = text + seq![ch];
                assert(text =~= row_start + row.take(i + 1));
            }
            i += 1;
        }
        proof {
            assert(row.take(ww as int) =~= row);
            if r == 0 {
                assert(text =~= row);
            } else {
                assert(text =~= before + seq!['\n'] + row);
            }
        }
        r += 1;
    }
    (out, Ghost(text))
}

/// Lexicographic order on cells: by column, then row.
pub open spec fn cell_lt(a: (usize, usize), b: (usize, usize)) -> bool {
    a.0 < b.0 || (a.0 == b.0 && a.1 < b.1)
}

/// Some atom renders to pooled cell c.
pub open spec fn occupied(c: (usize, usize), wh: Seq<(usize, usize)>, level: nat) -> bool {
    exists|a: int| 0 <= a < wh.len() && rendered(wh[a], level) == (c.0 as int, c.1 as int)
}

/// Pooled cell p is among `ks`.
pub open spec fn listed(p: (int, int), ks: Seq<(usize, usize)>) -> bool {
    exists|i: int| 0 <= i < ks.len() && p == (ks[i].0 as int, ks[i].1 as int)
}

/// `ks` lists, in increasing (column, row) order, exactly the pooled cells the atoms render to.
pub open spec fn cells_in_order(ks: Seq<(usize, usize)>, wh: Seq<(usize, usize)>, level: nat) -> bool {
    &&& forall|i: int, j: int| 0 <= i < j < ks.len() ==> cell_lt(ks[i], ks[j])
    &&& forall|i: int| 0 <= i < ks.len() ==> occupied(#[trigger] ks[i], wh, level)
    &&& forall|a: int| 0 <= a < wh.len() ==> listed(rendered(#[trigger] wh[a], level), ks)
}

/// The four little-endian bytes of a word.
pub open spec fn word_bytes(v: u32) -> Seq<u8> {
    seq![(v % 256) as u8, (v / 256 % 256) as u8, (v / 65536 % 256) as u8, (v / 16777216) as u8]
}

/// The receipt entry of a cell with its count.
pub open spec fn entry_bytes(c: (usize, usize), count: int) -> Seq<u8> {
    word_bytes(c.0 as u32) + word_bytes(c.1 as u32) + word_bytes(count as u32)
}

/// The receipt over cells `ks`, each with how many atoms render there.
pub open spec fn table_of(ks: Seq<(usize, usize)>, wh: Seq<(usize, usize)>, level: nat) -> Seq<u8>
    decreases ks.len(),
{
    if ks.len() == 0 {
        seq![]
    } else {
        table_of(ks.drop_last(), wh, level) + entry_bytes(ks.last(), count_at(wh, level, (ks.last().0 as int, ks.last().1 as int), wh.len() as int) as int)
    }
}

/// The receipt over cells `ks`, each with its entry in m.
pub open spec fn table_over_map(ks: Seq<(usize, usize)>, m: Map<(usize, usize), usize>) -> Seq<u8>
    decreases ks.len(),
{
    if ks.len() == 0 {
        seq![]
    } else {
        table_over_map(ks.drop_last(), m) + entry_bytes(ks.last(), m[ks.last()] as int)
    }
}

proof fn lemma_table_counts(ks: Seq<(usize, usize)>, m: Map<(usize, usize), usize>, wh: Seq<(usize, usize)>, level: nat)
    requires
        forall|i: int| 0 <= i < ks.len() ==> #[trigger] m[ks[i]] == count_at(wh, level, (ks[i].0 as int, ks[i].1 as int), wh.len() as int),
    ensures
        table_over_map(ks, m) == table_of(ks, wh, level),
    decreases ks.len(),
{
    if ks.len() > 0 {
        let k = ks.last();
        assert(m[ks[ks.len() - 1]] == count_at(wh, level, (k.0 as int, k.1 as int), wh.len() as int));
        lemma_table_counts(ks.drop_last(), m, wh, level);
    }
}

/// Cells are ordered as pairs of integers, so a map keyed by them iterates in that order.
proof fn lemma_pair_keys_ordered()
    ensures
        vstd::laws_cmp::obeys_cmp::<(usize, usize)>(),
        vstd::std_specs::btree::key_obeys_cmp_spec::<(usize, usize)>(),
{
    broadcast use {vstd::std_specs::btree::group_btree_axioms, vstd::laws_cmp::group_laws_cmp};
}

/// Keys met in increasing pair order are in increasing (column, row) order.
proof fn lemma_pair_keys_increasing<'a>(rem: Seq<(&'a (usize, usize), &'a usize)>, ks: Seq<(usize, usize)>)
    requires
        vstd::std_specs::btree::increasing_seq(rem.map_values(|kv: (&(usize, usize), &usize)| *kv.0)),
        ks.len() <= rem.len(),
        forall|i: int| 0 <= i < ks.len() ==> ks[i] == *#[trigger] rem[i].0,
    ensures
        forall|i: int, j: int| 0 <= i < j < ks.len() ==> cell_lt(ks[i], ks[j]),
{
    lemma_pair_keys_ordered();
    let km = rem.map_values(|kv: (&(usize, usize), &usize)| *kv.0);
    vstd::std_specs::btree::axiom_increasing_seq_meaning(km);
    assert forall|i: int, j: int| 0 <= i < j < ks.len() implies cell_lt(ks[i], ks[j]) by {
        assert(km[i] == ks[i]);
        assert(km[j] == ks[j]);
        assert(vstd::std_specs::cmp::OrdSpec::cmp_spec(&km[i], &km[j]) is Less);
    }
}

fn push_word(out: &mut Vec<u8>, v: u32)
    ensures
        final(out)@ == old(out)@ + word_bytes(v),
{
    out.push((v % 256) as u8);
    out.push((v / 256 % 256) as u8);
    out.push((v / 65536 % 256) as u8);
    out.push((v / 16777216) as u8);
    proof {
        assert(final(out)@ =~= old(out)@ + word_bytes(v));
    }
}

/// The receipt over a map of cells, in the map's key order.
fn table_over(sorted: &BTreeMap<(usize, usize), usize>) -> (res: (Vec<u8>, Ghost<Seq<(usize, usize)>>))
    ensures
        forall|i: int, j: int| 0 <= i < j < res.1@.len() ==> cell_lt(res.1@[i], res.1@[j]),
        forall|i: int| 0 <= i < res.1@.len() ==> sorted@.contains_key(#[trigger] res.1@[i]),
        forall|c: (usize, usize)| #[trigger] sorted@.contains_key(c) ==> res.1@.contains(c),
        res.0@ == table_over_map(res.1@, sorted@),
{
    broadcast use vstd::std_specs::btree::group_btree_axioms;
    proof {
        lemma_pair_keys_ordered();
    }
    let mut out: Vec<u8> = Vec::new();
    let ghost mut ks: Seq<(usize, usize)> = seq![];
    let ghost rem = spec_btree_map_iter(sorted).remaining();
    proof {
        assert forall|c: (usize, usize)| #[trigger] sorted@.contains_key(c) implies exists|i: int| 0 <= i < rem.len() && *rem[i].0 == c by {
            let i = choose|i: int| 0 <= i < rem.len() && rem[i] == (&c, &sorted@[c]);
        }
    }
    for (c, v) in it: sorted.iter()
        invariant
            it.seq() == rem,
            rem == spec_btree_map_iter(sorted).remaining(),
            forall|i: int| 0 <= i < rem.len() ==> sorted@.contains_key(*#[trigger] rem[i].0) && sorted@[*rem[i].0] == *rem[i].1,
            forall|c: (usize, usize)| #[trigger] sorted@.contains_key(c) ==> ks.contains(c) || exists|i: int| it.index() <= i < rem.len() && *rem[i].0 == c,
            vstd::std_specs::btree::increasing_seq(rem.map_values(|kv: (&(usize, usize), &usize)| *kv.0)),
            ks.len() == it.index(),
            forall|i: int| 0 <= i < ks.len() ==> ks[i] == *#[trigger] rem[i].0,
            out@ == table_over_map(ks, sorted@),
    {
        let ghost ks0 = ks;
        push_word(&mut out, #[verifier::truncate] (c.0 as u32));
        push_word(&mut out, #[verifier::truncate] (c.1 as u32));
        push_word(&mut out, #[verifier::truncate] (*v as u32));
        proof {
            ks = ks.push(*c);
            assert(ks[ks.len() - 1] == *c);
            assert(ks.drop_last() =~= ks0);
            assert(out@ =~= table_over_map(ks0, sorted@) + entry_bytes(*c, *v as int));
        }
    }
    proof {
        assert(ks.len() == rem.len());
        lemma_pair_keys_increasing(rem, ks);
        assert forall|i: int| 0 <= i < ks.len() implies sorted@.contains_key(#[trigger] ks[i]) by {
            assert(ks[i] == *rem[i].0);
        }
    }
    (out, Ghost(ks))
}

/// The pooled counts keyed by cell.
fn keyed_counts(t: &Vec<((usize, usize), usize)>) -> (sorted: BTreeMap<(usize, usize), usize>)
    requires
        forall|i: int, j: int| 0 <= i < t.len() && 0 <= j < t.len() && i != j ==> t@[i].0 != t@[j].0,
    ensures
        forall|c: (usize, usize)| #[trigger] sorted@.contains_key(c) <==> exists|q: int| 0 <= q < t.len() && t@[q].0 == c,
        forall|q: int| 0 <= q < t.len() ==> sorted@.contains_key(#[trigger] t@[q].0) && sorted@[t@[q].0] == t@[q].1,
{
    broadcast use vstd::std_specs::btree::group_btree_axioms;
    let mut sorted: BTreeMap<(usize, usize), usize> = BTreeMap::new();
    let mut e: usize = 0;
    while e < t.len()
        invariant
            0 <= e <= t.len(),
            forall|i: int, j: int| 0 <= i < t.len() && 0 <= j < t.len() && i != j ==> t@[i].0 != t@[j].0,
            forall|c: (usize, usize)| #[trigger] sorted@.contains_key(c) <==> exists|q: int| 0 <= q < e && t@[q].0 == c,
            forall|q: int| 0 <= q < e ==> sorted@.contains_key(#[trigger] t@[q].0) && sorted@[t@[q].0] == t@[q].1,
        decreases t.len() - e,
    {
        proof {
            lemma_pair_keys_ordered();
        }
        sorted.insert(t[e].0, t[e].1);
        proof {
            assert forall|q: int| 0 <= q < e + 1 implies sorted@.contains_key(#[trigger] t@[q].0) && sorted@[t@[q].0] == t@[q].1 by {
                if q < e {
                    assert(t@[q].0 != t@[e as int].0);
                }
            }
        }
        e += 1;
    }
    sorted
}

/// The receipt over the pooled counts, keyed and in order, is the frame's receipt.
#[verifier::spinoff_prover]
#[verifier::rlimit(40)]
proof fn lemma_receipt(t: Seq<((usize, usize), usize)>, m: Map<(usize, usize), usize>, ks: Seq<(usize, usize)>, wh: Seq<(usize, usize)>, level: nat)
    requires
        counts_ok(t, wh, level, wh.len() as int),
        forall|c: (usize, usize)| #[trigger] m.contains_key(c) <==> exists|q: int| 0 <= q < t.len() && t[q].0 == c,
        forall|q: int| 0 <= q < t.len() ==> m.contains_key(#[trigger] t[q].0) && m[t[q].0] == t[q].1,
        forall|i: int, j: int| 0 <= i < j < ks.len() ==> cell_lt(ks[i], ks[j]),
        forall|i: int| 0 <= i < ks.len() ==> m.contains_key(#[trigger] ks[i]),
        forall|c: (usize, usize)| #[trigger] m.contains_key(c) ==> ks.contains(c),
    ensures
        cells_in_order(ks, wh, level),
        table_over_map(ks, m) == table_of(ks, wh, level),
{
    lemma_receipt_cells(t, m, ks, wh, level);
    lemma_receipt_counts(t, m, ks, wh, level);
    lemma_table_counts(ks, m, wh, level);
}

#[verifier::spinoff_prover]
proof fn lemma_receipt_cells(t: Seq<((usize, usize), usize)>, m: Map<(usize, usize), usize>, ks: Seq<(usize, usize)>, wh: Seq<(usize, usize)>, level: nat)
    requires
        counts_ok(t, wh, level, wh.len() as int),
        forall|c: (usize, usize)| #[trigger] m.contains_key(c) <==> exists|q: int| 0 <= q < t.len() && t[q].0 == c,
        forall|q: int| 0 <= q < t.len() ==> m.contains_key(#[trigger] t[q].0) && m[t[q].0] == t[q].1,
        forall|i: int, j: int| 0 <= i < j < ks.len() ==> cell_lt(ks[i], ks[j]),
        forall|i: int| 0 <= i < ks.len() ==> m.contains_key(#[trigger] ks[i]),
        forall|c: (usize, usize)| #[trigger] m.contains_key(c) ==> ks.contains(c),
    ensures
        cells_in_order(ks, wh, level),
{
    assert forall|i: int| 0 <= i < ks.len() implies occupied(#[trigger] ks[i], wh, level) by {
        assert(m.contains_key(ks[i]));
        let q = choose|q: int| 0 <= q < t.len() && t[q].0 == ks[i];
        assert(exists|a: int| 0 <= a < wh.len() && rendered(wh[a], level) == ((#[trigger] t[q]).0.0 as int, t[q].0.1 as int));
    }
    assert forall|a: int| 0 <= a < wh.len() implies listed(rendered(#[trigger] wh[a], level), ks) by {
        let q = choose|q: int| 0 <= q < t.len() && rendered(#[trigger] wh[a], level) == (t[q].0.0 as int, t[q].0.1 as int);
        assert(m.contains_key(t[q].0));
        assert(ks.contains(t[q].0));
        let i = choose|i: int| 0 <= i < ks.len() && ks[i] == t[q].0;
        assert(rendered(wh[a], level) == (ks[i].0 as int, ks[i].1 as int));
    }
}

#[verifier::spinoff_prover]
proof fn lemma_receipt_counts(t: Seq<((usize, usize), usize)>, m: Map<(usize, usize), usize>, ks: Seq<(usize, usize)>, wh: Seq<(usize, usize)>, level: nat)
    requires
        counts_ok(t, wh, level, wh.len() as int),
        forall|c: (usize, usize)| #[trigger] m.contains_key(c) <==> exists|q: int| 0 <= q < t.len() && t[q].0 == c,
        forall|q: int| 0 <= q < t.len() ==> m.contains_key(#[trigger] t[q].0) && m[t[q].0] == t[q].1,
        forall|i: int| 0 <= i < ks.len() ==> m.contains_key(#[trigger] ks[i]),
    ensures
        forall|i: int| 0 <= i < ks.len() ==> #[trigger] m[ks[i]] == count_at(wh, level, (ks[i].0 as int, ks[i].1 as int), wh.len() as int),
{
    let n = wh.len() as int;
    assert forall|i: int| 0 <= i < ks.len() implies #[trigger] m[ks[i]] == count_at(wh, level, (ks[i].0 as int, ks[i].1 as int), n) by {
        assert(m.contains_key(ks[i]));
        let q = choose|q: int| 0 <= q < t.len() && t[q].0 == ks[i];
        assert((#[trigger] t[q]).1 == count_at(wh, level, (t[q].0.0 as int, t[q].0.1 as int), n));
    }
}

impl Mesh {
    /// One entry per occupied cell, each listing exactly the atoms that landed there.
    pub open spec fn wf(&self) -> bool {
        &&& self.where_.len() <= 0x1_0000_0000
        &&& grouped(self.cells@, self.where_@, self.where_.len() as int)
    }

    /// Group the atoms by the cell each landed in.
    pub fn from_cells(where_: Vec<(usize, usize)>, w: usize, h: usize, digits: u32) -> (m: Mesh)
        requires
            where_.len() <= 0x1_0000_0000,
        ensures
            m.wf(),
            m.where_@ == where_@,
            m.w == w,
            m.h == h,
            m.digits == digits,
    {
        let n = where_.len();
        let mut cells: Vec<((usize, usize), Vec<u32>)> = Vec::new();
        let mut aid: usize = 0;
        while aid < n
            invariant
                0 <= aid <= n,
                n == where_.len(),
                n <= 0x1_0000_0000,
                grouped(cells@, where_@, aid as int),
            decreases n - aid,
        {
            let c = where_[aid];
            let mut i: usize = 0;
            let mut found = false;
            while i < cells.len() && !found
                invariant
                    0 <= i <= cells.len(),
                    found ==> i < cells.len() && cells[i as int].0 == c,
                    forall|j: int| 0 <= j < i && !(found && j == i) ==> (#[trigger] cells[j]).0 != c,
                decreases cells.len() - i + if found { 0int } else { 1 },
            {
                if cells[i].0.0 == c.0 && cells[i].0.1 == c.1 {
                    found = true;
                } else {
                    i += 1;
                }
            }
            let ghost c0 = cells@;
            if found {
                let mut entry = (c, Vec::new());
                std::mem::swap(&mut entry, &mut cells[i]);
                entry.1.push(aid as u32);
                std::mem::swap(&mut entry, &mut cells[i]);
                proof {
                    lemma_group_join(c0, cells@, where_@, aid as int, i as int);
                }
            } else {
                let mut list: Vec<u32> = Vec::new();
                list.push(aid as u32);
                cells.push((c, list));
                proof {
                    lemma_group_new(c0, cells@, where_@, aid as int);
                }
            }
            aid += 1;
        }
        Mesh { w, h, digits, cells, where_ }
    }

    /// R: the pooled cell atom `aid` renders to at a level.
    pub fn render(&self, aid: usize, level: u32) -> (r: (usize, usize))
        requires
            aid < self.where_.len(),
            (level as usize) < usize::BITS,
        ensures
            (r.0 as int, r.1 as int) == rendered(self.where_[aid as int], level as nat),
    {
        let (i, j) = self.where_[aid];
        proof {
            reveal(rendered);
            vstd::bits::lemma_usize_shr_is_div(i, level as usize);
            vstd::bits::lemma_usize_shr_is_div(j, level as usize);
        }
        (i >> (level as usize), j >> (level as usize))
    }

    /// The atoms of cell c (empty if none landed there).
    fn cell_atoms(&self, c: (usize, usize)) -> (r: Option<&Vec<u32>>)
        requires
            self.wf(),
        ensures
            r matches Some(v) ==> v@ == atoms_at(self.where_@, c, self.where_.len() as int),
            r is None ==> atoms_at(self.where_@, c, self.where_.len() as int).len() == 0,
    {
        let mut i: usize = 0;
        while i < self.cells.len()
            invariant
                0 <= i <= self.cells.len(),
                self.wf(),
                forall|j: int| 0 <= j < i ==> (#[trigger] self.cells[j]).0 != c,
            decreases self.cells.len() - i,
        {
            if self.cells[i].0.0 == c.0 && self.cells[i].0.1 == c.1 {
                return Some(&self.cells[i].1);
            }
            i += 1;
        }
        proof {
            assert forall|a: int| 0 <= a < self.where_.len() implies self.where_@[a] != c by {
                let w = choose|w: int| 0 <= w < self.cells.len() && self.cells[w].0 == #[trigger] self.where_[a];
            }
            lemma_atoms_at_cell(self.where_@, c, self.where_.len() as int);
        }
        None
    }

    /// O: the atoms of every finer cell under pooled cell `cell`, finer rows outer.
    pub fn observe(&self, cell: (usize, usize), level: u32) -> (out: Vec<u32>)
        requires
            self.wf(),
            (level as usize) < usize::BITS,
            (cell.0 + 1) * pow2(level as nat) <= usize::MAX + 1,
            (cell.1 + 1) * pow2(level as nat) <= usize::MAX + 1,
        ensures
            out@ == obs_rows(self.where_@, cell, pow2(level as nat) as int, pow2(level as nat) as int),
    {
        proof {
            vstd::bits::lemma_usize_pow2_no_overflow(level as nat);
            vstd::bits::lemma_usize_shl_is_mul(1, level as usize);
        }
        let k: usize = 1usize << (level as usize);
        let ghost kk = pow2(level as nat) as int;
        let ghost wh = self.where_@;
        assert(k == kk);
        let mut out: Vec<u32> = Vec::new();
        let mut di: usize = 0;
        while di < k
            invariant
                0 <= di <= k,
                k == kk,
                self.wf(),
                wh == self.where_@,
                (cell.0 + 1) * kk <= usize::MAX + 1,
                (cell.1 + 1) * kk <= usize::MAX + 1,
                out@ == obs_rows(wh, cell, kk, di as int),
            decreases k - di,
        {
            let ghost base = out@;
            let mut dj: usize = 0;
            while dj < k
                invariant
                    0 <= dj <= k,
                    di < k,
                    k == kk,
                    self.wf(),
                    wh == self.where_@,
                    (cell.0 + 1) * kk <= usize::MAX + 1,
                    (cell.1 + 1) * kk <= usize::MAX + 1,
                    out@ == base + obs_cols(wh, cell, kk, di as int, dj as int),
                decreases k - dj,
            {
                proof {
                    assert(cell.0 * k + di < (cell.0 + 1) * k) by (nonlinear_arith)
                        requires di < k;
                    assert(cell.1 * k + dj < (cell.1 + 1) * k) by (nonlinear_arith)
                        requires dj < k;
                }
                let fine = (cell.0 * k + di, cell.1 * k + dj);
                match self.cell_atoms(fine) {
                    Some(v) => {
                        let ghost before = out@;
                        let mut q: usize = 0;
                        while q < v.len()
                            invariant
                                0 <= q <= v.len(),
                                out@ == before + v@.subrange(0, q as int),
                            decreases v.len() - q,
                        {
                            out.push(v[q]);
                            q += 1;
                            proof {
                                assert(out@ =~= before + v@.subrange(0, q as int));
                            }
                        }
                        proof {
                            assert(v@.subrange(0, v.len() as int) =~= v@);
                        }
                    },
                    None => {
                        proof {
                            assert(atoms_at(wh, fine, wh.len() as int) =~= seq![]);
                            assert(out@ =~= out@ + atoms_at(wh, fine, wh.len() as int));
                        }
                    },
                }
                dj += 1;
                proof {
                    assert(out@ =~= base + obs_cols(wh, cell, kk, di as int, dj as int));
                }
            }
            di += 1;
            proof {
                assert(out@ =~= obs_rows(wh, cell, kk, di as int));
            }
        }
        out
    }

    /// tight: every atom is observed where it renders, and every observed atom renders there.
    pub fn tight(&self, level: u32) -> (r: bool)
        requires
            self.wf(),
            (level as usize) < usize::BITS,
            forall|a: int|
                0 <= a < self.where_.len() ==> (#[trigger] self.where_[a]).0 + pow2(level as nat) <= usize::MAX
                    && self.where_[a].1 + pow2(level as nat) <= usize::MAX,
        ensures
            r == is_tight(self.where_@, level as nat),
            r,
    {
        proof {
            lemma_mesh_is_tight(self.where_@, level as nat);
        }
        let n = self.where_.len();
        let ghost wh = self.where_@;
        let mut aid: usize = 0;
        while aid < n
            invariant
                0 <= aid <= n,
                n == self.where_.len(),
                wh == self.where_@,
                self.wf(),
            decreases n - aid,
        {
            let c0 = self.where_[aid];
            proof {
                lemma_atoms_at_has(wh, c0, n as int, aid as int);
            }
            match self.cell_atoms(c0) {
                None => {
                    return false;
                },
                Some(list) => {
                    if !has_atom(list, aid as u32) {
                        return false;
                    }
                },
            }
            aid += 1;
        }
        proof {
            lemma_pow2_pos(level as nat);
            vstd::bits::lemma_usize_pow2_no_overflow(level as nat);
        }
        let mut e: usize = 0;
        while e < self.cells.len()
            invariant
                0 <= e <= self.cells.len(),
                n == self.where_.len(),
                wh == self.where_@,
                self.wf(),
                (level as usize) < usize::BITS,
                0 < pow2(level as nat),
                forall|a: int|
                    0 <= a < self.where_.len() ==> (#[trigger] self.where_[a]).0 + pow2(level as nat) <= usize::MAX
                        && self.where_[a].1 + pow2(level as nat) <= usize::MAX,
            decreases self.cells.len() - e,
        {
            let key = self.cells[e].0;
            proof {
                vstd::bits::lemma_usize_shr_is_div(key.0, level as usize);
                vstd::bits::lemma_usize_shr_is_div(key.1, level as usize);
            }
            let c = (key.0 >> (level as usize), key.1 >> (level as usize));
            proof {
                let a = choose|a: int| 0 <= a < n && wh[a] == (#[trigger] self.cells[e as int]).0;
                let k = pow2(level as nat) as int;
                assert(self.where_[a].0 + k <= usize::MAX);
                vstd::arithmetic::div_mod::lemma_fundamental_div_mod(key.0 as int, k);
                vstd::arithmetic::div_mod::lemma_fundamental_div_mod(key.1 as int, k);
                vstd::arithmetic::div_mod::lemma_mod_pos_bound(key.0 as int, k);
                vstd::arithmetic::div_mod::lemma_mod_pos_bound(key.1 as int, k);
                assert((c.0 + 1) * k <= usize::MAX + 1) by (nonlinear_arith)
                    requires
                        key.0 as int == k * c.0 + (key.0 as int) % k,
                        (key.0 as int) % k >= 0,
                        key.0 + k <= usize::MAX;
                assert((c.1 + 1) * k <= usize::MAX + 1) by (nonlinear_arith)
                    requires
                        key.1 as int == k * c.1 + (key.1 as int) % k,
                        (key.1 as int) % k >= 0,
                        key.1 + k <= usize::MAX;
                lemma_obs_rendered(wh, c, level as nat, k);
            }
            let obs = self.observe(c, level);
            let mut q: usize = 0;
            while q < obs.len()
                invariant
                    0 <= q <= obs.len(),
                    n == self.where_.len(),
                    wh == self.where_@,
                    (level as usize) < usize::BITS,
                    forall|q2: int| 0 <= q2 < obs.len() ==> {
                        &&& (#[trigger] obs@[q2]) < wh.len()
                        &&& rendered(wh[obs@[q2] as int], level as nat) == (c.0 as int, c.1 as int)
                    },
                decreases obs.len() - q,
            {
                let rc = self.render(obs[q] as usize, level);
                if rc.0 != c.0 || rc.1 != c.1 {
                    return false;
                }
                q += 1;
            }
            e += 1;
        }
        true
    }

    /// The pooled tensor at a level: pooled cell → how many atoms render there.
    pub fn at(&self, level: u32) -> (out: Vec<((usize, usize), usize)>)
        requires
            self.wf(),
            (level as usize) < usize::BITS,
        ensures
            counts_ok(out@, self.where_@, level as nat, self.where_.len() as int),
    {
        let n = self.where_.len();
        let ghost wh = self.where_@;
        let mut out: Vec<((usize, usize), usize)> = Vec::new();
        let mut aid: usize = 0;
        while aid < n
            invariant
                0 <= aid <= n,
                n == self.where_.len(),
                n <= 0x1_0000_0000,
                wh == self.where_@,
                (level as usize) < usize::BITS,
                counts_ok(out@, wh, level as nat, aid as int),
            decreases n - aid,
        {
            let c = self.render(aid, level);
            let mut i: usize = 0;
            let mut found = false;
            while i < out.len() && !found
                invariant
                    0 <= i <= out.len(),
                    found ==> i < out.len() && out[i as int].0 == c,
                    forall|j: int| 0 <= j < i && !(found && j == i) ==> (#[trigger] out[j]).0 != c,
                decreases out.len() - i + if found { 0int } else { 1 },
            {
                if out[i].0.0 == c.0 && out[i].0.1 == c.1 {
                    found = true;
                } else {
                    i += 1;
                }
            }
            let ghost o0 = out@;
            proof {
                lemma_count_bound(wh, level as nat, (c.0 as int, c.1 as int), aid as int);
            }
            if found {
                let v = out[i].1;
                out.set(i, (c, v + 1));
                proof {
                    lemma_counts_bump(o0, out@, wh, level as nat, aid as int, i as int);
                }
            } else {
                out.push((c, 1));
                proof {
                    lemma_counts_new(o0, out@, wh, level as nat, aid as int);
                }
            }
            aid += 1;
        }
        out
    }

    /// The silhouette at a level: one text row per pooled row, top row first, each pooled cell
    /// shaded by its count against the densest pooled cell, rows joined by newlines.
    pub fn silhouette(&self, level: u32) -> (s: String)
        requires
            self.wf(),
            (level as usize) < usize::BITS,
            (self.w >> level) * (self.h >> level) <= usize::MAX,
        ensures
            s@ == sil_rows(self.where_@, level as nat, (self.w >> level) as int, (self.h >> level) as int, (self.h >> level) as int),
    {
        let ww = self.w >> level;
        let hh = self.h >> level;
        let mx = self.densest(level);
        let grid = self.pooled_grid(level, ww, hh);
        let (out, Ghost(text)) = shade_rows(&grid, Ghost(self.where_@), level, ww, hh, mx);
        string_of(&out, Ghost(text))
    }

    /// The shading scale at a level: the densest pooled cell's count, at least 1.
    fn densest(&self, level: u32) -> (mx: u64)
        requires
            self.wf(),
            (level as usize) < usize::BITS,
        ensures
            mx == scale(self.where_@, level as nat),
            1 <= mx <= 0x1_0000_0000,
    {
        let ghost wh = self.where_@;
        let n = self.where_.len();
        let t = self.at(level);
        let mut m: usize = 0;
        let mut e: usize = 0;
        while e < t.len()
            invariant
                0 <= e <= t.len(),
                m == max_count(t@, e as int),
            decreases t.len() - e,
        {
            if t[e].1 > m {
                m = t[e].1;
            }
            e += 1;
        }
        proof {
            lemma_peak_is_max(t@, wh, level as nat);
            lemma_peak_at_most(wh, level as nat);
        }
        if m == 0 { 1 } else { m as u64 }
    }

    /// The in-frame pooled counts, row-major over a ww × hh frame.
    fn pooled_grid(&self, level: u32, ww: usize, hh: usize) -> (grid: Vec<usize>)
        requires
            self.wf(),
            (level as usize) < usize::BITS,
            ww * hh <= usize::MAX,
        ensures
            grid.len() == ww * hh,
            forall|i: int, j: int| 0 <= i < ww && 0 <= j < hh ==> #[trigger] grid@[j * ww + i] == count_at(self.where_@, level as nat, (i, j), self.where_.len() as int),
    {
        let ghost wh = self.where_@;
        let n = self.where_.len();
        let mut grid: Vec<usize> = Vec::new();
        let mut q: usize = 0;
        while q < ww * hh
            invariant
                0 <= q <= ww * hh,
                ww * hh <= usize::MAX,
                grid.len() == q,
                forall|p: int| 0 <= p < q ==> grid@[p] == 0,
            decreases ww * hh - q,
        {
            grid.push(0);
            q += 1;
        }
        proof {
            assert forall|i: int, j: int| 0 <= i < ww && 0 <= j < hh implies #[trigger] grid@[j * ww + i] == count_at(wh, level as nat, (i, j), 0) by {
                lemma_cell_index(i, j, ww as int, hh as int);
            }
        }
        let mut aid: usize = 0;
        while aid < n
            invariant
                0 <= aid <= n,
                n == self.where_.len(),
                n <= 0x1_0000_0000,
                wh == self.where_@,
                self.wf(),
                (level as usize) < usize::BITS,
                ww * hh <= usize::MAX,
                grid.len() == ww * hh,
                forall|i: int, j: int| 0 <= i < ww && 0 <= j < hh ==> #[trigger] grid@[j * ww + i] == count_at(wh, level as nat, (i, j), aid as int),
            decreases n - aid,
        {
            let c = self.render(aid, level);
            let ghost g0 = grid@;
            proof {
                lemma_count_bound(wh, level as nat, (c.0 as int, c.1 as int), aid as int);
            }
            if c.0 < ww && c.1 < hh {
                proof {
                    lemma_cell_index(c.0 as int, c.1 as int, ww as int, hh as int);
                }
                let p = c.1 * ww + c.0;
                let v = grid[p];
                grid.set(p, v + 1);
            }
            proof {
                assert forall|i: int, j: int| 0 <= i < ww && 0 <= j < hh implies #[trigger] grid@[j * ww + i] == count_at(wh, level as nat, (i, j), aid + 1) by {
                    lemma_count_step(wh, level as nat, (i, j), aid as int);
                    lemma_cell_index(i, j, ww as int, hh as int);
                    assert(g0[j * ww + i] == count_at(wh, level as nat, (i, j), aid as int));
                    if c.0 < ww && c.1 < hh && j * ww + i == c.1 * ww + c.0 {
                        lemma_cell_distinct(i, j, c.0 as int, c.1 as int, ww as int);
                    }
                }
            }
            aid += 1;
        }
        grid
    }


    /// The receipt of the frame at a level: every pooled cell with its count, in increasing
    /// (column, row) order, each as three little-endian `u32` words (column, row, count).
    pub fn table_bytes(&self, level: u32) -> (out: Vec<u8>)
        requires
            self.wf(),
            (level as usize) < usize::BITS,
        ensures
            exists|ks: Seq<(usize, usize)>| cells_in_order(ks, self.where_@, level as nat) && out@ == table_of(ks, self.where_@, level as nat),
    {
        let t = self.at(level);
        let sorted = keyed_counts(&t);
        let (out, Ghost(ks)) = table_over(&sorted);
        proof {
            lemma_receipt(t@, sorted@, ks, self.where_@, level as nat);
        }
        out
    }
}


/// How many times x occurs in s.
pub open spec fn count_of(s: Seq<u32>, x: u32) -> nat
    decreases s.len(),
{
    if s.len() == 0 {
        0
    } else {
        count_of(s.drop_last(), x) + if s.last() == x {
            1nat
        } else {
            0nat
        }
    }
}

proof fn lemma_count_add(a: Seq<u32>, b: Seq<u32>, x: u32)
    ensures
        count_of(a + b, x) == count_of(a, x) + count_of(b, x),
    decreases b.len(),
{
    if b.len() == 0 {
        assert(a + b =~= a);
    } else {
        lemma_count_add(a, b.drop_last(), x);
        assert((a + b).drop_last() =~= a + b.drop_last());
    }
}

proof fn lemma_count_one(y: u32, x: u32)
    ensures
        count_of(seq![y], x) == if y == x { 1nat } else { 0nat },
{
    assert(seq![y].drop_last() =~= Seq::<u32>::empty());
    assert(count_of(Seq::<u32>::empty(), x) == 0);
    assert(seq![y].last() == y);
    assert(count_of(seq![y], x) == count_of(seq![y].drop_last(), x) + if seq![y].last() == x { 1nat } else { 0nat });
}

/// Atom a is listed once in its own cell's list, and in no other.
proof fn lemma_count_atoms_at(wh: Seq<(usize, usize)>, c: (usize, usize), n: int, a: int)
    requires
        0 <= a < wh.len(),
        0 <= n <= wh.len(),
        wh.len() <= 0x1_0000_0000,
    ensures
        count_of(atoms_at(wh, c, n), a as u32) == if a < n && wh[a] == c { 1nat } else { 0nat },
    decreases n,
{
    if n > 0 {
        lemma_count_atoms_at(wh, c, n - 1, a);
        let tail = if wh[n - 1] == c { seq![(n - 1) as u32] } else { seq![] };
        lemma_count_add(atoms_at(wh, c, n - 1), tail, a as u32);
        if wh[n - 1] == c {
            lemma_count_one((n - 1) as u32, a as u32);
        } else {
            assert(count_of(Seq::<u32>::empty(), a as u32) == 0);
        }
    } else {
        assert(count_of(Seq::<u32>::empty(), a as u32) == 0);
    }
}

proof fn lemma_count_cols(wh: Seq<(usize, usize)>, c: (usize, usize), k: int, di: int, dj: int, a: int)
    requires
        0 <= a < wh.len(),
        wh.len() <= 0x1_0000_0000,
        0 <= di < k,
        0 <= dj <= k,
        (c.0 + 1) * k <= usize::MAX + 1,
        (c.1 + 1) * k <= usize::MAX + 1,
    ensures
        count_of(obs_cols(wh, c, k, di, dj), a as u32) == if wh[a].0 == c.0 * k + di && c.1 * k <= wh[a].1 < c.1 * k
            + dj {
            1nat
        } else {
            0nat
        },
    decreases dj,
{
    if dj > 0 {
        lemma_count_cols(wh, c, k, di, dj - 1, a);
        let cell = ((c.0 * k + di) as usize, (c.1 * k + dj - 1) as usize);
        assert(c.0 * k + di <= usize::MAX) by (nonlinear_arith)
            requires (c.0 + 1) * k <= usize::MAX + 1, di < k;
        assert(c.1 * k + dj - 1 <= usize::MAX) by (nonlinear_arith)
            requires (c.1 + 1) * k <= usize::MAX + 1, dj <= k, dj > 0;
        assert(c.0 * k >= 0 && c.1 * k >= 0) by (nonlinear_arith)
            requires k >= 1;
        lemma_count_add(obs_cols(wh, c, k, di, dj - 1), atoms_at(wh, cell, wh.len() as int), a as u32);
        lemma_count_atoms_at(wh, cell, wh.len() as int, a);
    } else {
        assert(count_of(Seq::<u32>::empty(), a as u32) == 0);
    }
}

proof fn lemma_count_rows(wh: Seq<(usize, usize)>, c: (usize, usize), k: int, di: int, a: int)
    requires
        0 <= a < wh.len(),
        wh.len() <= 0x1_0000_0000,
        0 <= di <= k,
        (c.0 + 1) * k <= usize::MAX + 1,
        (c.1 + 1) * k <= usize::MAX + 1,
    ensures
        count_of(obs_rows(wh, c, k, di), a as u32) == if c.0 * k <= wh[a].0 < c.0 * k + di && c.1 * k <= wh[a].1 < c.1
            * k + k {
            1nat
        } else {
            0nat
        },
    decreases di,
{
    if di > 0 {
        lemma_count_rows(wh, c, k, di - 1, a);
        lemma_count_cols(wh, c, k, di - 1, k, a);
        lemma_count_add(obs_rows(wh, c, k, di - 1), obs_cols(wh, c, k, di - 1, k), a as u32);
    } else {
        assert(count_of(Seq::<u32>::empty(), a as u32) == 0);
    }
}

/// O inverts R exactly: observing pooled cell c at a level lists atom a once when a renders
/// to c, and not at all otherwise.
pub proof fn lemma_observe_once(wh: Seq<(usize, usize)>, level: nat, a: int, c: (usize, usize))
    requires
        0 <= a < wh.len(),
        wh.len() <= 0x1_0000_0000,
        (c.0 + 1) * pow2(level) <= usize::MAX + 1,
        (c.1 + 1) * pow2(level) <= usize::MAX + 1,
    ensures
        count_of(obs_rows(wh, c, pow2(level) as int, pow2(level) as int), a as u32) == if rendered(wh[a], level) == (
            c.0 as int,
            c.1 as int,
        ) {
            1nat
        } else {
            0nat
        },
{
    let k = pow2(level) as int;
    lemma_pow2_pos(level);
    lemma_count_rows(wh, c, k, k, a);
    reveal(rendered);
    let p = wh[a];
    vstd::arithmetic::div_mod::lemma_fundamental_div_mod(p.0 as int, k);
    vstd::arithmetic::div_mod::lemma_fundamental_div_mod(p.1 as int, k);
    vstd::arithmetic::div_mod::lemma_mod_pos_bound(p.0 as int, k);
    vstd::arithmetic::div_mod::lemma_mod_pos_bound(p.1 as int, k);
    let q0 = p.0 as int / k;
    let q1 = p.1 as int / k;
    assert((c.0 * k <= p.0 < c.0 * k + k) <==> q0 == c.0) by (nonlinear_arith)
        requires p.0 as int == k * q0 + p.0 as int % k, 0 <= p.0 as int % k < k, k > 0;
    assert((c.1 * k <= p.1 < c.1 * k + k) <==> q1 == c.1) by (nonlinear_arith)
        requires p.1 as int == k * q1 + p.1 as int % k, 0 <= p.1 as int % k < k, k > 0;
}

} // verus!
