//! The oscillator: cycle 1 and update 1 of the construction. Rod 2 takes one bead per seat of its
//! own ring (the square); the held cells are the floor and rod 2 with one and two beads; the ?
//! cell is the block of the square no held cell covers exactly, and it enters the OpusNumber
//! unnamed. Update 1 walks that entry's own region, collapses it to a whole, and crosses the
//! atoms level by level.

use vstd::prelude::*;

use crate::pf::{dec_chars, lemma_encode_concat, push_char, string_of};
use vstd::string::StringSliceAdditionalSpecFns;
use vstd::utf8::encode_utf8;

verus! {

// ── shapes: seats and regions ───────────────────────────────────────────────

/// A region's seats as sequences.
pub open spec fn rview(r: Vec<Vec<usize>>) -> Seq<Seq<usize>> {
    r@.map_values(|p: Vec<usize>| p@)
}

/// Every path of `ps` extended by each seat of a ring of r seats, in order.
pub open spec fn expand(ps: Seq<Seq<usize>>, r: nat) -> Seq<Seq<usize>>
    decreases ps.len(),
{
    if ps.len() == 0 {
        seq![]
    } else {
        expand(ps.drop_last(), r) + Seq::new(r, |s: int| ps.last().push(s as usize))
    }
}

/// The seats of a shape of `stack` beads over a ring of `ring` seats: nested ring choices, one
/// level per bead, the first bead's choice outermost.
pub open spec fn seats_spec(stack: nat, ring: nat) -> Seq<Seq<usize>>
    decreases stack,
{
    if stack == 0 {
        seq![Seq::<usize>::empty()]
    } else {
        expand(seats_spec((stack - 1) as nat, ring), ring)
    }
}

/// A region's seats pushed one more path.
pub open spec fn rv_push(old: Seq<Vec<usize>>, q: Vec<usize>) -> Seq<Seq<usize>> {
    old.map_values(|p: Vec<usize>| p@).push(q@)
}

fn copy_path(p: &Vec<usize>) -> (r: Vec<usize>)
    ensures
        r@ == p@,
{
    let mut r: Vec<usize> = Vec::new();
    let mut i: usize = 0;
    while i < p.len()
        invariant
            i <= p.len(),
            r@ == p@.subrange(0, i as int),
        decreases p.len() - i,
    {
        r.push(p[i]);
        i += 1;
        proof {
            assert(r@ =~= p@.subrange(0, i as int));
        }
    }
    proof {
        assert(p@.subrange(0, p.len() as int) =~= p@);
    }
    r
}

proof fn lemma_expand_step(ps: Seq<Seq<usize>>, r: nat, i: int)
    requires
        0 <= i < ps.len(),
    ensures
        expand(ps.subrange(0, i + 1), r) == expand(ps.subrange(0, i), r) + Seq::new(r, |s: int| ps[i].push(s as usize)),
{
    assert(ps.subrange(0, i + 1).drop_last() =~= ps.subrange(0, i));
    assert(ps.subrange(0, i + 1).last() == ps[i]);
}

/// The seats of a shape of `stack` beads over a ring of `ring` seats.
pub fn seats(stack: usize, ring: usize) -> (r: Vec<Vec<usize>>)
    ensures
        rview(r) == seats_spec(stack as nat, ring as nat),
{
    let mut out: Vec<Vec<usize>> = Vec::new();
    out.push(Vec::new());
    proof {
        assert(rview(out) =~= seats_spec(0, ring as nat));
    }
    let mut k: usize = 0;
    while k < stack
        invariant
            k <= stack,
            rview(out) == seats_spec(k as nat, ring as nat),
        decreases stack - k,
    {
        let mut next: Vec<Vec<usize>> = Vec::new();
        let mut i: usize = 0;
        let ghost ps = rview(out);
        proof {
            assert(ps.subrange(0, 0) =~= Seq::<Seq<usize>>::empty());
            assert(rview(next) =~= expand(ps.subrange(0, 0), ring as nat));
        }
        while i < out.len()
            invariant
                i <= out.len(),
                ps == rview(out),
                rview(next) == expand(ps.subrange(0, i as int), ring as nat),
            decreases out.len() - i,
        {
            let ghost before = rview(next);
            let mut seat: usize = 0;
            while seat < ring
                invariant
                    seat <= ring,
                    i < out.len(),
                    ps == rview(out),
                    rview(next) == before + Seq::new(seat as nat, |s: int| ps[i as int].push(s as usize)),
                decreases ring - seat,
            {
                let mut q = copy_path(&out[i]);
                q.push(seat);
                proof {
                    assert(q@ == ps[i as int].push(seat));
                }
                let ghost old = next@;
                next.push(q);
                seat += 1;
                proof {
                    assert(next@ == old.push(q));
                    assert(rview(next) =~= rv_push(old, q));
                    assert(rview(next) =~= before + Seq::new(seat as nat, |s: int| ps[i as int].push(s as usize)));
                }
            }
            proof {
                lemma_expand_step(ps, ring as nat, i as int);
            }
            i += 1;
        }
        proof {
            assert(ps.subrange(0, ps.len() as int) =~= ps);
        }
        out = next;
        k += 1;
    }
    out
}

/// The block of the shape's seats that pairs, seat for seat, with a cell's own seats.
pub fn block(shape: &Vec<Vec<usize>>, own: &Vec<Vec<usize>>) -> (r: Vec<Vec<usize>>)
    ensures
        rview(r) == rview(*shape).take(if shape.len() < own.len() { shape.len() as int } else { own.len() as int }),
{
    let n = if shape.len() < own.len() { shape.len() } else { own.len() };
    let mut r: Vec<Vec<usize>> = Vec::new();
    let mut i: usize = 0;
    while i < n
        invariant
            i <= n,
            n <= shape.len(),
            rview(r) == rview(*shape).take(i as int),
        decreases n - i,
    {
        let q = copy_path(&shape[i]);
        let ghost old = r@;
        r.push(q);
        i += 1;
        proof {
            assert(r@ == old.push(q));
            assert(rview(r) =~= rv_push(old, q));
            assert(rview(r) =~= rview(*shape).take(i as int));
        }
    }
    r
}

fn same_path(a: &Vec<usize>, b: &Vec<usize>) -> (r: bool)
    ensures
        r == (a@ == b@),
{
    if a.len() != b.len() {
        return false;
    }
    let mut i: usize = 0;
    while i < a.len()
        invariant
            i <= a.len(),
            a.len() == b.len(),
            forall|j: int| 0 <= j < i ==> a@[j] == b@[j],
        decreases a.len() - i,
    {
        if a[i] != b[i] {
            return false;
        }
        i += 1;
    }
    proof {
        assert(a@ =~= b@);
    }
    true
}

/// Every seat of `b` stands in `a`.
pub open spec fn region_holds(a: Seq<Seq<usize>>, b: Seq<Seq<usize>>) -> bool {
    forall|j: int| 0 <= j < b.len() ==> a.contains(#[trigger] b[j])
}

/// Every seat of `b` stands in `a`.
pub fn holds(a: &Vec<Vec<usize>>, b: &Vec<Vec<usize>>) -> (r: bool)
    ensures
        r == region_holds(rview(*a), rview(*b)),
{
    let mut j: usize = 0;
    while j < b.len()
        invariant
            j <= b.len(),
            forall|jj: int| 0 <= jj < j ==> rview(*a).contains(#[trigger] rview(*b)[jj]),
        decreases b.len() - j,
    {
        let mut i: usize = 0;
        let mut found = false;
        while i < a.len()
            invariant
                i <= a.len(),
                j < b.len(),
                !found ==> forall|ii: int| 0 <= ii < i ==> rview(*a)[ii] != rview(*b)[j as int],
                found ==> rview(*a).contains(rview(*b)[j as int]),
            ensures
                !found ==> forall|ii: int| 0 <= ii < a.len() ==> rview(*a)[ii] != rview(*b)[j as int],
                found ==> rview(*a).contains(rview(*b)[j as int]),
            decreases a.len() - i,
        {
            if same_path(&a[i], &b[j]) {
                proof {
                    assert(rview(*a)[i as int] == rview(*b)[j as int]);
                }
                found = true;
                break;
            }
            i += 1;
        }
        if !found {
            proof {
                assert(!rview(*a).contains(rview(*b)[j as int]));
            }
            return false;
        }
        j += 1;
    }
    true
}

/// The two regions hold each other.
pub fn same_region(a: &Vec<Vec<usize>>, b: &Vec<Vec<usize>>) -> (r: bool)
    ensures
        r == (region_holds(rview(*a), rview(*b)) && region_holds(rview(*b), rview(*a))),
{
    holds(a, b) && holds(b, a)
}


// ── cells: rods and their stacks ────────────────────────────────────────────

/// A rod on the rail: its atom and the beads its stack holds.
#[derive(Clone, Copy)]
pub struct Rod {
    pub atom: usize,
    pub stack: u64,
}

/// Where the first rod of `atom` stands (−1 if none).
pub open spec fn rod_index(rs: Seq<Rod>, atom: usize) -> int
    decreases rs.len(),
{
    if rs.len() == 0 {
        -1
    } else if rs[0].atom == atom {
        0
    } else {
        let k = rod_index(rs.drop_first(), atom);
        if k < 0 { -1 } else { k + 1 }
    }
}

/// The beads of `atom` in a cell: its first rod's stack, or none.
pub open spec fn stack_on(rs: Seq<Rod>, atom: usize) -> nat {
    if rod_index(rs, atom) >= 0 { rs[rod_index(rs, atom)].stack as nat } else { 0 }
}

/// One rod held onto a cell: its beads join the cell's rod of the same atom, or it is added.
pub open spec fn add_rod(out: Seq<Rod>, r: Rod) -> Seq<Rod> {
    let k = rod_index(out, r.atom);
    if k >= 0 {
        out.update(k, Rod { atom: r.atom, stack: (out[k].stack + r.stack) as u64 })
    } else {
        out.push(r)
    }
}

/// Two cells held together.
pub open spec fn hold_spec(a: Seq<Rod>, b: Seq<Rod>) -> Seq<Rod>
    decreases b.len(),
{
    if b.len() == 0 {
        a
    } else {
        add_rod(hold_spec(a, b.drop_last()), b.last())
    }
}

/// Two cells are the same: every rod of each has as many beads as the other holds of its atom.
pub open spec fn same_cell_spec(a: Seq<Rod>, b: Seq<Rod>) -> bool {
    &&& forall|i: int| 0 <= i < a.len() ==> (#[trigger] a[i]).stack as nat == stack_on(b, a[i].atom)
    &&& forall|i: int| 0 <= i < b.len() ==> (#[trigger] b[i]).stack as nat == stack_on(a, b[i].atom)
}

/// Every stack of the cell is small.
pub open spec fn small_rods(rs: Seq<Rod>) -> bool {
    rs.len() <= 0x1_0000 && forall|i: int| 0 <= i < rs.len() ==> (#[trigger] rs[i]).stack <= 0x1_0000
}

/// Stacks stay below `bound`.
pub open spec fn rods_below(rs: Seq<Rod>, bound: int) -> bool {
    forall|i: int| 0 <= i < rs.len() ==> (#[trigger] rs[i]).stack <= bound
}

proof fn lemma_rod_index(rs: Seq<Rod>, atom: usize)
    ensures
        -1 <= rod_index(rs, atom) < rs.len(),
        rod_index(rs, atom) >= 0 ==> rs[rod_index(rs, atom)].atom == atom,
        rod_index(rs, atom) >= 0 ==> forall|j: int| 0 <= j < rod_index(rs, atom) ==> rs[j].atom != atom,
        rod_index(rs, atom) < 0 ==> forall|j: int| 0 <= j < rs.len() ==> rs[j].atom != atom,
    decreases rs.len(),
{
    if rs.len() > 0 && rs[0].atom != atom {
        lemma_rod_index(rs.drop_first(), atom);
        let k = rod_index(rs.drop_first(), atom);
        assert forall|j: int| 1 <= j < rs.len() implies rs[j] == rs.drop_first()[j - 1] by {}
    }
}

fn find_rod(rs: &Vec<Rod>, atom: usize) -> (r: Option<usize>)
    ensures
        r is None <==> rod_index(rs@, atom) < 0,
        r matches Some(k) ==> k == rod_index(rs@, atom) && k < rs.len() && rs@[k as int].atom == atom,
{
    proof {
        lemma_rod_index(rs@, atom);
    }
    let mut i: usize = 0;
    while i < rs.len()
        invariant
            i <= rs.len(),
            forall|j: int| 0 <= j < i ==> rs@[j].atom != atom,
            -1 <= rod_index(rs@, atom) < rs.len(),
            rod_index(rs@, atom) >= 0 ==> rs@[rod_index(rs@, atom)].atom == atom,
            rod_index(rs@, atom) >= 0 ==> forall|j: int| 0 <= j < rod_index(rs@, atom) ==> rs@[j].atom != atom,
            rod_index(rs@, atom) < 0 ==> forall|j: int| 0 <= j < rs.len() ==> rs@[j].atom != atom,
        decreases rs.len() - i,
    {
        if rs[i].atom == atom {
            return Some(i);
        }
        i += 1;
    }
    None
}

/// The beads of `atom` in a cell.
fn stack_of(rs: &Vec<Rod>, atom: usize) -> (r: u64)
    ensures
        r as nat == stack_on(rs@, atom),
{
    match find_rod(rs, atom) {
        Some(k) => rs[k].stack,
        None => 0,
    }
}

fn copy_rods(rs: &Vec<Rod>) -> (r: Vec<Rod>)
    ensures
        r@ == rs@,
{
    let mut r: Vec<Rod> = Vec::new();
    let mut i: usize = 0;
    while i < rs.len()
        invariant
            i <= rs.len(),
            r@ == rs@.subrange(0, i as int),
        decreases rs.len() - i,
    {
        r.push(rs[i]);
        i += 1;
        proof {
            assert(r@ =~= rs@.subrange(0, i as int));
        }
    }
    proof {
        assert(rs@.subrange(0, rs.len() as int) =~= rs@);
    }
    r
}

/// Two cells held together: each rod of `b` joins `a`'s rod of its atom, or is added.
fn hold(a: &Vec<Rod>, b: &Vec<Rod>) -> (r: Vec<Rod>)
    requires
        small_rods(a@),
        small_rods(b@),
    ensures
        r@ == hold_spec(a@, b@),
        r.len() <= a.len() + b.len(),
        rods_below(r@, 0x1_0000 * (b.len() + 1)),
{
    let mut out = copy_rods(a);
    let mut j: usize = 0;
    proof {
        assert(b@.subrange(0, 0) =~= Seq::<Rod>::empty());
    }
    while j < b.len()
        invariant
            j <= b.len(),
            small_rods(a@),
            small_rods(b@),
            out@ == hold_spec(a@, b@.subrange(0, j as int)),
            out.len() <= a.len() + j,
            rods_below(out@, 0x1_0000 * (j + 1)),
        decreases b.len() - j,
    {
        let r = b[j];
        proof {
            assert(b@.subrange(0, j + 1).drop_last() =~= b@.subrange(0, j as int));
            assert(b@.subrange(0, j + 1).last() == r);
        }
        match find_rod(&out, r.atom) {
            Some(k) => {
                let old = out[k];
                proof {
                    assert(old.stack <= 0x1_0000 * (j + 1));
                    assert(r.stack <= 0x1_0000);
                    assert(0x1_0000 * (j + 1) + 0x1_0000 <= 0x1_0000 * (j + 2)) by (nonlinear_arith);
                    assert(0x1_0000 * (j + 2) <= 0x1_0000 * 0x1_0002) by (nonlinear_arith)
                        requires j + 2 <= 0x1_0002;
                }
                out.set(k, Rod { atom: r.atom, stack: old.stack + r.stack });
            },
            None => {
                out.push(r);
            },
        }
        j += 1;
        proof {
            assert(rods_below(out@, 0x1_0000 * (j + 1))) by {
                assert forall|i: int| 0 <= i < out@.len() implies (#[trigger] out@[i]).stack <= 0x1_0000 * (j + 1) by {
                    assert(0x1_0000 * j <= 0x1_0000 * (j + 1)) by (nonlinear_arith);
                }
            }
        }
    }
    proof {
        assert(b@.subrange(0, b.len() as int) =~= b@);
    }
    out
}

/// Whether two cells are the same.
fn same_cell(a: &Vec<Rod>, b: &Vec<Rod>) -> (r: bool)
    ensures
        r == same_cell_spec(a@, b@),
{
    let mut i: usize = 0;
    while i < a.len()
        invariant
            i <= a.len(),
            forall|k: int| 0 <= k < i ==> (#[trigger] a@[k]).stack as nat == stack_on(b@, a@[k].atom),
        decreases a.len() - i,
    {
        if a[i].stack != stack_of(b, a[i].atom) {
            return false;
        }
        i += 1;
    }
    let mut i: usize = 0;
    while i < b.len()
        invariant
            i <= b.len(),
            forall|k: int| 0 <= k < i ==> (#[trigger] b@[k]).stack as nat == stack_on(a@, b@[k].atom),
        decreases b.len() - i,
    {
        if b[i].stack != stack_of(a, b[i].atom) {
            return false;
        }
        i += 1;
    }
    true
}


// ── items on the relational side ────────────────────────────────────────────

/// How an item is written: a decimal name, or an OpusNumber entry's arrival mark.
#[derive(Clone, Copy)]
pub enum Label {
    Num(u64),
    Mark(usize),
}

/// Something on the relational side: its rods, the region it covers in the shape, its label.
pub struct Item {
    pub rods: Vec<Rod>,
    pub region: Vec<Vec<usize>>,
    pub label: Label,
}

/// An item as values: rods, region, label.
pub type ItemV = (Seq<Rod>, Seq<Seq<usize>>, Label);

pub open spec fn iv(i: Item) -> ItemV {
    (i.rods@, rview(i.region), i.label)
}

/// Pairs of items as values.
pub open spec fn pv(s: Seq<(Item, Item)>) -> Seq<(ItemV, ItemV)> {
    s.map_values(|p: (Item, Item)| (iv(p.0), iv(p.1)))
}

fn copy_item(i: &Item) -> (r: Item)
    ensures
        iv(r) == iv(*i),
{
    let region = block(&i.region, &i.region);
    proof {
        assert(rview(i.region).take(i.region.len() as int) =~= rview(i.region));
    }
    Item { rods: copy_rods(&i.rods), region, label: i.label }
}

/// Turn reading first, then relation reading, of two items: the one whose region holds the
/// other's reads over it; nothing is read over the floor.
pub open spec fn readings_spec(a: ItemV, b: ItemV) -> Seq<(ItemV, ItemV)> {
    let (top, bottom) = if region_holds(a.1, b.1) { (a, b) } else { (b, a) };
    (if bottom.0.len() != 0 { seq![(top, bottom)] } else { seq![] }) + (if top.0.len() != 0 {
        seq![(bottom, top)]
    } else {
        seq![]
    })
}

/// Append the readings of a and b.
fn readings(a: &Item, b: &Item, out: &mut Vec<(Item, Item)>)
    ensures
        pv(final(out)@) == pv(old(out)@) + readings_spec(iv(*a), iv(*b)),
{
    let (top, bottom) = if holds(&a.region, &b.region) { (a, b) } else { (b, a) };
    let ghost start = pv(out@);
    if bottom.rods.len() != 0 {
        let ghost o = out@;
        out.push((copy_item(top), copy_item(bottom)));
        proof {
            assert(pv(out@) =~= pv(o).push((iv(*top), iv(*bottom))));
        }
    }
    let ghost mid = pv(out@);
    if top.rods.len() != 0 {
        let ghost o = out@;
        out.push((copy_item(bottom), copy_item(top)));
        proof {
            assert(pv(out@) =~= pv(o).push((iv(*bottom), iv(*top))));
        }
    }
    proof {
        assert(pv(out@) =~= start + readings_spec(iv(*a), iv(*b)));
    }
}

/// Two relations name one site: a held with d is, rod for rod, b held with c.
pub open spec fn same_site_spec(p: (ItemV, ItemV), q: (ItemV, ItemV)) -> bool {
    same_cell_spec(hold_spec(p.0.0, q.1.0), hold_spec(p.1.0, q.0.0))
}

/// Every item's cell is small.
pub open spec fn small_pairs(s: Seq<(ItemV, ItemV)>) -> bool {
    forall|i: int| 0 <= i < s.len() ==> small_rods((#[trigger] s[i]).0.0) && small_rods(s[i].1.0)
}

fn same_site(p: &(Item, Item), q: &(Item, Item)) -> (r: bool)
    requires
        small_rods(p.0.rods@),
        small_rods(p.1.rods@),
        small_rods(q.0.rods@),
        small_rods(q.1.rods@),
    ensures
        r == same_site_spec((iv(p.0), iv(p.1)), (iv(q.0), iv(q.1))),
{
    let x = hold(&p.0.rods, &q.1.rods);
    let y = hold(&p.1.rods, &q.0.rods);
    same_cell(&x, &y)
}

/// The first group, from g on, whose first relation names the same site as relation i (−1 if
/// none).
pub open spec fn first_fit(rels: Seq<(ItemV, ItemV)>, gs: Seq<Seq<usize>>, i: int, g: int) -> int
    decreases gs.len() - g,
{
    if g < 0 || g >= gs.len() {
        -1
    } else if same_site_spec(rels[gs[g][0] as int], rels[i]) {
        g
    } else {
        first_fit(rels, gs, i, g + 1)
    }
}

/// The relations grouped by site, first come first: each of the first n joins the first group
/// whose first relation names its site, or opens a new group. Groups hold relation indices.
pub open spec fn group_upto(rels: Seq<(ItemV, ItemV)>, n: int) -> Seq<Seq<usize>>
    decreases n,
{
    if n <= 0 {
        seq![]
    } else {
        let gs = group_upto(rels, n - 1);
        let k = first_fit(rels, gs, n - 1, 0);
        if k >= 0 {
            gs.update(k, gs[k].push((n - 1) as usize))
        } else {
            gs.push(seq![(n - 1) as usize])
        }
    }
}

/// Every group is nonempty and names relations below n.
pub open spec fn groups_ok(gs: Seq<Seq<usize>>, n: int) -> bool {
    forall|g: int| 0 <= g < gs.len() ==> (#[trigger] gs[g]).len() >= 1 && forall|k: int| 0 <= k < gs[g].len() ==> gs[g][k] < n
}

proof fn lemma_group_ok(rels: Seq<(ItemV, ItemV)>, n: int)
    requires
        0 <= n,
    ensures
        groups_ok(group_upto(rels, n), n),
    decreases n,
{
    if n > 0 {
        lemma_group_ok(rels, n - 1);
        let gs = group_upto(rels, n - 1);
        lemma_first_fit(rels, gs, n - 1, 0);
        let k = first_fit(rels, gs, n - 1, 0);
        let r = group_upto(rels, n);
        assert forall|g: int| 0 <= g < r.len() implies (#[trigger] r[g]).len() >= 1 && forall|j: int| 0 <= j < r[g].len() ==> r[g][j] < n by {
            if k >= 0 && g == k {
                assert forall|j: int| 0 <= j < r[g].len() implies r[g][j] < n by {
                    if j < gs[g].len() {
                        assert(r[g][j] == gs[g][j]);
                    }
                }
            } else if g < gs.len() {
                assert(r[g] == gs[g]);
            }
        }
    }
}

proof fn lemma_first_fit(rels: Seq<(ItemV, ItemV)>, gs: Seq<Seq<usize>>, i: int, g: int)
    ensures
        first_fit(rels, gs, i, g) == -1 || (g <= first_fit(rels, gs, i, g) < gs.len()),
    decreases gs.len() - g,
{
    if 0 <= g < gs.len() && !same_site_spec(rels[gs[g][0] as int], rels[i]) {
        lemma_first_fit(rels, gs, i, g + 1);
    }
}

fn find_fit(rels: &Vec<(Item, Item)>, gs: &Vec<Vec<usize>>, i: usize, Ghost(rs): Ghost<Seq<(ItemV, ItemV)>>) -> (r: Option<usize>)
    requires
        i < rels.len(),
        rs == pv(rels@),
        small_pairs(rs),
        groups_ok(rview(*gs), i as int),
    ensures
        r is None ==> first_fit(rs, rview(*gs), i as int, 0) == -1,
        r matches Some(g) ==> first_fit(rs, rview(*gs), i as int, 0) == g as int && g < gs.len(),
{
    proof {
        assert(rs[i as int] == (iv(rels@[i as int].0), iv(rels@[i as int].1)));
    }
    let mut g: usize = 0;
    while g < gs.len()
        invariant
            g <= gs.len(),
            i < rels.len(),
            rs == pv(rels@),
            small_pairs(rs),
            groups_ok(rview(*gs), i as int),
            rs[i as int] == (iv(rels@[i as int].0), iv(rels@[i as int].1)),
            first_fit(rs, rview(*gs), i as int, 0) == first_fit(rs, rview(*gs), i as int, g as int),
        decreases gs.len() - g,
    {
        proof {
            assert(rview(*gs)[g as int] == gs@[g as int]@);
        }
        let j = gs[g][0];
        proof {
            assert(rview(*gs)[g as int][0] == j);
            assert(rs[j as int] == (iv(rels@[j as int].0), iv(rels@[j as int].1)));
        }
        if same_site(&rels[j], &rels[i]) {
            return Some(g);
        }
        g += 1;
    }
    None
}

/// The relations grouped by site, first come first, as lists of relation indices.
fn group(rels: &Vec<(Item, Item)>) -> (r: Vec<Vec<usize>>)
    requires
        small_pairs(pv(rels@)),
    ensures
        rview(r) == group_upto(pv(rels@), rels.len() as int),
{
    let ghost rs = pv(rels@);
    let mut gs: Vec<Vec<usize>> = Vec::new();
    let mut i: usize = 0;
    while i < rels.len()
        invariant
            i <= rels.len(),
            rs == pv(rels@),
            small_pairs(rs),
            rview(gs) == group_upto(rs, i as int),
        decreases rels.len() - i,
    {
        proof {
            lemma_group_ok(rs, i as int);
            assert(rs[i as int] == (iv(rels@[i as int].0), iv(rels@[i as int].1)));
        }
        let fit = find_fit(rels, &gs, i, Ghost(rs));
        if let Some(g) = fit {
            let mut v = copy_path(&gs[g]);
            v.push(i);
            let ghost o = gs@;
            gs.set(g, v);
            proof {
                assert(rview(gs) =~= group_upto(rs, i + 1));
            }
        } else {
            let mut v: Vec<usize> = Vec::new();
            v.push(i);
            let ghost o = gs@;
            gs.push(v);
            proof {
                assert(rview(gs) =~= group_upto(rs, i + 1));
            }
        }
        i += 1;
    }
    gs
}


// ── writing ─────────────────────────────────────────────────────────────────

/// How a label is written: its decimal name, or O and the entry's arrival number.
pub open spec fn label_chars(l: Label) -> Seq<char> {
    match l {
        Label::Num(n) => dec_chars(n as nat),
        Label::Mark(s) => seq!['O'] + dec_chars((s + 1) as nat),
    }
}

/// A relation written a/b.
pub open spec fn rel_chars(p: (ItemV, ItemV)) -> Seq<char> {
    label_chars(p.0.2) + seq!['/'] + label_chars(p.1.2)
}

/// Parts joined by a separator.
pub open spec fn join(parts: Seq<Seq<char>>, sep: Seq<char>) -> Seq<char>
    decreases parts.len(),
{
    if parts.len() == 0 {
        seq![]
    } else if parts.len() == 1 {
        parts[0]
    } else {
        join(parts.drop_last(), sep) + sep + parts.last()
    }
}

pub open spec fn comma() -> Seq<char> {
    seq![',', ' ']
}

/// A group written alone as its relation, or bracketed as one site.
pub open spec fn group_chars(rels: Seq<(ItemV, ItemV)>, g: Seq<usize>) -> Seq<char> {
    if g.len() == 1 {
        rel_chars(rels[g[0] as int])
    } else {
        seq!['['] + join(Seq::new(g.len(), |k: int| rel_chars(rels[g[k] as int])), comma()) + seq![']']
    }
}

/// The groups written one after another.
pub open spec fn groups_chars(rels: Seq<(ItemV, ItemV)>, gs: Seq<Seq<usize>>) -> Seq<char> {
    join(Seq::new(gs.len(), |k: int| group_chars(rels, gs[k])), comma())
}

proof fn lemma_join_step(parts: Seq<Seq<char>>, sep: Seq<char>, k: int)
    requires
        1 <= k < parts.len(),
    ensures
        join(parts.take(k + 1), sep) == join(parts.take(k), sep) + sep + parts[k],
        join(parts.take(1), sep) == parts[0],
{
    assert(parts.take(k + 1).drop_last() =~= parts.take(k));
    assert(parts.take(1).len() == 1);
}

proof fn lemma_join_one(parts: Seq<Seq<char>>, sep: Seq<char>)
    requires
        1 <= parts.len(),
    ensures
        join(parts.take(1), sep) == parts[0],
{
    assert(parts.take(1).len() == 1);
}

fn push_chars(out: &mut Vec<u8>, a: char, b: char)
    ensures
        final(out)@ == old(out)@ + encode_utf8(seq![a, b]),
{
    push_char(out, a);
    push_char(out, b);
    proof {
        lemma_encode_concat(seq![a], seq![b]);
        assert(seq![a] + seq![b] =~= seq![a, b]);
    }
}

fn push_label(out: &mut Vec<u8>, l: Label)
    requires
        l matches Label::Mark(s) ==> s < 0x1_0000,
    ensures
        final(out)@ == old(out)@ + encode_utf8(label_chars(l)),
{
    match l {
        Label::Num(n) => {
            crate::pf::push_dec_chars(out, n);
        },
        Label::Mark(s) => {
            let ghost o = out@;
            push_char(out, 'O');
            crate::pf::push_dec_chars(out, (s + 1) as u64);
            proof {
                lemma_encode_concat(seq!['O'], dec_chars((s + 1) as nat));
            }
        },
    }
}

fn push_rel(out: &mut Vec<u8>, p: &(Item, Item))
    requires
        p.0.label matches Label::Mark(s) ==> s < 0x1_0000,
        p.1.label matches Label::Mark(s) ==> s < 0x1_0000,
    ensures
        final(out)@ == old(out)@ + encode_utf8(rel_chars((iv(p.0), iv(p.1)))),
{
    let ghost o = out@;
    push_label(out, p.0.label);
    push_char(out, '/');
    push_label(out, p.1.label);
    proof {
        lemma_encode_concat(label_chars(p.0.label), seq!['/']);
        lemma_encode_concat(label_chars(p.0.label) + seq!['/'], label_chars(p.1.label));
    }
}

/// Every label of the relations is writable.
pub open spec fn labels_ok(rels: Seq<(Item, Item)>) -> bool {
    forall|i: int| 0 <= i < rels.len() ==> ((#[trigger] rels[i]).0.label matches Label::Mark(s) ==> s < 0x1_0000) && (
        rels[i].1.label matches Label::Mark(s) ==> s < 0x1_0000)
}

fn push_group(out: &mut Vec<u8>, rels: &Vec<(Item, Item)>, g: &Vec<usize>)
    requires
        labels_ok(rels@),
        g.len() >= 1,
        forall|k: int| 0 <= k < g.len() ==> g@[k] < rels.len(),
    ensures
        final(out)@ == old(out)@ + encode_utf8(group_chars(pv(rels@), g@)),
{
    let ghost rs = pv(rels@);
    if g.len() == 1 {
        push_rel(out, &rels[g[0]]);
        proof {
            assert(rs[g@[0] as int] == (iv(rels@[g@[0] as int].0), iv(rels@[g@[0] as int].1)));
        }
        return;
    }
    let ghost parts = Seq::new(g.len() as nat, |k: int| rel_chars(rs[g@[k] as int]));
    let ghost start = out@;
    push_char(out, '[');
    let ghost s1 = out@;
    push_rel(out, &rels[g[0]]);
    proof {
        assert(rs[g@[0] as int] == (iv(rels@[g@[0] as int].0), iv(rels@[g@[0] as int].1)));
        lemma_join_step(parts, comma(), 1);
    }
    let mut k: usize = 1;
    while k < g.len()
        invariant
            1 <= k <= g.len(),
            labels_ok(rels@),
            forall|kk: int| 0 <= kk < g.len() ==> g@[kk] < rels.len(),
            rs == pv(rels@),
            parts == Seq::new(g.len() as nat, |kk: int| rel_chars(rs[g@[kk] as int])),
            out@ == s1 + encode_utf8(join(parts.take(k as int), comma())),
        decreases g.len() - k,
    {
        let ghost before = out@;
        push_chars(out, ',', ' ');
        push_rel(out, &rels[g[k]]);
        proof {
            assert(rs[g@[k as int] as int] == (iv(rels@[g@[k as int] as int].0), iv(rels@[g@[k as int] as int].1)));
            lemma_join_step(parts, comma(), k as int);
            lemma_encode_concat(join(parts.take(k as int), comma()), comma());
            lemma_encode_concat(join(parts.take(k as int), comma()) + comma(), parts[k as int]);
        }
        k += 1;
    }
    push_char(out, ']');
    proof {
        assert(parts.take(g.len() as int) =~= parts);
        lemma_encode_concat(seq!['['], join(parts, comma()));
        lemma_encode_concat(seq!['['] + join(parts, comma()), seq![']']);
    }
}

/// Append the groups written one after another.
fn push_groups(out: &mut Vec<u8>, rels: &Vec<(Item, Item)>, gs: &Vec<Vec<usize>>)
    requires
        labels_ok(rels@),
        groups_ok(rview(*gs), rels.len() as int),
    ensures
        final(out)@ == old(out)@ + encode_utf8(groups_chars(pv(rels@), rview(*gs))),
{
    let ghost rs = pv(rels@);
    let ghost parts = Seq::new(gs.len() as nat, |k: int| group_chars(rs, rview(*gs)[k]));
    let ghost start = out@;
    if gs.len() == 0 {
        proof {
            assert(parts.len() == 0);
            assert(encode_utf8(Seq::<char>::empty()) =~= Seq::<u8>::empty());
            assert(out@ =~= start + encode_utf8(groups_chars(rs, rview(*gs))));
        }
        return;
    }
    proof {
        assert(rview(*gs)[0] == gs@[0]@);
    }
    push_group(out, rels, &gs[0]);
    proof {
        lemma_join_one(parts, comma());
    }
    let mut k: usize = 1;
    while k < gs.len()
        invariant
            1 <= k <= gs.len(),
            labels_ok(rels@),
            groups_ok(rview(*gs), rels.len() as int),
            rs == pv(rels@),
            parts == Seq::new(gs.len() as nat, |kk: int| group_chars(rs, rview(*gs)[kk])),
            out@ == start + encode_utf8(join(parts.take(k as int), comma())),
        decreases gs.len() - k,
    {
        proof {
            assert(rview(*gs)[k as int] == gs@[k as int]@);
        }
        push_chars(out, ',', ' ');
        push_group(out, rels, &gs[k]);
        proof {
            lemma_join_step(parts, comma(), k as int);
            lemma_encode_concat(join(parts.take(k as int), comma()), comma());
            lemma_encode_concat(join(parts.take(k as int), comma()) + comma(), parts[k as int]);
        }
        k += 1;
    }
    proof {
        assert(parts.take(gs.len() as int) =~= parts);
    }
}


// ── cycle 1 ─────────────────────────────────────────────────────────────────

/// The line cycle 1 is checked against.
pub const TARGET: &'static str = "2{Q*(4/O1, O1/4, O1/2, 2/O1, 1/O1), Pq(4/2, [2/4, 1/2], 1/4), Pn(2)}";

/// The square: rod 2 with one bead per seat of its own ring of two.
pub open spec fn square() -> Seq<Seq<usize>> {
    seats_spec(2, 2)
}

/// The held cell of k beads on rod 2 (the floor for none), covering the first block of the
/// square that pairs with its own seats, named 2^k.
pub open spec fn held_v(k: nat) -> ItemV {
    let own = seats_spec(k, 2);
    (
        if k == 0 { seq![] } else { seq![Rod { atom: 0, stack: k as u64 }] },
        square().take(if square().len() < own.len() { square().len() as int } else { own.len() as int }),
        Label::Num(vstd::arithmetic::power2::pow2(k) as u64),
    )
}

/// The held cells, deepest first.
pub open spec fn held_s() -> Seq<ItemV> {
    seq![held_v(2), held_v(1), held_v(0)]
}

/// Pq: the readings of every pair of held cells, deeper first.
pub open spec fn pq_s() -> Seq<(ItemV, ItemV)> {
    readings_spec(held_s()[0], held_s()[1]) + readings_spec(held_s()[0], held_s()[2]) + readings_spec(held_s()[1], held_s()[2])
}

/// Some held cell covers exactly the region w.
pub open spec fn covered(w: Seq<Seq<usize>>) -> bool {
    exists|h: int| 0 <= h < 3 && region_holds(#[trigger] held_s()[h].1, w) && region_holds(w, held_s()[h].1)
}

/// The blocks of the square's walk, up to its first n seats, that no held cell covers exactly.
pub open spec fn unreached_upto(n: int) -> Seq<Seq<Seq<usize>>>
    decreases n,
{
    if n <= 0 {
        seq![]
    } else {
        unreached_upto(n - 1) + if covered(square().take(n)) { seq![] } else { seq![square().take(n)] }
    }
}

/// The ? cell: the OpusNumber's first entry, on the rail's second rod, covering `region`.
pub open spec fn q_v(region: Seq<Seq<usize>>) -> ItemV {
    (seq![Rod { atom: 1, stack: 1 }], region, Label::Mark(0))
}

/// Q*: every held cell read against the ? cell.
pub open spec fn qs_s(region: Seq<Seq<usize>>) -> Seq<(ItemV, ItemV)> {
    readings_spec(held_s()[0], q_v(region)) + readings_spec(held_s()[1], q_v(region)) + readings_spec(held_s()[2], q_v(region))
}

/// Cycle 1's line: the bit's name, then Q*, Pq and the rail's two rods.
pub open spec fn cycle_line(region: Seq<Seq<usize>>) -> Seq<char> {
    "2{Q*("@ + groups_chars(qs_s(region), group_upto(qs_s(region), qs_s(region).len() as int)) + "), Pq("@ + groups_chars(
        pq_s(),
        group_upto(pq_s(), pq_s().len() as int),
    ) + "), Pn(2)}"@
}

fn push_lit(out: &mut Vec<u8>, s: &str)
    ensures
        final(out)@ == old(out)@ + encode_utf8(s@),
{
    let b = s.as_bytes();
    let ghost start = out@;
    let mut i: usize = 0;
    while i < b.len()
        invariant
            i <= b.len(),
            out@ == start + b@.subrange(0, i as int),
        decreases b.len() - i,
    {
        out.push(b[i]);
        i += 1;
        proof {
            assert(out@ =~= start + b@.subrange(0, i as int));
        }
    }
    proof {
        assert(b@.subrange(0, b.len() as int) =~= b@);
    }
}

fn bytes_eq(a: &[u8], b: &[u8]) -> (r: bool)
    ensures
        r == (a@ == b@),
{
    if a.len() != b.len() {
        return false;
    }
    let mut i: usize = 0;
    while i < a.len()
        invariant
            i <= a.len(),
            a.len() == b.len(),
            forall|j: int| 0 <= j < i ==> a@[j] == b@[j],
        decreases a.len() - i,
    {
        if a[i] != b[i] {
            return false;
        }
        i += 1;
    }
    proof {
        assert(a@ =~= b@);
    }
    true
}

proof fn lemma_encode_injective(a: Seq<char>, b: Seq<char>)
    requires
        encode_utf8(a) == encode_utf8(b),
    ensures
        a == b,
{
    vstd::utf8::encode_utf8_decode_utf8(a);
    vstd::utf8::encode_utf8_decode_utf8(b);
}

proof fn lemma_expand_len(ps: Seq<Seq<usize>>, r: nat)
    ensures
        expand(ps, r).len() == ps.len() * r,
    decreases ps.len(),
{
    if ps.len() > 0 {
        lemma_expand_len(ps.drop_last(), r);
        assert((ps.len() - 1) * r + r == ps.len() * r) by (nonlinear_arith);
    }
}

proof fn lemma_seats_len(k: nat)
    requires
        k <= 2,
    ensures
        seats_spec(k, 2).len() == vstd::arithmetic::power2::pow2(k),
{
    vstd::arithmetic::power2::lemma2_to64();
    if k >= 1 {
        lemma_expand_len(seats_spec(0, 2), 2);
    }
    if k == 2 {
        lemma_expand_len(seats_spec(1, 2), 2);
    }
}

proof fn lemma_small_held()
    ensures
        small_pairs(pq_s()),
        forall|h: int| 0 <= h < 3 ==> small_rods(#[trigger] held_s()[h].0),
{
    assert forall|h: int| 0 <= h < 3 implies small_rods(#[trigger] held_s()[h].0) by {
        assert(held_s()[h].0.len() <= 1);
    }
    let p = pq_s();
    assert forall|i: int| 0 <= i < p.len() implies small_rods((#[trigger] p[i]).0.0) && small_rods(p[i].1.0) by {
        assert(small_rods(held_s()[0].0) && small_rods(held_s()[1].0) && small_rods(held_s()[2].0));
    }
}

proof fn lemma_small_q(reg: Seq<Seq<usize>>)
    ensures
        small_pairs(qs_s(reg)),
{
    lemma_small_held();
    assert(small_rods(q_v(reg).0));
    let p = qs_s(reg);
    assert forall|i: int| 0 <= i < p.len() implies small_rods((#[trigger] p[i]).0.0) && small_rods(p[i].1.0) by {
        assert(small_rods(held_s()[0].0) && small_rods(held_s()[1].0) && small_rods(held_s()[2].0));
    }
}

/// Labels that are names or the first mark are writable.
proof fn lemma_labels(rels: Seq<(Item, Item)>)
    requires
        forall|i: int| 0 <= i < rels.len() ==> ((#[trigger] pv(rels)[i]).0.2 matches Label::Mark(s) ==> s == 0) && (
            pv(rels)[i].1.2 matches Label::Mark(s) ==> s == 0),
    ensures
        labels_ok(rels),
{
    assert forall|i: int| 0 <= i < rels.len() implies ((#[trigger] rels[i]).0.label matches Label::Mark(s) ==> s < 0x1_0000) && (
        rels[i].1.label matches Label::Mark(s) ==> s < 0x1_0000) by {
        assert(pv(rels)[i] == (iv(rels[i].0), iv(rels[i].1)));
    }
}

/// The held cell of k beads on rod 2.
fn held_item(shape: &Vec<Vec<usize>>, k: usize) -> (r: Item)
    requires
        k <= 2,
        rview(*shape) == square(),
    ensures
        iv(r) == held_v(k as nat),
{
    let own = seats(k, 2);
    let region = block(shape, &own);
    proof {
        lemma_seats_len(k as nat);
        lemma_seats_len(2);
    }
    let mut rods: Vec<Rod> = Vec::new();
    if k > 0 {
        rods.push(Rod { atom: 0, stack: k as u64 });
    }
    proof {
        vstd::arithmetic::power2::lemma2_to64();
        assert(rods@ =~= held_v(k as nat).0);
    }
    let name: u64 = if k == 0 { 1 } else if k == 1 { 2 } else { 4 };
    Item { rods, region, label: Label::Num(name) }
}

/// The first n seats of a region.
fn take_region(r: &Vec<Vec<usize>>, n: usize) -> (t: Vec<Vec<usize>>)
    requires
        n <= r.len(),
    ensures
        rview(t) == rview(*r).take(n as int),
{
    let mut t: Vec<Vec<usize>> = Vec::new();
    let mut i: usize = 0;
    while i < n
        invariant
            i <= n,
            n <= r.len(),
            rview(t) == rview(*r).take(i as int),
        decreases n - i,
    {
        let q = copy_path(&r[i]);
        let ghost old = t@;
        t.push(q);
        i += 1;
        proof {
            assert(t@ == old.push(q));
            assert(rview(t) =~= rv_push(old, q));
            assert(rview(t) =~= rview(*r).take(i as int));
        }
    }
    t
}

/// Cycle 1: the line it writes and whether it is the target; `None` where the square leaves
/// other than one uncovered block (cycle 1 refused).
pub fn cycle_one() -> (r: Option<(String, bool, Vec<Vec<usize>>)>)
    ensures
        r is None <==> unreached_upto(4).len() != 1,
        r matches Some((line, gate, region)) ==> {
            &&& rview(region) == unreached_upto(4)[0]
            &&& line@ == cycle_line(unreached_upto(4)[0])
            &&& gate == (line@ == TARGET@)
        },
{
    let shape = seats(2, 2);
    proof {
        lemma_seats_len(2);
        vstd::arithmetic::power2::lemma2_to64();
    }
    let mut held: Vec<Item> = Vec::new();
    held.push(held_item(&shape, 2));
    held.push(held_item(&shape, 1));
    held.push(held_item(&shape, 0));
    let ghost hv = held@.map_values(|i: Item| iv(i));
    proof {
        assert(hv =~= held_s());
    }
    // Pq
    let mut pq: Vec<(Item, Item)> = Vec::new();
    readings(&held[0], &held[1], &mut pq);
    readings(&held[0], &held[2], &mut pq);
    readings(&held[1], &held[2], &mut pq);
    proof {
        assert(hv[0] == iv(held@[0]) && hv[1] == iv(held@[1]) && hv[2] == iv(held@[2]));
        assert(pv(pq@) =~= pq_s());
        lemma_small_held();
    }
    let pg = group(&pq);
    // the ? cell
    let mut unreached: Vec<Vec<Vec<usize>>> = Vec::new();
    let mut t: usize = 1;
    proof {
        assert(unreached@.map_values(|x: Vec<Vec<usize>>| rview(x)) =~= unreached_upto(0));
    }
    while t <= shape.len()
        invariant
            1 <= t <= shape.len() + 1,
            shape.len() == 4,
            rview(shape) == square(),
            held@.map_values(|i: Item| iv(i)) == held_s(),
            held.len() == 3,
            unreached@.map_values(|x: Vec<Vec<usize>>| rview(x)) == unreached_upto(t - 1),
        decreases shape.len() + 1 - t,
    {
        let walk = take_region(&shape, t);
        let mut h: usize = 0;
        let mut hit = false;
        while h < 3
            invariant
                h <= 3,
                held.len() == 3,
                held@.map_values(|i: Item| iv(i)) == held_s(),
                rview(walk) == square().take(t as int),
                hit == exists|hh: int| 0 <= hh < h && region_holds(#[trigger] held_s()[hh].1, rview(walk)) && region_holds(rview(walk), held_s()[hh].1),
            decreases 3 - h,
        {
            proof {
                assert(held_s()[h as int] == iv(held@[h as int]));
            }
            let same = same_region(&held[h].region, &walk);
            proof {
                let hs = held_s()[h as int].1;
                assert(same == (region_holds(hs, rview(walk)) && region_holds(rview(walk), hs)));
                if same {
                    assert(region_holds(held_s()[h as int].1, rview(walk)) && region_holds(rview(walk), held_s()[h as int].1));
                }
            }
            if same {
                hit = true;
            }
            h += 1;
        }
        let ghost o = unreached@;
        if !hit {
            unreached.push(walk);
            proof {
                assert(unreached@.map_values(|x: Vec<Vec<usize>>| rview(x)) =~= o.map_values(|x: Vec<Vec<usize>>| rview(x)).push(square().take(t as int)));
            }
        }
        proof {
            assert(unreached@.map_values(|x: Vec<Vec<usize>>| rview(x)) =~= unreached_upto(t as int));
        }
        t += 1;
    }
    if unreached.len() != 1 {
        proof {
            assert(unreached_upto(4).len() == unreached.len());
        }
        return None;
    }
    let region = take_region(&unreached[0], unreached[0].len());
    proof {
        assert(rview(unreached@[0]) == unreached_upto(4)[0]);
        assert(rview(unreached@[0]).take(unreached@[0].len() as int) =~= rview(unreached@[0]));
    }
    let mut qrods: Vec<Rod> = Vec::new();
    qrods.push(Rod { atom: 1, stack: 1 });
    let q = Item { rods: qrods, region, label: Label::Mark(0) };
    proof {
        assert(iv(q) =~= q_v(unreached_upto(4)[0]));
    }
    let mut qs: Vec<(Item, Item)> = Vec::new();
    readings(&held[0], &q, &mut qs);
    readings(&held[1], &q, &mut qs);
    readings(&held[2], &q, &mut qs);
    let ghost reg = unreached_upto(4)[0];
    proof {
        assert(held_s()[0] == iv(held@[0]) && held_s()[1] == iv(held@[1]) && held_s()[2] == iv(held@[2]));
        assert(pv(qs@) =~= qs_s(reg));
        lemma_small_q(reg);
    }
    let qg = group(&qs);
    proof {
        lemma_group_ok(pv(qs@), qs.len() as int);
        lemma_group_ok(pv(pq@), pq.len() as int);
        assert forall|i: int| 0 <= i < pq.len() implies ((#[trigger] pv(pq@)[i]).0.2 matches Label::Mark(s) ==> s == 0) && (
            pv(pq@)[i].1.2 matches Label::Mark(s) ==> s == 0) by {}
        assert forall|i: int| 0 <= i < qs.len() implies ((#[trigger] pv(qs@)[i]).0.2 matches Label::Mark(s) ==> s == 0) && (
            pv(qs@)[i].1.2 matches Label::Mark(s) ==> s == 0) by {}
        lemma_labels(pq@);
        lemma_labels(qs@);
    }
    let mut out: Vec<u8> = Vec::new();
    push_lit(&mut out, "2{Q*(");
    push_groups(&mut out, &qs, &qg);
    push_lit(&mut out, "), Pq(");
    push_groups(&mut out, &pq, &pg);
    push_lit(&mut out, "), Pn(2)}");
    let ghost line = cycle_line(reg);
    proof {
        let a = "2{Q*("@;
        let b = groups_chars(qs_s(reg), group_upto(qs_s(reg), qs_s(reg).len() as int));
        let c = "), Pq("@;
        let d = groups_chars(pq_s(), group_upto(pq_s(), pq_s().len() as int));
        let e = "), Pn(2)}"@;
        lemma_encode_concat(a, b);
        lemma_encode_concat(a + b, c);
        lemma_encode_concat(a + b + c, d);
        lemma_encode_concat(a + b + c + d, e);
        assert(out@ =~= encode_utf8(line));
    }
    let gate = bytes_eq(out.as_slice(), TARGET.as_bytes());
    proof {
        if out@ == TARGET.spec_bytes() {
            lemma_encode_injective(line, TARGET@);
        }
    }
    let s = string_of(&out, Ghost(line));
    let reg_out = take_region(&q.region, q.region.len());
    proof {
        assert(rview(q.region).take(q.region.len() as int) =~= rview(q.region));
    }
    Some((s, gate, reg_out))
}


// ── update 1 ────────────────────────────────────────────────────────────────

/// The regions hold each other.
pub open spec fn same_reg(a: Seq<Seq<usize>>, b: Seq<Seq<usize>>) -> bool {
    region_holds(a, b) && region_holds(b, a)
}

/// What covers the first t seats of the entry's region: the first held cell covering exactly
/// that block, else the entry itself once the block is its whole region, else nothing.
pub open spec fn cover(e: Seq<Seq<usize>>, t: int) -> Option<Label> {
    let w = e.take(t);
    if same_reg(held_s()[0].1, w) {
        Some(held_s()[0].2)
    } else if same_reg(held_s()[1].1, w) {
        Some(held_s()[1].2)
    } else if same_reg(held_s()[2].1, w) {
        Some(held_s()[2].2)
    } else if same_reg(e, w) {
        Some(Label::Mark(0))
    } else {
        None
    }
}

/// Every block of the entry's walk, up to its first n seats, is covered.
pub open spec fn all_covered(e: Seq<Seq<usize>>, n: int) -> bool {
    forall|t: int| 1 <= t <= n ==> #[trigger] cover(e, t) is Some
}

/// The seat names of the entry's walk: what covers each block, over O1.
pub open spec fn seat_names(e: Seq<Seq<usize>>) -> Seq<Seq<char>> {
    Seq::new(e.len(), |k: int| label_chars(cover(e, k + 1)->0) + "/O1"@)
}

/// The collapse line: O1/O1's seats all held, so O1 is whole and named by its ring.
pub open spec fn collapse_line(e: Seq<Seq<usize>>) -> Seq<char> {
    "collapse O1/O1: seats "@ + join(seat_names(e), comma()) + " all held -> whole, OpusNumber O1 is named "@ + dec_chars(
        e.len(),
    )
}

/// The atoms with their levels: the bit 2 and the whole n, each at level 1 and level 2.
pub open spec fn atom_line(n: nat) -> Seq<char> {
    "2(2¹, 2²), "@ + dec_chars(n) + "("@ + dec_chars(n) + "¹, "@ + dec_chars(n) + "²)"@
}

/// The crossing at level l: how many seats the two atoms' shapes make together, and its factors.
pub open spec fn cross_line(l: nat, n: nat, sup: Seq<char>) -> Seq<char> {
    dec_chars(seats_spec(l, 2).len() * seats_spec(l, n).len()) + "(2"@ + sup + " × "@ + dec_chars(n) + sup + ")"@
}

/// Update 1's lines.
pub open spec fn update_lines(e: Seq<Seq<usize>>) -> Seq<Seq<char>> {
    seq![collapse_line(e), atom_line(e.len()), cross_line(1, e.len(), "¹"@), cross_line(2, e.len(), "²"@)]
}

/// The update's target, line by line.
pub open spec fn update_target() -> Seq<Seq<char>> {
    seq!["2(2¹, 2²), 3(3¹, 3²)"@, "6(2¹ × 3¹)"@, "36(2² × 3²)"@]
}

fn held_label(held: &Vec<Item>, walk: &Vec<Vec<usize>>, e: &Vec<Vec<usize>>, Ghost(t): Ghost<int>) -> (r: Option<Label>)
    requires
        held.len() == 3,
        held@.map_values(|i: Item| iv(i)) == held_s(),
        rview(*walk) == rview(*e).take(t),
    ensures
        r == cover(rview(*e), t),
{
    proof {
        assert(held_s()[0] == iv(held@[0]) && held_s()[1] == iv(held@[1]) && held_s()[2] == iv(held@[2]));
    }
    if same_region(&held[0].region, walk) {
        Some(held[0].label)
    } else if same_region(&held[1].region, walk) {
        Some(held[1].label)
    } else if same_region(&held[2].region, walk) {
        Some(held[2].label)
    } else if same_region(e, walk) {
        Some(Label::Mark(0))
    } else {
        None
    }
}

fn string_from(out: &Vec<u8>, Ghost(chars): Ghost<Seq<char>>) -> (s: String)
    requires
        out@ == encode_utf8(chars),
    ensures
        s@ == chars,
{
    string_of(out, Ghost(chars))
}

proof fn lemma_cat(a: Seq<char>, b: Seq<char>, x: Seq<u8>)
    requires
        x == encode_utf8(a),
    ensures
        x + encode_utf8(b) == encode_utf8(a + b),
{
    lemma_encode_concat(a, b);
}

/// Update 1 over the ? cell's region: the collapse line, the atoms line and the two crossing
/// lines, and whether the last three are the target. `None` where a seat of the entry is not
/// covered (update 1 refused).
pub fn update_one(e: &Vec<Vec<usize>>) -> (r: Option<(Vec<String>, bool)>)
    requires
        e.len() < 0x1_0000,
    ensures
        r is None <==> !all_covered(rview(*e), e.len() as int),
        r matches Some((lines, gate)) ==> {
            &&& lines.len() == 4
            &&& forall|k: int| 0 <= k < 4 ==> (#[trigger] lines[k])@ == update_lines(rview(*e))[k]
            &&& gate == (lines[1]@ == update_target()[0] && lines[2]@ == update_target()[1] && lines[3]@ == update_target()[2])
        },
{
    let ghost ev = rview(*e);
    let shape = seats(2, 2);
    proof {
        lemma_seats_len(2);
        vstd::arithmetic::power2::lemma2_to64();
    }
    let mut held: Vec<Item> = Vec::new();
    held.push(held_item(&shape, 2));
    held.push(held_item(&shape, 1));
    held.push(held_item(&shape, 0));
    proof {
        assert(held@.map_values(|i: Item| iv(i)) =~= held_s());
    }
    let ghost names = seat_names(ev);
    let mut body: Vec<u8> = Vec::new();
    let mut t: usize = 1;
    while t <= e.len()
        invariant
            1 <= t <= e.len() + 1,
            e.len() < 0x1_0000,
            ev == rview(*e),
            held.len() == 3,
            held@.map_values(|i: Item| iv(i)) == held_s(),
            all_covered(ev, t - 1),
            names == seat_names(ev),
            t > 1 ==> body@ == encode_utf8(join(names.take(t - 1), comma())),
            t == 1 ==> body@ == Seq::<u8>::empty(),
        decreases e.len() + 1 - t,
    {
        let walk = take_region(e, t);
        let c = held_label(&held, &walk, e, Ghost(t as int));
        match c {
            None => {
                return None;
            },
            Some(l) => {
                proof {
                    assert(l matches Label::Mark(s) ==> s == 0);
                    assert(names[t - 1] == label_chars(l) + "/O1"@);
                }
                let ghost before = body@;
                if t > 1 {
                    push_chars(&mut body, ',', ' ');
                }
                let ghost mid = body@;
                push_label(&mut body, l);
                push_lit(&mut body, "/O1");
                proof {
                    lemma_encode_concat(label_chars(l), "/O1"@);
                    if t > 1 {
                        lemma_join_step(names, comma(), t - 1);
                        lemma_encode_concat(join(names.take(t - 1), comma()), comma());
                        lemma_encode_concat(join(names.take(t - 1), comma()) + comma(), names[t - 1]);
                    } else {
                        lemma_join_one(names, comma());
                    }
                    assert forall|tt: int| 1 <= tt <= t implies #[trigger] cover(ev, tt) is Some by {}
                }
            },
        }
        t += 1;
    }
    let n = e.len();
    proof {
        assert(names.take(n as int) =~= names);
        if n == 0 {
            assert(join(names, comma()) == Seq::<char>::empty());
            assert(encode_utf8(Seq::<char>::empty()) =~= Seq::<u8>::empty());
        }
    }
    let mut l0: Vec<u8> = Vec::new();
    push_lit(&mut l0, "collapse O1/O1: seats ");
    let ghost a0 = l0@;
    let mut k: usize = 0;
    while k < body.len()
        invariant
            k <= body.len(),
            l0@ == a0 + body@.subrange(0, k as int),
        decreases body.len() - k,
    {
        l0.push(body[k]);
        k += 1;
        proof {
            assert(l0@ =~= a0 + body@.subrange(0, k as int));
        }
    }
    push_lit(&mut l0, " all held -> whole, OpusNumber O1 is named ");
    crate::pf::push_dec_chars(&mut l0, n as u64);
    proof {
        assert(body@.subrange(0, body.len() as int) =~= body@);
        let p0 = "collapse O1/O1: seats "@;
        let p1 = join(names, comma());
        let p2 = " all held -> whole, OpusNumber O1 is named "@;
        lemma_encode_concat(p0, p1);
        lemma_encode_concat(p0 + p1, p2);
        lemma_encode_concat(p0 + p1 + p2, dec_chars(n as nat));
        assert(l0@ =~= encode_utf8(collapse_line(ev)));
    }
    // the atoms with their levels
    let mut l1: Vec<u8> = Vec::new();
    push_lit(&mut l1, "2(2¹, 2²), ");
    crate::pf::push_dec_chars(&mut l1, n as u64);
    push_lit(&mut l1, "(");
    crate::pf::push_dec_chars(&mut l1, n as u64);
    push_lit(&mut l1, "¹, ");
    crate::pf::push_dec_chars(&mut l1, n as u64);
    push_lit(&mut l1, "²)");
    proof {
        let d = dec_chars(n as nat);
        lemma_encode_concat("2(2¹, 2²), "@, d);
        lemma_encode_concat("2(2¹, 2²), "@ + d, "("@);
        lemma_encode_concat("2(2¹, 2²), "@ + d + "("@, d);
        lemma_encode_concat("2(2¹, 2²), "@ + d + "("@ + d, "¹, "@);
        lemma_encode_concat("2(2¹, 2²), "@ + d + "("@ + d + "¹, "@, d);
        lemma_encode_concat("2(2¹, 2²), "@ + d + "("@ + d + "¹, "@ + d, "²)"@);
        assert(l1@ =~= encode_utf8(atom_line(n as nat)));
    }
    // the crossings, level by level
    let l2 = cross(n, 1, "¹");
    let l3 = cross(n, 2, "²");
    let g1 = bytes_eq(l1.as_slice(), "2(2¹, 2²), 3(3¹, 3²)".as_bytes());
    let g2 = bytes_eq(l2.as_slice(), "6(2¹ × 3¹)".as_bytes());
    let g3 = bytes_eq(l3.as_slice(), "36(2² × 3²)".as_bytes());
    proof {
        if g1 {
            lemma_encode_injective(atom_line(n as nat), "2(2¹, 2²), 3(3¹, 3²)"@);
        }
        if g2 {
            lemma_encode_injective(cross_line(1, n as nat, "¹"@), "6(2¹ × 3¹)"@);
        }
        if g3 {
            lemma_encode_injective(cross_line(2, n as nat, "²"@), "36(2² × 3²)"@);
        }
    }
    let mut lines: Vec<String> = Vec::new();
    lines.push(string_from(&l0, Ghost(collapse_line(ev))));
    lines.push(string_from(&l1, Ghost(atom_line(n as nat))));
    lines.push(string_from(&l2, Ghost(cross_line(1, n as nat, "¹"@))));
    lines.push(string_from(&l3, Ghost(cross_line(2, n as nat, "²"@))));
    proof {
        assert forall|k: int| 0 <= k < 4 implies (#[trigger] lines@[k])@ == update_lines(ev)[k] by {}
    }
    Some((lines, g1 && g2 && g3))
}

/// The crossing line at level l of the bit (ring 2) and the whole n (ring n).
fn cross(n: usize, l: usize, sup: &str) -> (r: Vec<u8>)
    requires
        n < 0x1_0000,
        1 <= l <= 2,
    ensures
        r@ == encode_utf8(cross_line(l as nat, n as nat, sup@)),
{
    let a = seats(l, 2);
    let b = seats(l, n);
    proof {
        lemma_seats_len(l as nat);
        vstd::arithmetic::power2::lemma2_to64();
        assert(a.len() <= 4);
        assert(b.len() <= 0x1_0000 * 0x1_0000) by {
            lemma_seats_bound(l as nat, n as nat);
        }
        assert(a.len() * b.len() <= 4 * 0x1_0000 * 0x1_0000) by (nonlinear_arith)
            requires a.len() <= 4, b.len() <= 0x1_0000 * 0x1_0000;
    }
    let count = (a.len() as u64) * (b.len() as u64);
    let mut out: Vec<u8> = Vec::new();
    crate::pf::push_dec_chars(&mut out, count);
    push_lit(&mut out, "(2");
    push_lit(&mut out, sup);
    push_lit(&mut out, " × ");
    crate::pf::push_dec_chars(&mut out, n as u64);
    push_lit(&mut out, sup);
    push_lit(&mut out, ")");
    proof {
        let d0 = dec_chars(count as nat);
        let d = dec_chars(n as nat);
        lemma_encode_concat(d0, "(2"@);
        lemma_encode_concat(d0 + "(2"@, sup@);
        lemma_encode_concat(d0 + "(2"@ + sup@, " × "@);
        lemma_encode_concat(d0 + "(2"@ + sup@ + " × "@, d);
        lemma_encode_concat(d0 + "(2"@ + sup@ + " × "@ + d, sup@);
        lemma_encode_concat(d0 + "(2"@ + sup@ + " × "@ + d + sup@, ")"@);
        assert(out@ =~= encode_utf8(cross_line(l as nat, n as nat, sup@)));
    }
    out
}

proof fn lemma_seats_bound(l: nat, n: nat)
    requires
        1 <= l <= 2,
        n < 0x1_0000,
    ensures
        seats_spec(l, n).len() <= 0x1_0000 * 0x1_0000,
{
    lemma_expand_len(seats_spec(0, n), n);
    assert(seats_spec(1, n).len() == n) by {
        assert(seats_spec(0, n).len() == 1);
    }
    if l == 2 {
        lemma_expand_len(seats_spec(1, n), n);
        assert(n * n <= 0x1_0000 * 0x1_0000) by (nonlinear_arith)
            requires n < 0x1_0000;
    }
}


/// The held cells' names, deepest first.
pub open spec fn held_names() -> Seq<u64> {
    seq![4u64, 2u64, 1u64]
}

/// The names of the held cells, deepest first, up to the first h, whose region holds e.
pub open spec fn inside_upto(e: Seq<Seq<usize>>, h: int) -> Seq<u64>
    decreases h,
{
    if h <= 0 {
        seq![]
    } else {
        inside_upto(e, h - 1) + if region_holds(held_s()[h - 1].1, e) { seq![held_names()[h - 1]] } else { seq![] }
    }
}

/// The names of the held cells, deepest first, up to the first h, that e holds and is not.
pub open spec fn holding_upto(e: Seq<Seq<usize>>, h: int) -> Seq<u64>
    decreases h,
{
    if h <= 0 {
        seq![]
    } else {
        holding_upto(e, h - 1) + if region_holds(e, held_s()[h - 1].1) && !same_reg(held_s()[h - 1].1, e) {
            seq![held_names()[h - 1]]
        } else {
            seq![]
        }
    }
}

/// Where an OpusNumber entry stands among the held cells: the names of those whose region holds
/// its own, and of those its region holds and is not — a receipt, not a comparison.
pub fn opus_standing(e: &Vec<Vec<usize>>) -> (r: (Vec<u64>, Vec<u64>))
    ensures
        r.0@ == inside_upto(rview(*e), 3),
        r.1@ == holding_upto(rview(*e), 3),
{
    let shape = seats(2, 2);
    proof {
        lemma_seats_len(2);
        vstd::arithmetic::power2::lemma2_to64();
    }
    let mut held: Vec<Item> = Vec::new();
    held.push(held_item(&shape, 2));
    held.push(held_item(&shape, 1));
    held.push(held_item(&shape, 0));
    let mut names: Vec<u64> = Vec::new();
    names.push(4);
    names.push(2);
    names.push(1);
    proof {
        assert(held@.map_values(|i: Item| iv(i)) =~= held_s());
        assert(names@ =~= held_names());
    }
    let mut inside: Vec<u64> = Vec::new();
    let mut holding: Vec<u64> = Vec::new();
    let mut h: usize = 0;
    while h < 3
        invariant
            h <= 3,
            held.len() == 3,
            held@.map_values(|i: Item| iv(i)) == held_s(),
            names@ == held_names(),
            inside@ == inside_upto(rview(*e), h as int),
            holding@ == holding_upto(rview(*e), h as int),
        decreases 3 - h,
    {
        proof {
            assert(held_s()[h as int] == iv(held@[h as int]));
        }
        if holds(&held[h].region, e) {
            inside.push(names[h]);
        }
        if holds(e, &held[h].region) && !same_region(&held[h].region, e) {
            holding.push(names[h]);
        }
        h += 1;
        proof {
            assert(inside@ =~= inside_upto(rview(*e), h as int));
            assert(holding@ =~= holding_upto(rview(*e), h as int));
        }
    }
    (inside, holding)
}

} // verus!
