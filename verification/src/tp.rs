//! Step 3 of a cycler run seen as a graph: the tuples over what cycle 2 found, deduped into
//! fibers (a tuple's site is the pair reduced by its gcd), neighbours where |ps − qr| is the unit,
//! and hop distances between neighbours.

use vstd::prelude::*;

verus! {

/// The greatest common divisor, by Euclid.
pub open spec fn gcd_spec(a: nat, b: nat) -> nat
    decreases b,
{
    if b == 0 {
        a
    } else {
        gcd_spec(b, a % b)
    }
}

/// The greatest common divisor, by Euclid.
pub fn gcd(a: u64, b: u64) -> (r: u64)
    ensures
        r == gcd_spec(a as nat, b as nat),
    decreases b,
{
    if b == 0 {
        a
    } else {
        gcd(b, a % b)
    }
}

proof fn lemma_gcd_divides(a: nat, b: nat)
    ensures
        (a > 0 || b > 0) ==> gcd_spec(a, b) > 0,
        gcd_spec(a, b) > 0 ==> a % gcd_spec(a, b) == 0 && b % gcd_spec(a, b) == 0,
    decreases b,
{
    if b == 0 {
        if a > 0 {
            vstd::arithmetic::div_mod::lemma_mod_self_0(a as int);
            vstd::arithmetic::div_mod::lemma_small_mod(0, a);
        }
    } else {
        lemma_gcd_divides(b, a % b);
        let g = gcd_spec(b, a % b);
        if g > 0 {
            vstd::arithmetic::div_mod::lemma_fundamental_div_mod(a as int, b as int);
            vstd::arithmetic::div_mod::lemma_fundamental_div_mod(b as int, g as int);
            vstd::arithmetic::div_mod::lemma_fundamental_div_mod((a % b) as int, g as int);
            let q = a / b;
            let q2 = (b / g) * q + (a % b) / g;
            assert(a == q2 * g) by (nonlinear_arith)
                requires
                    a == b * q + a % b,
                    b == g * (b / g) + b % g,
                    a % b == g * ((a % b) / g) + (a % b) % g,
                    b % g == 0,
                    (a % b) % g == 0,
                    q2 == (b / g) * q + (a % b) / g,
            ;
            vstd::arithmetic::div_mod::lemma_mod_multiples_basic(q2 as int, g as int);
        }
    }
}

/// The site of a tuple: a/a is the whole (a, 1); any other is reduced by its gcd.
pub open spec fn site(a: u64, b: u64) -> (u64, u64) {
    if a == b {
        (a, 1)
    } else {
        let g = gcd_spec(a as nat, b as nat);
        ((a as nat / g) as u64, (b as nat / g) as u64)
    }
}

fn site_of(a: u64, b: u64) -> (r: (u64, u64))
    requires
        a > 0 || b > 0,
    ensures
        r == site(a, b),
{
    if a == b {
        (a, 1)
    } else {
        let g = gcd(a, b);
        proof {
            lemma_gcd_divides(a as nat, b as nat);
        }
        (a / g, b / g)
    }
}

/// Every tuple over the found, row by row: (a, b) for a, then b, over `found`.
pub open spec fn tuples(found: Seq<u64>) -> Seq<(u64, u64)> {
    Seq::new(found.len() * found.len(), |k: int| (found[k / (found.len() as int)], found[k % (found.len() as int)]))
}

/// Pairs ordered as their first, then their second.
pub open spec fn pair_lt(x: (u64, u64), y: (u64, u64)) -> bool {
    x.0 < y.0 || (x.0 == y.0 && x.1 < y.1)
}

/// The tuples among the first n whose site is s, in order.
pub open spec fn fiber_upto(ts: Seq<(u64, u64)>, s: (u64, u64), n: int) -> Seq<(u64, u64)>
    decreases n,
{
    if n <= 0 {
        seq![]
    } else {
        fiber_upto(ts, s, n - 1) + if site(ts[n - 1].0, ts[n - 1].1) == s { seq![ts[n - 1]] } else { seq![] }
    }
}

/// The nodes' sites.
pub open spec fn node_sites(nodes: Seq<(u64, u64, Seq<(u64, u64)>)>) -> Seq<(u64, u64)> {
    nodes.map_values(|n: (u64, u64, Seq<(u64, u64)>)| (n.0, n.1))
}

/// One node per site: the sites in increasing order, each with exactly its tuples, in order.
pub open spec fn fibers_ok(found: Seq<u64>, nodes: Seq<(u64, u64, Seq<(u64, u64)>)>) -> bool {
    let ts = tuples(found);
    &&& forall|i: int, j: int| 0 <= i < j < nodes.len() ==> pair_lt(
        (#[trigger] nodes[i].0, nodes[i].1),
        (#[trigger] nodes[j].0, nodes[j].1),
    )
    &&& forall|k: int| 0 <= k < ts.len() ==> node_sites(nodes).contains(site(#[trigger] ts[k].0, ts[k].1))
    &&& forall|i: int| 0 <= i < nodes.len() ==> (#[trigger] nodes[i]).2 == fiber_upto(ts, (nodes[i].0, nodes[i].1), ts.len() as int)
        && nodes[i].2.len() > 0
}


/// Every found value is a name: at least one.
pub open spec fn found_ok(found: Seq<u64>) -> bool {
    &&& found.len() < 0x1_0000
    &&& forall|i: int| 0 <= i < found.len() ==> #[trigger] found[i] >= 1
}

fn tuple_at(found: &[u64], k: usize) -> (r: (u64, u64))
    requires
        found_ok(found@),
        k < found.len() * found.len(),
    ensures
        r == tuples(found@)[k as int],
{
    let n = found.len();
    proof {
        assert(n > 0) by (nonlinear_arith)
            requires k < n * n;
        vstd::arithmetic::div_mod::lemma_fundamental_div_mod(k as int, n as int);
        assert(k / n < n) by (nonlinear_arith)
            requires k < n * n, n > 0, k as int == n * (k / n) + k % n, 0 <= k % n;
    }
    (found[k / n], found[k % n])
}

proof fn lemma_tuple_positive(found: Seq<u64>, k: int)
    requires
        found_ok(found),
        0 <= k < tuples(found).len(),
    ensures
        tuples(found)[k].0 >= 1,
{
    let n = found.len() as int;
    assert(tuples(found).len() == n * n);
    assert(n > 0) by (nonlinear_arith)
        requires 0 <= k < n * n, n >= 0;
    vstd::arithmetic::div_mod::lemma_fundamental_div_mod(k, n);
    assert(k / n < n) by (nonlinear_arith)
        requires k < n * n, n > 0, k == n * (k / n) + k % n, 0 <= k % n;
    vstd::arithmetic::div_mod::lemma_div_pos_is_pos(k, n);
}

/// Insert a site into a strictly increasing list, unless it is there.
fn insert_site(keys: &mut Vec<(u64, u64)>, x: (u64, u64))
    requires
        forall|i: int, j: int| 0 <= i < j < old(keys).len() ==> pair_lt(#[trigger] old(keys)@[i], #[trigger] old(keys)@[j]),
    ensures
        forall|i: int, j: int| 0 <= i < j < final(keys).len() ==> pair_lt(#[trigger] final(keys)@[i], #[trigger] final(keys)@[j]),
        forall|y: (u64, u64)| #[trigger] final(keys)@.contains(y) <==> (old(keys)@.contains(y) || y == x),
{
    let mut p: usize = 0;
    while p < keys.len() && pair_lt_exec(keys[p], x)
        invariant
            p <= keys.len(),
            forall|i: int| 0 <= i < p ==> pair_lt(#[trigger] keys@[i], x),
        decreases keys.len() - p,
    {
        p += 1;
    }
    if p < keys.len() && keys[p].0 == x.0 && keys[p].1 == x.1 {
        proof {
            assert(keys@[p as int] == x);
            assert(keys@.contains(x));
        }
        return;
    }
    let ghost o = keys@;
    keys.insert(p, x);
    proof {
        assert forall|y: (u64, u64)| #[trigger] keys@.contains(y) <==> (o.contains(y) || y == x) by {
            if keys@.contains(y) {
                let w = choose|w: int| 0 <= w < keys@.len() && keys@[w] == y;
                if w < p {
                    assert(o[w] == y);
                } else if w > p {
                    assert(o[w - 1] == y);
                }
            }
            if o.contains(y) {
                let w = choose|w: int| 0 <= w < o.len() && o[w] == y;
                if w < p {
                    assert(keys@[w] == y);
                } else {
                    assert(keys@[w + 1] == y);
                }
            }
            if y == x {
                assert(keys@[p as int] == x);
            }
        }
        assert forall|i: int, j: int| 0 <= i < j < keys.len() implies pair_lt(#[trigger] keys@[i], #[trigger] keys@[j]) by {
            if p < o.len() {
                assert(!pair_lt(o[p as int], x));
                assert(o[p as int] != x);
            }
            if j < p {
                assert(keys@[i] == o[i] && keys@[j] == o[j]);
            } else if j == p {
                assert(keys@[i] == o[i]);
            } else if i == p {
                assert(keys@[j] == o[j - 1]);
                if j - 1 > p {
                    assert(pair_lt(o[p as int], o[j - 1]));
                }
            } else if i < p {
                assert(keys@[i] == o[i] && keys@[j] == o[j - 1]);
                assert(pair_lt(o[i], x));
                if p < o.len() {
                    assert(pair_lt(o[i], o[p as int]) || i == p);
                }
            } else {
                assert(keys@[i] == o[i - 1] && keys@[j] == o[j - 1]);
            }
        }
    }
}

fn pair_lt_exec(x: (u64, u64), y: (u64, u64)) -> (r: bool)
    ensures
        r == pair_lt(x, y),
{
    x.0 < y.0 || (x.0 == y.0 && x.1 < y.1)
}

/// The tuples over the found, deduped into fibers: one node per site, sites in increasing
/// order, each with its own tuples in order.
pub fn tp_fibers(found: &[u64]) -> (nodes: Vec<(u64, u64, Vec<(u64, u64)>)>)
    requires
        found_ok(found@),
    ensures
        fibers_ok(found@, nodes@.map_values(|n: (u64, u64, Vec<(u64, u64)>)| (n.0, n.1, n.2@))),
{
    let n = found.len();
    proof {
        assert(n * n < 0x1_0000 * 0x1_0000) by (nonlinear_arith)
            requires n < 0x1_0000;
    }
    let total = n * n;
    let ghost ts = tuples(found@);
    let mut keys: Vec<(u64, u64)> = Vec::new();
    let mut k: usize = 0;
    while k < total
        invariant
            k <= total,
            total == n * n,
            n == found.len(),
            found_ok(found@),
            ts == tuples(found@),
            forall|i: int, j: int| 0 <= i < j < keys.len() ==> pair_lt(#[trigger] keys@[i], #[trigger] keys@[j]),
            forall|y: (u64, u64)| keys@.contains(y) <==> exists|kk: int| 0 <= kk < k && #[trigger] site(ts[kk].0, ts[kk].1) == y,
        decreases total - k,
    {
        let t = tuple_at(found, k);
        proof {
            lemma_tuple_positive(found@, k as int);
        }
        let s = site_of(t.0, t.1);
        let ghost o = keys@;
        insert_site(&mut keys, s);
        proof {
            assert forall|y: (u64, u64)| keys@.contains(y) <==> exists|kk: int| 0 <= kk < k + 1 && #[trigger] site(ts[kk].0, ts[kk].1) == y by {
                if y == s {
                    assert(site(ts[k as int].0, ts[k as int].1) == y);
                }
                if exists|kk: int| 0 <= kk < k + 1 && #[trigger] site(ts[kk].0, ts[kk].1) == y {
                    let kk = choose|kk: int| 0 <= kk < k + 1 && #[trigger] site(ts[kk].0, ts[kk].1) == y;
                    if kk < k {
                        assert(o.contains(y));
                    }
                }
            }
        }
        k += 1;
    }
    let mut nodes: Vec<(u64, u64, Vec<(u64, u64)>)> = Vec::new();
    let mut i: usize = 0;
    while i < keys.len()
        invariant
            i <= keys.len(),
            total == n * n,
            n == found.len(),
            found_ok(found@),
            ts == tuples(found@),
            ts.len() == total,
            forall|a: int, b: int| 0 <= a < b < keys.len() ==> pair_lt(#[trigger] keys@[a], #[trigger] keys@[b]),
            forall|y: (u64, u64)| keys@.contains(y) <==> exists|kk: int| 0 <= kk < total && #[trigger] site(ts[kk].0, ts[kk].1) == y,
            nodes.len() == i,
            forall|a: int| 0 <= a < i ==> (#[trigger] nodes@[a]).0 == keys@[a].0 && nodes@[a].1 == keys@[a].1 && nodes@[a].2@
                == fiber_upto(ts, keys@[a], total as int) && nodes@[a].2.len() > 0,
        decreases keys.len() - i,
    {
        let key = keys[i];
        let mut tv: Vec<(u64, u64)> = Vec::new();
        let mut k: usize = 0;
        let ghost mut seen = false;
        while k < total
            invariant
                k <= total,
                total == n * n,
                n == found.len(),
                found_ok(found@),
                ts == tuples(found@),
                tv@ == fiber_upto(ts, key, k as int),
                tv.len() > 0 <==> exists|kk: int| 0 <= kk < k && #[trigger] site(ts[kk].0, ts[kk].1) == key,
            decreases total - k,
        {
            let t = tuple_at(found, k);
            proof {
                lemma_tuple_positive(found@, k as int);
            }
            let s = site_of(t.0, t.1);
            if s.0 == key.0 && s.1 == key.1 {
                tv.push(t);
            }
            proof {
                assert(tv@ =~= fiber_upto(ts, key, k + 1));
                if tv.len() > 0 && !(s.0 == key.0 && s.1 == key.1) {
                    let kk = choose|kk: int| 0 <= kk < k && #[trigger] site(ts[kk].0, ts[kk].1) == key;
                    assert(0 <= kk < k + 1);
                }
                if s.0 == key.0 && s.1 == key.1 {
                    assert(site(ts[k as int].0, ts[k as int].1) == key);
                }
            }
            k += 1;
        }
        proof {
            assert(keys@.contains(key));
        }
        nodes.push((key.0, key.1, tv));
        i += 1;
    }
    proof {
        let nv = nodes@.map_values(|n: (u64, u64, Vec<(u64, u64)>)| (n.0, n.1, n.2@));
        assert forall|a: int, b: int| 0 <= a < b < nv.len() implies pair_lt((#[trigger] nv[a].0, nv[a].1), (#[trigger] nv[b].0, nv[b].1)) by {
            assert(keys@[a] == (nv[a].0, nv[a].1));
            assert(keys@[b] == (nv[b].0, nv[b].1));
        }
        assert forall|kk: int| 0 <= kk < ts.len() implies node_sites(nv).contains(site(#[trigger] ts[kk].0, ts[kk].1)) by {
            let y = site(ts[kk].0, ts[kk].1);
            assert(keys@.contains(y));
            let a = choose|a: int| 0 <= a < keys@.len() && keys@[a] == y;
            assert(node_sites(nv)[a] == y);
        }
        assert forall|a: int| 0 <= a < nv.len() implies (#[trigger] nv[a]).2 == fiber_upto(ts, (nv[a].0, nv[a].1), ts.len() as int) && nv[a].2.len() > 0 by {
            assert(nodes@[a].2@ == fiber_upto(ts, keys@[a], total as int));
        }
        assert(fibers_ok(found@, nv));
    }
    nodes
}


/// Two fibers p/q and r/s are neighbours: |ps − qr| is the unit.
pub open spec fn unit_apart(x: (u64, u64), y: (u64, u64)) -> bool {
    x.0 * y.1 - x.1 * y.0 == 1 || x.1 * y.0 - x.0 * y.1 == 1
}

/// Index pairs ordered as their first, then their second.
pub open spec fn idx_lt(x: (usize, usize), y: (usize, usize)) -> bool {
    x.0 < y.0 || (x.0 == y.0 && x.1 < y.1)
}

/// The cross products of every two nodes fit a word.
pub open spec fn crosses_fit(nodes: Seq<(u64, u64)>) -> bool {
    forall|i: int, j: int| 0 <= i < nodes.len() && 0 <= j < nodes.len() ==> #[trigger] nodes[i].0 * #[trigger] nodes[j].1 <= u64::MAX
}

/// The neighbour pairs (i, j), i < j, of the nodes, in order.
pub fn tp_neighbours(nodes: &[(u64, u64)]) -> (e: Vec<(usize, usize)>)
    requires
        crosses_fit(nodes@),
    ensures
        forall|a: int, b: int| 0 <= a < b < e.len() ==> idx_lt(#[trigger] e@[a], #[trigger] e@[b]),
        forall|i: usize, j: usize| #[trigger] e@.contains((i, j)) <==> i < j < nodes.len() && unit_apart(nodes@[i as int], nodes@[j as int]),
{
    let n = nodes.len();
    let mut e: Vec<(usize, usize)> = Vec::new();
    let mut i: usize = 0;
    while i < n
        invariant
            i <= n,
            n == nodes.len(),
            crosses_fit(nodes@),
            forall|a: int, b: int| 0 <= a < b < e.len() ==> idx_lt(#[trigger] e@[a], #[trigger] e@[b]),
            forall|a: int| 0 <= a < e.len() ==> (#[trigger] e@[a]).0 < i,
            forall|x: usize, y: usize| #[trigger] e@.contains((x, y)) <==> x < i && x < y < n && unit_apart(nodes@[x as int], nodes@[y as int]),
        decreases n - i,
    {
        let mut j: usize = i + 1;
        let ghost e0 = e@;
        while j < n
            invariant
                i < n,
                i + 1 <= j <= n,
                n == nodes.len(),
                crosses_fit(nodes@),
                forall|a: int, b: int| 0 <= a < b < e.len() ==> idx_lt(#[trigger] e@[a], #[trigger] e@[b]),
                forall|a: int| 0 <= a < e.len() ==> (#[trigger] e@[a]).0 < i || (e@[a].0 == i && e@[a].1 < j),
                forall|x: usize, y: usize| #[trigger] e@.contains((x, y)) <==> (x < i && x < y < n && unit_apart(nodes@[x as int], nodes@[y as int])) || (
                    x == i && i < y < j && unit_apart(nodes@[x as int], nodes@[y as int])),
            decreases n - j,
        {
            let a = nodes[i];
            let b = nodes[j];
            proof {
                assert(nodes@[i as int].0 * nodes@[j as int].1 <= u64::MAX);
                assert(nodes@[j as int].0 * nodes@[i as int].1 <= u64::MAX);
            }
            let ps = a.0 * b.1;
            let qr = a.1 * b.0;
            let d = if ps >= qr { ps - qr } else { qr - ps };
            let ghost o = e@;
            if d == 1 {
                e.push((i, j));
            }
            proof {
                assert(unit_apart(nodes@[i as int], nodes@[j as int]) <==> d == 1) by (nonlinear_arith)
                    requires
                        ps == a.0 * b.1,
                        qr == a.1 * b.0,
                        d == if ps >= qr { ps - qr } else { qr - ps },
                        a == nodes@[i as int],
                        b == nodes@[j as int];
                assert forall|x: usize, y: usize| #[trigger] e@.contains((x, y)) <==> (x < i && x < y < n && unit_apart(nodes@[x as int], nodes@[y as int])) || (
                    x == i && i < y < j + 1 && unit_apart(nodes@[x as int], nodes@[y as int])) by {
                    if e@.contains((x, y)) && d == 1 && (x, y) != (i, j) {
                        let w = choose|w: int| 0 <= w < e@.len() && e@[w] == (x, y);
                        assert(w < o.len());
                        assert(o[w] == (x, y));
                    }
                    if o.contains((x, y)) {
                        let w = choose|w: int| 0 <= w < o.len() && o[w] == (x, y);
                        assert(e@[w] == (x, y));
                    }
                    if d == 1 && (x, y) == (i, j) {
                        assert(e@[e@.len() - 1] == (x, y));
                    }
                }
            }
            j += 1;
        }
        i += 1;
    }
    e
}


// ── hops ────────────────────────────────────────────────────────────────────

/// An edge joins u and v, either way round.
pub open spec fn edge_joins(e: (usize, usize), u: int, v: int) -> bool {
    (e.0 == u && e.1 == v) || (e.0 == v && e.1 == u)
}

/// u and v are neighbours.
pub open spec fn adjacent(edges: Seq<(usize, usize)>, u: int, v: int) -> bool {
    exists|k: int| 0 <= k < edges.len() && edge_joins(#[trigger] edges[k], u, v)
}

/// One hop more: what `p` holds, and every neighbour of it.
pub open spec fn one_more(edges: Seq<(usize, usize)>, p: spec_fn(int) -> bool) -> spec_fn(int) -> bool {
    |v: int| p(v) || exists|u: int| #[trigger] p(u) && adjacent(edges, u, v)
}

/// The vertices within k hops of a source.
pub open spec fn within_fn(edges: Seq<(usize, usize)>, src: Seq<usize>, k: int) -> spec_fn(int) -> bool
    decreases k,
{
    if k <= 0 {
        |v: int| exists|s: int| 0 <= s < src.len() && src[s] == v
    } else {
        one_more(edges, within_fn(edges, src, k - 1))
    }
}

/// v is within k hops of a source.
pub open spec fn within(edges: Seq<(usize, usize)>, src: Seq<usize>, v: int, k: int) -> bool {
    within_fn(edges, src, k)(v)
}

/// v is exactly k hops from the sources.
pub open spec fn at_hops(edges: Seq<(usize, usize)>, src: Seq<usize>, v: int, k: int) -> bool {
    within(edges, src, v, k) && (k == 0 || !within(edges, src, v, k - 1))
}

proof fn lemma_within_step(edges: Seq<(usize, usize)>, src: Seq<usize>, u: int, w: int, k: int)
    requires
        0 <= k,
        within(edges, src, u, k),
        adjacent(edges, u, w),
    ensures
        within(edges, src, w, k + 1),
{
    let p = within_fn(edges, src, k);
    assert(within_fn(edges, src, k + 1) == one_more(edges, p));
    assert(p(u) && adjacent(edges, u, w));
}

proof fn lemma_within_unfold(edges: Seq<(usize, usize)>, src: Seq<usize>, w: int, k: int)
    requires
        0 <= k,
        within(edges, src, w, k + 1),
    ensures
        within(edges, src, w, k) || exists|u: int| #[trigger] within(edges, src, u, k) && adjacent(edges, u, w),
{
    let p = within_fn(edges, src, k);
    assert(within_fn(edges, src, k + 1) == one_more(edges, p));
    if !p(w) {
        let u = choose|u: int| #[trigger] p(u) && adjacent(edges, u, w);
        assert(within(edges, src, u, k));
    }
}

proof fn lemma_within_mono(edges: Seq<(usize, usize)>, src: Seq<usize>, v: int, j: int, m: int)
    requires
        0 <= j <= m,
        within(edges, src, v, j),
    ensures
        within(edges, src, v, m),
    decreases m - j,
{
    if j < m {
        lemma_within_mono(edges, src, v, j, m - 1);
    }
}

/// The hop distances from the sources, by layers: `Some(k)` for a vertex exactly k hops away,
/// `None` for one not within as many hops as there are vertices. Every edge's ends and every
/// source are vertices.
pub fn hops(n: usize, edges: &Vec<(usize, usize)>, src: &Vec<usize>) -> (d: Vec<Option<u32>>)
    requires
        n <= u32::MAX,
        forall|k: int| 0 <= k < edges.len() ==> (#[trigger] edges@[k]).0 < n && edges@[k].1 < n,
        forall|s: int| 0 <= s < src.len() ==> #[trigger] src@[s] < n,
    ensures
        d.len() == n,
        forall|v: int| 0 <= v < n ==> (#[trigger] d@[v] matches Some(k) ==> at_hops(edges@, src@, v, k as int)),
        forall|v: int| 0 <= v < n ==> (#[trigger] d@[v] is None <==> !within(edges@, src@, v, n as int)),
{
    let mut d: Vec<Option<u32>> = Vec::new();
    let mut v: usize = 0;
    while v < n
        invariant
            v <= n,
            d.len() == v,
            forall|w: int| 0 <= w < v ==> d@[w] is None,
        decreases n - v,
    {
        d.push(None);
        v += 1;
    }
    let mut frontier: Vec<usize> = Vec::new();
    let mut s: usize = 0;
    while s < src.len()
        invariant
            s <= src.len(),
            d.len() == n,
            forall|x: int| 0 <= x < src.len() ==> #[trigger] src@[x] < n,
            forall|w: int| 0 <= w < n ==> (#[trigger] d@[w] matches Some(j) ==> j == 0 && exists|x: int| 0 <= x < s && src@[x] == w),
            forall|w: int| 0 <= w < n ==> (d@[w] is None ==> !exists|x: int| 0 <= x < s && #[trigger] src@[x] == w),
            forall|f: int| 0 <= f < frontier.len() ==> #[trigger] frontier@[f] < n && d@[frontier@[f] as int] == Some(0u32),
            forall|w: int| 0 <= w < n ==> (#[trigger] d@[w] == Some(0u32) ==> frontier@.contains(w as usize)),
        decreases src.len() - s,
    {
        let x = src[s];
        let was = d[x].is_none();
        let ghost f0 = frontier@;
        if was {
            d.set(x, Some(0));
            frontier.push(x);
        }
        proof {
            assert forall|w: usize| f0.contains(w) implies frontier@.contains(w) by {
                let i = choose|i: int| 0 <= i < f0.len() && f0[i] == w;
                assert(frontier@[i] == w);
            }
            assert forall|w: int| 0 <= w < n implies (#[trigger] d@[w] matches Some(j) ==> j == 0 && exists|y: int| 0 <= y < s + 1 && src@[y] == w) by {
                if d@[w] is Some && w == x {
                    assert(src@[s as int] == w);
                }
            }
            assert forall|w: int| 0 <= w < n implies (#[trigger] d@[w] == Some(0u32) ==> frontier@.contains(w as usize)) by {
                if d@[w] == Some(0u32) && w == x && was {
                    assert(frontier@[frontier.len() - 1] == x);
                }
                if d@[w] == Some(0u32) && !(w == x && was) {
                    assert(f0.contains(w as usize));
                }
            }
        }
        s += 1;
    }
    proof {
        assert forall|w: int| 0 <= w < n implies (#[trigger] d@[w] matches Some(k) ==> at_hops(edges@, src@, w, k as int)) by {
            if d@[w] is Some {
                assert(within(edges@, src@, w, 0));
            }
        }
        assert forall|w: int| 0 <= w < n implies (#[trigger] d@[w] is None <==> !within(edges@, src@, w, 0)) by {}
    }
    let mut k: usize = 0;
    while k < n
        invariant
            k <= n,
            n <= u32::MAX,
            d.len() == n,
            forall|x: int| 0 <= x < edges.len() ==> (#[trigger] edges@[x]).0 < n && edges@[x].1 < n,
            forall|w: int| 0 <= w < n ==> (#[trigger] d@[w] matches Some(j) ==> j <= k && at_hops(edges@, src@, w, j as int)),
            forall|w: int| 0 <= w < n ==> (#[trigger] d@[w] is None <==> !within(edges@, src@, w, k as int)),
            forall|f: int| 0 <= f < frontier.len() ==> #[trigger] frontier@[f] < n && d@[frontier@[f] as int] == Some(k as u32),
            forall|w: int| 0 <= w < n ==> (#[trigger] d@[w] == Some(k as u32) ==> frontier@.contains(w as usize)),
        decreases n - k,
    {
        let mut next: Vec<usize> = Vec::new();
        let ghost d0 = d@;
        let mut fi: usize = 0;
        while fi < frontier.len()
            invariant
                k < n,
                n <= u32::MAX,
                fi <= frontier.len(),
                d.len() == n,
                forall|x: int| 0 <= x < edges.len() ==> (#[trigger] edges@[x]).0 < n && edges@[x].1 < n,
                forall|f: int| 0 <= f < frontier.len() ==> #[trigger] frontier@[f] < n && d0[frontier@[f] as int] == Some(k as u32),
                forall|w: int| 0 <= w < n ==> (#[trigger] d0[w] == Some(k as u32) ==> frontier@.contains(w as usize)),
                forall|w: int| 0 <= w < n ==> (#[trigger] d0[w] matches Some(j) ==> j <= k && at_hops(edges@, src@, w, j as int)),
                forall|w: int| 0 <= w < n ==> (#[trigger] d0[w] is None <==> !within(edges@, src@, w, k as int)),
                forall|w: int| 0 <= w < n ==> (#[trigger] d@[w] matches Some(j) ==> d0[w] == Some(j) || (j == k + 1 && d0[w] is None && exists|f: int| 0 <= f < fi && adjacent(edges@, #[trigger] frontier@[f] as int, w))),
                forall|w: int| 0 <= w < n ==> (#[trigger] d@[w] is None ==> d0[w] is None && !exists|f: int| 0 <= f < fi && adjacent(edges@, #[trigger] frontier@[f] as int, w)),
                forall|x: int| 0 <= x < next.len() ==> #[trigger] next@[x] < n && d@[next@[x] as int] == Some((k + 1) as u32),
                forall|w: int| 0 <= w < n ==> (#[trigger] d@[w] == Some((k + 1) as u32) ==> next@.contains(w as usize)),
            decreases frontier.len() - fi,
        {
            let u = frontier[fi];
            let mut ei: usize = 0;
            while ei < edges.len()
                invariant
                    k < n,
                    n <= u32::MAX,
                    fi < frontier.len(),
                    u == frontier@[fi as int],
                    u < n,
                    d.len() == n,
                    forall|x: int| 0 <= x < edges.len() ==> (#[trigger] edges@[x]).0 < n && edges@[x].1 < n,
                    forall|w: int| 0 <= w < n ==> (#[trigger] d0[w] == Some(k as u32) ==> frontier@.contains(w as usize)),
                    forall|w: int| 0 <= w < n ==> (#[trigger] d@[w] matches Some(j) ==> d0[w] == Some(j) || (j == k + 1 && d0[w] is None && exists|f: int| 0 <= f <= fi && adjacent(edges@, #[trigger] frontier@[f] as int, w))),
                    forall|w: int| 0 <= w < n ==> (#[trigger] d@[w] is None ==> d0[w] is None && !exists|f: int| 0 <= f < fi && adjacent(edges@, #[trigger] frontier@[f] as int, w)),
                    forall|w: int| 0 <= w < n ==> (#[trigger] d@[w] is None ==> !exists|x: int| 0 <= x < ei && edge_joins(#[trigger] edges@[x], u as int, w)),
                    forall|x: int| 0 <= x < next.len() ==> #[trigger] next@[x] < n && d@[next@[x] as int] == Some((k + 1) as u32),
                    forall|w: int| 0 <= w < n ==> (#[trigger] d@[w] == Some((k + 1) as u32) ==> next@.contains(w as usize)),
                decreases edges.len() - ei,
            {
                let (a, b) = edges[ei];
                let other: Option<usize> = if a == u { Some(b) } else if b == u { Some(a) } else { None };
                let ghost n0 = next@;
                let mut pushed = false;
                if let Some(w) = other {
                    if d[w].is_none() {
                        pushed = true;
                        d.set(w, Some((k + 1) as u32));
                        next.push(w);
                        proof {
                            assert(edge_joins(edges@[ei as int], u as int, w as int));
                            assert(adjacent(edges@, frontier@[fi as int] as int, w as int));
                        }
                    }
                }
                proof {
                    assert forall|w: int| 0 <= w < n implies (#[trigger] d@[w] is None ==> !exists|x: int| 0 <= x < ei + 1 && edge_joins(#[trigger] edges@[x], u as int, w)) by {
                        if d@[w] is None && edge_joins(edges@[ei as int], u as int, w) {
                            assert(other == Some(w as usize));
                        }
                    }
                    assert forall|w: usize| n0.contains(w) implies next@.contains(w) by {
                        let i = choose|i: int| 0 <= i < n0.len() && n0[i] == w;
                        assert(next@[i] == w);
                    }
                    assert forall|w: int| 0 <= w < n implies (#[trigger] d@[w] == Some((k + 1) as u32) ==> next@.contains(w as usize)) by {
                        if d@[w] == Some((k + 1) as u32) && pushed && other == Some(w as usize) {
                            assert(next@[next.len() - 1] == w as usize);
                        }
                        if d@[w] == Some((k + 1) as u32) && !(pushed && other == Some(w as usize)) {
                            assert(n0.contains(w as usize));
                        }
                    }
                }
                ei += 1;
            }
            proof {
                assert forall|w: int| 0 <= w < n implies (#[trigger] d@[w] is None ==> d0[w] is None && !exists|f: int| 0 <= f < fi + 1 && adjacent(edges@, #[trigger] frontier@[f] as int, w)) by {
                    if d@[w] is None {
                        if adjacent(edges@, frontier@[fi as int] as int, w) {
                            let x = choose|x: int| 0 <= x < edges.len() && edge_joins(#[trigger] edges@[x], frontier@[fi as int] as int, w);
                            assert(edge_joins(edges@[x], u as int, w));
                        }
                    }
                }
            }
            fi += 1;
        }
        proof {
            let kk = k as int;
            assert forall|w: int| 0 <= w < n implies (#[trigger] d@[w] matches Some(j) ==> j <= k + 1 && at_hops(edges@, src@, w, j as int)) by {
                if d@[w] is Some && d0[w] is None {
                    let f = choose|f: int| 0 <= f < frontier.len() && adjacent(edges@, #[trigger] frontier@[f] as int, w);
                    let u = frontier@[f] as int;
                    assert(within(edges@, src@, u, kk));
                    lemma_within_step(edges@, src@, u, w, kk);
                }
            }
            assert forall|w: int| 0 <= w < n implies (#[trigger] d@[w] is None <==> !within(edges@, src@, w, (k + 1) as int)) by {
                if d@[w] is None {
                    if within(edges@, src@, w, kk + 1) {
                        assert(!within(edges@, src@, w, kk));
                        lemma_within_unfold(edges@, src@, w, kk);
                        let u = choose|u: int| #[trigger] within(edges@, src@, u, kk) && adjacent(edges@, u, w);
                        let x = choose|x: int| 0 <= x < edges.len() && edge_joins(#[trigger] edges@[x], u, w);
                        assert(0 <= u < n) by {
                            assert(edges@[x].0 < n && edges@[x].1 < n);
                        }
                        if kk > 0 && within(edges@, src@, u, kk - 1) {
                            lemma_within_step(edges@, src@, u, w, kk - 1);
                            assert(within(edges@, src@, w, kk));
                        }
                        assert(d0[u] is Some);
                        let j = d0[u]->0;
                        if (j as int) < kk {
                            lemma_within_mono(edges@, src@, u, j as int, kk - 1);
                        }
                        assert(d0[u] == Some(k as u32));
                        assert(frontier@.contains(u as usize));
                        let f = choose|f: int| 0 <= f < frontier.len() && frontier@[f] == u as usize;
                        assert(adjacent(edges@, frontier@[f] as int, w));
                    }
                } else {
                    let j = d@[w]->0;
                    lemma_within_mono(edges@, src@, w, j as int, kk + 1);
                }
            }
        }
        frontier = next;
        k += 1;
    }
    d
}


// ── what cycle 2 found ──────────────────────────────────────────────────────

/// The charts from word i on, as (first word, factor count): a chart is a count n and n
/// (atom offset, beads) pairs. `None` where a chart runs past the end.
pub open spec fn chart_walk(charts: Seq<u32>, i: int) -> Option<Seq<(int, int)>>
    decreases charts.len() - i,
{
    if i < 0 || i >= charts.len() {
        Some(seq![])
    } else {
        let n = charts[i] as int;
        if i + 1 + 2 * n > charts.len() {
            None
        } else {
            match chart_walk(charts, i + 1 + 2 * n) {
                Some(rest) => Some(seq![(i, n)] + rest),
                None => None,
            }
        }
    }
}

/// The name of the first j factors of the chart at word `start`, multiplied out: each atom's
/// name to its beads. `None` where an atom is not named or a power or product passes a word.
pub open spec fn chart_value(atoms: Seq<u32>, charts: Seq<u32>, start: int, j: int) -> Option<u64>
    decreases j,
{
    if j <= 0 {
        Some(1)
    } else {
        match (chart_value(atoms, charts, start, j - 1), crate::pf::name_at(atoms, charts[start + 1 + 2 * (j - 1)])) {
            (Some(p), Some(a)) => {
                let x = vstd::arithmetic::power::pow(a as int, charts[start + 2 + 2 * (j - 1)] as nat);
                if x <= u64::MAX && p * x <= u64::MAX {
                    Some((p * x) as u64)
                } else {
                    None
                }
            },
            _ => None,
        }
    }
}

/// The first chart, from position c of the walk, that is the square of the atom at `o1`.
pub open spec fn square_of(charts: Seq<u32>, walk: Seq<(int, int)>, o1: u32, c: int) -> Option<(int, int)>
    decreases walk.len() - c,
{
    if c < 0 || c >= walk.len() {
        None
    } else if walk[c].1 == 1 && charts[walk[c].0 + 1] == o1 && charts[walk[c].0 + 2] == 2 {
        Some(walk[c])
    } else {
        square_of(charts, walk, o1, c + 1)
    }
}

/// The chart standing at byte offset `off` (its first word times four), if any.
pub open spec fn chart_at(walk: Seq<(int, int)>, off: u32, c: int) -> Option<(int, int)>
    decreases walk.len() - c,
{
    if c < 0 || c >= walk.len() {
        None
    } else if walk[c].0 * 4 == off {
        Some(walk[c])
    } else {
        chart_at(walk, off, c + 1)
    }
}

/// The names glued into the reference: for each glue triple (chart, target, _) whose target is
/// the reference's offset, the chart's name, in order; `None` where one is not a chart or has no
/// name.
pub open spec fn glued(atoms: Seq<u32>, charts: Seq<u32>, walk: Seq<(int, int)>, glue: Seq<u32>, r: u32, g: int) -> Option<Seq<u64>>
    decreases g,
{
    if g <= 0 {
        Some(seq![])
    } else {
        match glued(atoms, charts, walk, glue, r, g - 1) {
            None => None,
            Some(prev) => {
                if glue[3 * (g - 1) + 1] != r {
                    Some(prev)
                } else {
                    match chart_at(walk, glue[3 * (g - 1)], 0) {
                        None => None,
                        Some(ch) => match chart_value(atoms, charts, ch.0, ch.1) {
                            None => None,
                            Some(v) => Some(prev.push(v)),
                        },
                    }
                }
            },
        }
    }
}

/// The names of the atoms, among the first a records, that arrived from the reference.
pub open spec fn arrived(atoms: Seq<u32>, r: u32, a: int) -> Seq<u64>
    decreases a,
{
    if a <= 0 {
        seq![]
    } else {
        arrived(atoms, r, a - 1) + if atoms[2 * (a - 1)] == r { seq![(atoms[2 * (a - 1) + 1] + 1) as u64] } else { seq![] }
    }
}

/// What cycle 2 found, before sorting: the floor, the reference (the square of the seam's
/// second entry), every chart glued into it, and every atom that arrived from it.
pub open spec fn found_raw(atoms: Seq<u32>, charts: Seq<u32>, glue: Seq<u32>, seam: Seq<u32>) -> Option<Seq<u64>> {
    if seam.len() < 2 {
        None
    } else {
        match chart_walk(charts, 0) {
            None => None,
            Some(walk) => match square_of(charts, walk, seam[1], 0) {
                None => None,
                Some(rf) => match chart_value(atoms, charts, rf.0, rf.1) {
                    None => None,
                    Some(v) => match glued(atoms, charts, walk, glue, (rf.0 * 4) as u32, (glue.len() / 3) as int) {
                        None => None,
                        Some(gs) => Some(seq![1u64, v] + gs + arrived(atoms, (rf.0 * 4) as u32, (atoms.len() / 2) as int)),
                    },
                },
            },
        }
    }
}


fn walk_charts(charts: &[u32]) -> (r: Option<Vec<(usize, usize)>>)
    requires
        charts.len() <= 0x4000_0000,
    ensures
        r is None <==> chart_walk(charts@, 0) is None,
        r matches Some(w) ==> chart_walk(charts@, 0) == Some(w@.map_values(|p: (usize, usize)| (p.0 as int, p.1 as int))),
{
    let mut w: Vec<(usize, usize)> = Vec::new();
    let mut i: usize = 0;
    while i < charts.len()
        invariant
            i <= charts.len() + 1,
            charts.len() <= 0x4000_0000,
            forall|q: int| 0 <= q < w.len() ==> (#[trigger] w@[q]).0 < charts.len(),
            chart_walk(charts@, 0) == match chart_walk(charts@, i as int) {
                Some(rest) => Some(w@.map_values(|p: (usize, usize)| (p.0 as int, p.1 as int)) + rest),
                None => None::<Seq<(int, int)>>,
            },
        decreases charts.len() + 1 - i,
    {
        let n = charts[i] as usize;
        if n > (charts.len() - i - 1) / 2 {
            return None;
        }
        let ghost o = w@;
        w.push((i, n));
        proof {
            let f = |p: (usize, usize)| (p.0 as int, p.1 as int);
            assert(w@.map_values(f) =~= o.map_values(f).push((i as int, n as int)));
            match chart_walk(charts@, i + 1 + 2 * n) {
                Some(rest) => {
                    assert(o.map_values(f) + (seq![(i as int, n as int)] + rest) =~= w@.map_values(f) + rest);
                },
                None => {},
            }
        }
        i = i + 1 + 2 * n;
    }
    proof {
        assert(w@.map_values(|p: (usize, usize)| (p.0 as int, p.1 as int)) + Seq::<(int, int)>::empty() =~= w@.map_values(|p: (usize, usize)| (p.0 as int, p.1 as int)));
    }
    Some(w)
}

proof fn lemma_pow_grows(a: int, t: nat)
    requires
        a >= 1,
    ensures
        vstd::arithmetic::power::pow(a, t + 1) >= vstd::arithmetic::power::pow(a, t),
        vstd::arithmetic::power::pow(a, t) >= 1,
    decreases t,
{
    vstd::arithmetic::power::lemma_pow_positive(a, t);
    assert(vstd::arithmetic::power::pow(a, t + 1) == a * vstd::arithmetic::power::pow(a, t)) by {
        vstd::arithmetic::power::lemma_pow_adds(a, t, 1);
        vstd::arithmetic::power::lemma_pow1(a);
        vstd::arithmetic::mul::lemma_mul_is_commutative(a, vstd::arithmetic::power::pow(a, t));
    }
    assert(a * vstd::arithmetic::power::pow(a, t) >= vstd::arithmetic::power::pow(a, t)) by (nonlinear_arith)
        requires a >= 1, vstd::arithmetic::power::pow(a, t) >= 1;
}

proof fn lemma_pow_mono(a: int, t: nat, l: nat)
    requires
        a >= 1,
        t <= l,
    ensures
        vstd::arithmetic::power::pow(a, t) <= vstd::arithmetic::power::pow(a, l),
    decreases l - t,
{
    if t < l {
        lemma_pow_mono(a, t, (l - 1) as nat);
        lemma_pow_grows(a, (l - 1) as nat);
    }
}

/// a to the l, if it fits a word.
fn pow_fit(a: u64, l: u32) -> (r: Option<u64>)
    requires
        a >= 1,
    ensures
        r is None <==> vstd::arithmetic::power::pow(a as int, l as nat) > u64::MAX,
        r matches Some(x) ==> x == vstd::arithmetic::power::pow(a as int, l as nat),
{
    let mut x: u64 = 1;
    let mut t: u32 = 0;
    proof {
        vstd::arithmetic::power::lemma_pow0(a as int);
    }
    while t < l
        invariant
            t <= l,
            a >= 1,
            x == vstd::arithmetic::power::pow(a as int, t as nat),
        decreases l - t,
    {
        proof {
            vstd::arithmetic::power::lemma_pow_adds(a as int, t as nat, 1);
            vstd::arithmetic::power::lemma_pow1(a as int);
        }
        match x.checked_mul(a) {
            Some(y) => {
                x = y;
            },
            None => {
                proof {
                    lemma_pow_mono(a as int, (t + 1) as nat, l as nat);
                }
                return None;
            },
        }
        t += 1;
    }
    Some(x)
}

fn value_of(atoms: &[u32], charts: &[u32], start: usize, n: usize) -> (r: Option<u64>)
    requires
        atoms.len() <= 0x4000_0000,
        start + 1 + 2 * n <= charts.len(),
    ensures
        r == chart_value(atoms@, charts@, start as int, n as int),
{
    let mut p: u64 = 1;
    let mut j: usize = 0;
    while j < n
        invariant
            j <= n,
            atoms.len() <= 0x4000_0000,
            start + 1 + 2 * n <= charts.len(),
            chart_value(atoms@, charts@, start as int, j as int) == Some(p),
        decreases n - j,
    {
        let a = match crate::pf::name_of(atoms, charts[start + 1 + 2 * j]) {
            Some(a) => a,
            None => {
                proof {
                    assert(chart_value(atoms@, charts@, start as int, (j + 1) as int) is None);
                    lemma_value_none(atoms@, charts@, start as int, (j + 1) as int, n as int);
                }
                return None;
            },
        };
        proof {
            assert(a >= 1);
        }
        let x = match pow_fit(a, charts[start + 2 + 2 * j]) {
            Some(x) => x,
            None => {
                proof {
                    lemma_value_none(atoms@, charts@, start as int, (j + 1) as int, n as int);
                }
                return None;
            },
        };
        match p.checked_mul(x) {
            Some(y) => {
                p = y;
            },
            None => {
                proof {
                    lemma_value_none(atoms@, charts@, start as int, (j + 1) as int, n as int);
                }
                return None;
            },
        }
        j += 1;
    }
    Some(p)
}

proof fn lemma_value_none(atoms: Seq<u32>, charts: Seq<u32>, start: int, j: int, n: int)
    requires
        0 <= j <= n,
        chart_value(atoms, charts, start, j) is None,
    ensures
        chart_value(atoms, charts, start, n) is None,
    decreases n - j,
{
    if j < n {
        lemma_value_none(atoms, charts, start, j + 1, n);
    }
}


proof fn lemma_walk_bounds(charts: Seq<u32>, i: int)
    requires
        0 <= i,
        chart_walk(charts, i) is Some,
    ensures
        forall|c: int| 0 <= c < chart_walk(charts, i)->0.len() ==> 0 <= (#[trigger] chart_walk(charts, i)->0[c]).0 && chart_walk(charts, i)->0[c].0
            + 1 + 2 * chart_walk(charts, i)->0[c].1 <= charts.len() && chart_walk(charts, i)->0[c].1 >= 0,
    decreases charts.len() - i,
{
    if i < charts.len() {
        let n = charts[i] as int;
        lemma_walk_bounds(charts, i + 1 + 2 * n);
        let w = chart_walk(charts, i)->0;
        let rest = chart_walk(charts, i + 1 + 2 * n)->0;
        assert forall|c: int| 0 <= c < w.len() implies 0 <= (#[trigger] w[c]).0 && w[c].0 + 1 + 2 * w[c].1 <= charts.len() && w[c].1 >= 0 by {
            if c > 0 {
                assert(w[c] == rest[c - 1]);
            }
        }
    }
}

/// The walk's entries as integers.
pub open spec fn walk_view(w: Seq<(usize, usize)>) -> Seq<(int, int)> {
    w.map_values(|p: (usize, usize)| (p.0 as int, p.1 as int))
}

fn find_square(charts: &[u32], w: &Vec<(usize, usize)>, o1: u32) -> (r: Option<(usize, usize)>)
    requires
        forall|c: int| 0 <= c < w.len() ==> (#[trigger] w@[c]).0 + 1 + 2 * w@[c].1 <= charts.len(),
    ensures
        r is None <==> square_of(charts@, walk_view(w@), o1, 0) is None,
        r matches Some(x) ==> square_of(charts@, walk_view(w@), o1, 0) == Some((x.0 as int, x.1 as int)) && x.0 + 1 + 2 * x.1 <= charts.len(),
{
    let mut c: usize = 0;
    while c < w.len()
        invariant
            c <= w.len(),
            forall|q: int| 0 <= q < w.len() ==> (#[trigger] w@[q]).0 + 1 + 2 * w@[q].1 <= charts.len(),
            square_of(charts@, walk_view(w@), o1, 0) == square_of(charts@, walk_view(w@), o1, c as int),
        decreases w.len() - c,
    {
        let (st, n) = w[c];
        proof {
            assert(walk_view(w@)[c as int] == (st as int, n as int));
        }
        if n == 1 && charts[st + 1] == o1 && charts[st + 2] == 2 {
            return Some((st, n));
        }
        c += 1;
    }
    None
}

fn find_chart(w: &Vec<(usize, usize)>, off: u32, Ghost(len): Ghost<int>) -> (r: Option<(usize, usize)>)
    requires
        forall|c: int| 0 <= c < w.len() ==> (#[trigger] w@[c]).0 + 1 + 2 * w@[c].1 <= len,
        len <= 0x4000_0000,
    ensures
        r is None <==> chart_at(walk_view(w@), off, 0) is None,
        r matches Some(x) ==> chart_at(walk_view(w@), off, 0) == Some((x.0 as int, x.1 as int)) && x.0 + 1 + 2 * x.1 <= len,
{
    let mut c: usize = 0;
    while c < w.len()
        invariant
            c <= w.len(),
            len <= 0x4000_0000,
            forall|q: int| 0 <= q < w.len() ==> (#[trigger] w@[q]).0 + 1 + 2 * w@[q].1 <= len,
            chart_at(walk_view(w@), off, 0) == chart_at(walk_view(w@), off, c as int),
        decreases w.len() - c,
    {
        let (st, n) = w[c];
        proof {
            assert(walk_view(w@)[c as int] == (st as int, n as int));
        }
        if (st as u64) * 4 == off as u64 {
            return Some((st, n));
        }
        c += 1;
    }
    None
}

/// Insert into a strictly increasing list, unless it is there.
fn insert_sorted(v: &mut Vec<u64>, x: u64)
    requires
        forall|i: int, j: int| 0 <= i < j < old(v).len() ==> #[trigger] old(v)@[i] < #[trigger] old(v)@[j],
    ensures
        forall|i: int, j: int| 0 <= i < j < final(v).len() ==> #[trigger] final(v)@[i] < #[trigger] final(v)@[j],
        forall|y: u64| #[trigger] final(v)@.contains(y) <==> (old(v)@.contains(y) || y == x),
{
    let mut p: usize = 0;
    while p < v.len() && v[p] < x
        invariant
            p <= v.len(),
            forall|i: int| 0 <= i < p ==> #[trigger] v@[i] < x,
        decreases v.len() - p,
    {
        p += 1;
    }
    if p < v.len() && v[p] == x {
        proof {
            assert(v@.contains(x));
        }
        return;
    }
    let ghost o = v@;
    v.insert(p, x);
    proof {
        assert forall|y: u64| #[trigger] v@.contains(y) <==> (o.contains(y) || y == x) by {
            if v@.contains(y) {
                let w = choose|w: int| 0 <= w < v@.len() && v@[w] == y;
                if w < p {
                    assert(o[w] == y);
                } else if w > p {
                    assert(o[w - 1] == y);
                }
            }
            if o.contains(y) {
                let w = choose|w: int| 0 <= w < o.len() && o[w] == y;
                if w < p {
                    assert(v@[w] == y);
                } else {
                    assert(v@[w + 1] == y);
                }
            }
            if y == x {
                assert(v@[p as int] == x);
            }
        }
        assert forall|i: int, j: int| 0 <= i < j < v.len() implies #[trigger] v@[i] < #[trigger] v@[j] by {
            if p < o.len() {
                assert(o[p as int] >= x);
                assert(o[p as int] != x);
            }
            if j < p {
                assert(v@[i] == o[i] && v@[j] == o[j]);
            } else if j == p {
                assert(v@[i] == o[i]);
            } else if i == p {
                assert(v@[j] == o[j - 1]);
                if j - 1 > p {
                    assert(o[p as int] < o[j - 1]);
                }
            } else if i < p {
                assert(v@[i] == o[i] && v@[j] == o[j - 1]);
                if p < o.len() && j - 1 > p {
                    assert(o[p as int] < o[j - 1]);
                }
            } else {
                assert(v@[i] == o[i - 1] && v@[j] == o[j - 1]);
            }
        }
    }
}

/// What cycle 2 found, sorted and without repeats: the floor 1, the reference (the first chart
/// that squares the seam's second entry), every chart glued into the reference, and every atom
/// that arrived from it. `None` where the run's files do not name these.
pub fn tp_found(atoms: &[u32], charts: &[u32], glue: &[u32], seam: &[u32]) -> (r: Option<Vec<u64>>)
    requires
        atoms.len() <= 0x4000_0000,
        charts.len() <= 0x4000_0000,
    ensures
        r is None <==> found_raw(atoms@, charts@, glue@, seam@) is None,
        r matches Some(v) ==> {
            &&& forall|i: int, j: int| 0 <= i < j < v.len() ==> #[trigger] v@[i] < #[trigger] v@[j]
            &&& forall|y: u64| #[trigger] v@.contains(y) <==> found_raw(atoms@, charts@, glue@, seam@)->0.contains(y)
        },
{
    if seam.len() < 2 {
        return None;
    }
    let w = match walk_charts(charts) {
        Some(w) => w,
        None => return None,
    };
    proof {
        lemma_walk_bounds(charts@, 0);
        assert forall|c: int| 0 <= c < w.len() implies (#[trigger] w@[c]).0 + 1 + 2 * w@[c].1 <= charts.len() by {
            assert(walk_view(w@)[c] == chart_walk(charts@, 0)->0[c]);
        }
        assert(walk_view(w@) == chart_walk(charts@, 0)->0);
    }
    let rf = match find_square(charts, &w, seam[1]) {
        Some(x) => x,
        None => return None,
    };
    let v0 = match value_of(atoms, charts, rf.0, rf.1) {
        Some(v) => v,
        None => return None,
    };
    let roff: u32 = (rf.0 * 4) as u32;
    proof {
        assert(roff == (rf.0 as int * 4) as u32);
    }
    let mut raw: Vec<u64> = Vec::new();
    raw.push(1);
    raw.push(v0);
    let ghost walkv = walk_view(w@);
    let mut g: usize = 0;
    proof {
        assert(raw@ =~= seq![1u64, v0] + Seq::<u64>::empty());
    }
    while g < glue.len() / 3
        invariant
            g <= glue.len() / 3,
            atoms.len() <= 0x4000_0000,
            charts.len() <= 0x4000_0000,
            walkv == walk_view(w@),
            forall|c: int| 0 <= c < w.len() ==> (#[trigger] w@[c]).0 + 1 + 2 * w@[c].1 <= charts.len(),
            glued(atoms@, charts@, walkv, glue@, roff, g as int) matches Some(gs) && raw@ == seq![1u64, v0] + gs,
            seam.len() >= 2,
            chart_walk(charts@, 0) == Some(walkv),
            square_of(charts@, walkv, seam@[1], 0) == Some((rf.0 as int, rf.1 as int)),
            chart_value(atoms@, charts@, rf.0 as int, rf.1 as int) == Some(v0),
            roff == (rf.0 as int * 4) as u32,
        decreases glue.len() / 3 - g,
    {
        if glue[3 * g + 1] == roff {
            let ch = match find_chart(&w, glue[3 * g], Ghost(charts.len() as int)) {
                Some(ch) => ch,
                None => {
                    proof {
                        assert(3 * (g + 1 - 1) == 3 * g);
                        assert(glued(atoms@, charts@, walkv, glue@, roff, g + 1) is None);
                        lemma_glued_none(atoms@, charts@, walkv, glue@, roff, g + 1, (glue.len() / 3) as int);
                        assert(chart_walk(charts@, 0) == Some(walkv));
                        assert(found_raw(atoms@, charts@, glue@, seam@) is None);
                    }
                    return None;
                },
            };
            match value_of(atoms, charts, ch.0, ch.1) {
                Some(x) => {
                    raw.push(x);
                },
                None => {
                    proof {
                        assert(3 * (g + 1 - 1) == 3 * g);
                        assert(glued(atoms@, charts@, walkv, glue@, roff, g + 1) is None);
                        lemma_glued_none(atoms@, charts@, walkv, glue@, roff, g + 1, (glue.len() / 3) as int);
                        assert(chart_walk(charts@, 0) == Some(walkv));
                        assert(found_raw(atoms@, charts@, glue@, seam@) is None);
                    }
                    return None;
                },
            }
        }
        g += 1;
    }
    let ghost gs = glued(atoms@, charts@, walkv, glue@, roff, (glue.len() / 3) as int)->0;
    let ghost base = raw@;
    let mut a: usize = 0;
    while a < atoms.len() / 2
        invariant
            a <= atoms.len() / 2,
            raw@ == base + arrived(atoms@, roff, a as int),
        decreases atoms.len() / 2 - a,
    {
        let ghost o = raw@;
        if atoms[2 * a] == roff {
            raw.push(atoms[2 * a + 1] as u64 + 1);
        }
        proof {
            assert(raw@ =~= base + arrived(atoms@, roff, a + 1));
        }
        a += 1;
    }
    proof {
        assert(found_raw(atoms@, charts@, glue@, seam@) == Some(raw@));
    }
    let mut out: Vec<u64> = Vec::new();
    let mut k: usize = 0;
    while k < raw.len()
        invariant
            k <= raw.len(),
            forall|i: int, j: int| 0 <= i < j < out.len() ==> #[trigger] out@[i] < #[trigger] out@[j],
            forall|y: u64| #[trigger] out@.contains(y) <==> raw@.subrange(0, k as int).contains(y),
        decreases raw.len() - k,
    {
        insert_sorted(&mut out, raw[k]);
        proof {
            assert forall|y: u64| #[trigger] out@.contains(y) <==> raw@.subrange(0, k + 1).contains(y) by {
                if raw@.subrange(0, k + 1).contains(y) {
                    let q = choose|q: int| 0 <= q < k + 1 && #[trigger] raw@.subrange(0, k + 1)[q] == y;
                    if q < k {
                        assert(raw@.subrange(0, k as int)[q] == y);
                    }
                }
                if raw@.subrange(0, k as int).contains(y) {
                    let q = choose|q: int| 0 <= q < k && #[trigger] raw@.subrange(0, k as int)[q] == y;
                    assert(raw@.subrange(0, k + 1)[q] == y);
                }
                if y == raw@[k as int] {
                    assert(raw@.subrange(0, k + 1)[k as int] == y);
                }
            }
        }
        k += 1;
    }
    proof {
        assert(raw@.subrange(0, raw.len() as int) =~= raw@);
    }
    Some(out)
}

proof fn lemma_glued_none(atoms: Seq<u32>, charts: Seq<u32>, walk: Seq<(int, int)>, glue: Seq<u32>, r: u32, g: int, m: int)
    requires
        0 <= g <= m,
        glued(atoms, charts, walk, glue, r, g) is None,
    ensures
        glued(atoms, charts, walk, glue, r, m) is None,
    decreases m - g,
{
    if g < m {
        lemma_glued_none(atoms, charts, walk, glue, r, g + 1, m);
    }
}

} // verus!
