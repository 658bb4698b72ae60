//! The renderer of the ball: a point seen from the measured center is two half-angle torus
//! parameters, exact rationals folded into [−1, 1], and each parameter picks a cell of the frame.
//! Magnitudes are declared at a number of decimal digits by integer square root, so the frame's
//! scale cancels exactly. Big integers throughout; no float.

use vstd::arithmetic::power::pow;
use vstd::prelude::*;

use crate::ball::Mesh;
use crate::big::{big_div_floor, big_pow, big_sqrt, big_to_i64, floor_div, Big};
use crate::quat::{qnorm, qpow, sandwich, Quat};
use crate::surfaces::{Atoms, Grid};

verus! {

/// A point: three big integers.
pub type Pt = [Big; 3];

/// A point's coordinates.
pub open spec fn pt(p: Pt) -> (int, int, int) {
    (p[0].val(), p[1].val(), p[2].val())
}

/// r is ⌊√n⌋.
pub open spec fn is_isqrt(n: int, r: int) -> bool {
    0 <= r && r * r <= n < (r + 1) * (r + 1)
}

/// ⌊√n⌋ for n ≥ 0.
pub open spec fn isqrt(n: int) -> int {
    choose|r: int| #[trigger] is_isqrt(n, r)
}

proof fn lemma_isqrt(n: int, r: int)
    requires
        0 <= r,
        r * r <= n < (r + 1) * (r + 1),
    ensures
        isqrt(n) == r,
{
    assert(is_isqrt(n, r));
    let s = isqrt(n);
    assert(is_isqrt(n, s));
    if s < r {
        assert((s + 1) * (s + 1) <= r * r) by (nonlinear_arith)
            requires
                0 <= s,
                s + 1 <= r,
        ;
    } else if s > r {
        assert((r + 1) * (r + 1) <= s * s) by (nonlinear_arith)
            requires
                0 <= r,
                r + 1 <= s,
        ;
    }
}

/// ⌊√(a² + b²)·scale⌋: the declared magnitude, over `scale`.
pub open spec fn mag_declared(a: int, b: int, scale: int) -> int {
    isqrt((a * a + b * b) * scale * scale)
}

fn mag_of(a: &Big, b: &Big, scale: &Big) -> (r: Big)
    ensures
        r.val() == mag_declared(a.val(), b.val(), scale.val()),
{
    let n2 = a.mul(a).add(&b.mul(b)).mul(scale).mul(scale);
    proof {
        let (x, y, s) = (a.val(), b.val(), scale.val());
        assert((x * x + y * y) * s * s >= 0) by (nonlinear_arith);
    }
    let r = big_sqrt(&n2);
    proof {
        lemma_isqrt(n2.val(), r.val());
    }
    r
}

/// A ratio with its sign on the denominator, folded to [−1, 1]: |n| > d becomes d/n.
pub open spec fn folded(t: (int, int)) -> (int, int) {
    let (n, d) = if t.1 < 0 { (-t.0, -t.1) } else { (t.0, t.1) };
    if (if n < 0 { -n } else { n }) > d {
        if n < 0 { (-d, -n) } else { (d, n) }
    } else {
        (n, d)
    }
}

/// The half-angle torus parameters of p about c, at `digits` decimal digits: t = y/(ρ + x) and
/// u = z/(σ + ρ), ρ = |(x, y)| and σ = |(ρ, z)|, each 0/1 where its denominator is 0, folded.
pub open spec fn torus(p: (int, int, int), c: (int, int, int), digits: nat) -> ((int, int), (int, int)) {
    let scale = pow(10, digits);
    let (x, y, z) = (p.0 - c.0, p.1 - c.1, p.2 - c.2);
    let rho = mag_declared(x, y, scale);
    let t_den = rho + x * scale;
    let t = if t_den == 0 { (0, 1) } else { (y * scale, t_den) };
    let zs = z * scale;
    let sigma = mag_declared(rho, zs, 1);
    let u_den = sigma + rho;
    let u = if u_den == 0 { (0, 1) } else { (zs, u_den) };
    (folded(t), folded(u))
}

fn fold(t: (Big, Big)) -> (r: (Big, Big))
    ensures
        (r.0.val(), r.1.val()) == folded((t.0.val(), t.1.val())),
{
    let (n, d) = t;
    let (mut n, mut d) = if d.is_negative() { (n.negate(), d.negate()) } else { (n, d) };
    let an = if n.is_negative() { n.negate() } else { n.copy() };
    if d.lt(&an) {
        let (a, b) = (d, n);
        n = a;
        d = b;
        if d.is_negative() {
            n = n.negate();
            d = d.negate();
        }
    }
    (n, d)
}

/// Half-angle torus parameters as exact rationals (num, den), den > 0, folded to [−1, 1].
pub fn torus_params(p: &Pt, c: &Pt, digits: u32) -> (r: ((Big, Big), (Big, Big)))
    ensures
        ((r.0.0.val(), r.0.1.val()), (r.1.0.val(), r.1.1.val())) == torus(pt(*p), pt(*c), digits as nat),
{
    let scale = big_pow(&Big::of(10), digits);
    let x = p[0].sub(&c[0]);
    let y = p[1].sub(&c[1]);
    let z = p[2].sub(&c[2]);
    let rho_s = mag_of(&x, &y, &scale);
    let t_den = rho_s.add(&x.mul(&scale));
    let t = if t_den.is_zero() { (Big::zero(), Big::of(1)) } else { (y.mul(&scale), t_den) };
    let z_s = z.mul(&scale);
    let sigma_s = mag_of(&rho_s, &z_s, &Big::of(1));
    let u_den = sigma_s.add(&rho_s);
    let u = if u_den.is_zero() { (Big::zero(), Big::of(1)) } else { (z_s, u_den) };
    (fold(t), fold(u))
}

/// The cell index of ratio n/d on an axis of `size` cells: ⌊(n/d + 1)·size/2⌋, taken as the
/// largest i64 when it does not fit one, then clamped to [0, size − 1].
pub open spec fn axis_cell(t: (int, int), size: int) -> int {
    let q = floor_div((t.0 + t.1) * size, t.1 * 2);
    let qi = if i64::MIN <= q <= i64::MAX { q } else { i64::MAX as int };
    let lo = if qi < 0 { 0 } else { qi };
    if lo > size - 1 { size - 1 } else { lo }
}

fn axis_index(t: &(Big, Big), size: usize) -> (r: usize)
    requires
        t.1.val() != 0,
        size >= 1,
    ensures
        r == axis_cell((t.0.val(), t.1.val()), size as int),
{
    let num = t.0.add(&t.1).mul(&Big::of_u64(size as u64));
    let den = t.1.mul(&Big::of(2));
    let q = big_div_floor(&num, &den);
    let qi: i64 = match big_to_i64(&q) {
        Some(v) => v,
        None => i64::MAX,
    };
    let lo: u64 = if qi < 0 { 0 } else { qi as u64 };
    if lo > (size - 1) as u64 { size - 1 } else { lo as usize }
}

/// cell_of: i = ⌊(t + 1)·W/2⌋ with t = n/d exact, clamped into the frame; likewise for u.
pub fn cell_of(t: &(Big, Big), u: &(Big, Big), w: usize, h: usize) -> (r: (usize, usize))
    requires
        t.1.val() != 0,
        u.1.val() != 0,
        w >= 1,
        h >= 1,
    ensures
        r.0 == axis_cell((t.0.val(), t.1.val()), w as int),
        r.1 == axis_cell((u.0.val(), u.1.val()), h as int),
{
    (axis_index(t, w), axis_index(u, h))
}

proof fn lemma_folded_den(t: (int, int))
    requires
        t.1 != 0,
    ensures
        folded(t).1 > 0,
{
}

/// The points of one tensor: (place, ±m, n) per cell, in file order.
pub fn points_of(g: &Grid, atoms: &Atoms) -> (out: Vec<Pt>)
    requires
        atoms.wf(),
        forall|i: int| 0 <= i < g.ids.len() ==> (#[trigger] g.ids[i] as int) < atoms.pattern.len(),
    ensures
        out.len() == g.ids.len(),
        forall|i: int| 0 <= i < out.len() ==> #[trigger] pt(out[i]) == (
            i,
            if atoms.sheet[g.ids[i] as int] != 0 { -(atoms.m[g.ids[i] as int] as int) } else { atoms.m[g.ids[i] as int] as int },
            atoms.n[g.ids[i] as int] as int,
        ),
{
    let mut out: Vec<Pt> = Vec::new();
    let mut place: usize = 0;
    while place < g.ids.len()
        invariant
            0 <= place <= g.ids.len(),
            out.len() == place,
            atoms.wf(),
            forall|i: int| 0 <= i < g.ids.len() ==> (#[trigger] g.ids[i] as int) < atoms.pattern.len(),
            forall|i: int| 0 <= i < out.len() ==> #[trigger] pt(out[i]) == (
                i,
                if atoms.sheet[g.ids[i] as int] != 0 { -(atoms.m[g.ids[i] as int] as int) } else { atoms.m[g.ids[i] as int] as int },
                atoms.n[g.ids[i] as int] as int,
            ),
        decreases g.ids.len() - place,
    {
        let id = g.ids[place] as usize;
        let m = atoms.m[id] as i64;
        let signed_m = if atoms.sheet[id] != 0 { -m } else { m };
        out.push([Big::of_u64(place as u64), Big::of(signed_m), Big::of(atoms.n[id] as i64)]);
        place += 1;
    }
    out
}

/// Σ of coordinate k over the first i points.
pub open spec fn coord_sum(ps: Seq<Pt>, k: int, i: int) -> int
    decreases i,
{
    if i <= 0 { 0 } else { coord_sum(ps, k, i - 1) + ps[i - 1][k].val() }
}

/// Σ (n·p_k − s)² over the first i points: the second moment of coordinate k about the
/// centroid s/n, scaled by n².
pub open spec fn moment(ps: Seq<Pt>, k: int, i: int, n: int, s: int) -> int
    decreases i,
{
    if i <= 0 { 0 } else { moment(ps, k, i - 1, n, s) + (ps[i - 1][k].val() * n - s) * (ps[i - 1][k].val() * n - s) }
}

/// Axis a sorts before axis b: its moment is larger, or equal with a lower index.
pub open spec fn sorts_before(m: (int, int, int), a: int, b: int) -> bool {
    let ma = if a == 0 { m.0 } else if a == 1 { m.1 } else { m.2 };
    let mb = if b == 0 { m.0 } else if b == 1 { m.1 } else { m.2 };
    ma > mb || (ma == mb && a < b)
}

/// The axes ordered by increasing moment (the largest last), as the frame's permutation.
pub open spec fn frame_perm(m: (int, int, int), perm: [usize; 3]) -> bool {
    &&& perm[0] < 3 && perm[1] < 3 && perm[2] < 3
    &&& perm[0] != perm[1] && perm[1] != perm[2] && perm[0] != perm[2]
    &&& sorts_before(m, perm[2] as int, perm[1] as int)
    &&& sorts_before(m, perm[1] as int, perm[0] as int)
}

fn before(m: &[Big; 3], a: usize, b: usize) -> (r: bool)
    requires
        a < 3,
        b < 3,
    ensures
        r == sorts_before((m[0].val(), m[1].val(), m[2].val()), a as int, b as int),
{
    m[b].lt(&m[a]) || (m[a].same(&m[b]) && a < b)
}

/// The frame is measured, not chosen: the coordinate sums (the centroid scaled by n), n, and
/// the permutation that puts the axis of largest second moment last.
pub fn measure_frame(points: &[Pt]) -> (r: (Pt, Big, [usize; 3]))
    ensures
        r.1.val() == points.len(),
        forall|k: int| 0 <= k < 3 ==> (#[trigger] r.0[k]).val() == coord_sum(points@, k, points.len() as int),
        frame_perm(
            (
                moment(points@, 0, points.len() as int, points.len() as int, coord_sum(points@, 0, points.len() as int)),
                moment(points@, 1, points.len() as int, points.len() as int, coord_sum(points@, 1, points.len() as int)),
                moment(points@, 2, points.len() as int, points.len() as int, coord_sum(points@, 2, points.len() as int)),
            ),
            r.2,
        ),
{
    let len = points.len();
    let n = Big::of_u64(len as u64);
    let mut sum: [Big; 3] = [Big::zero(), Big::zero(), Big::zero()];
    let mut i: usize = 0;
    while i < len
        invariant
            0 <= i <= len,
            len == points.len(),
            forall|k: int| 0 <= k < 3 ==> (#[trigger] sum[k]).val() == coord_sum(points@, k, i as int),
        decreases len - i,
    {
        let s0 = sum[0].add(&points[i][0]);
        let s1 = sum[1].add(&points[i][1]);
        let s2 = sum[2].add(&points[i][2]);
        sum = [s0, s1, s2];
        i += 1;
    }
    let mut m2: [Big; 3] = [Big::zero(), Big::zero(), Big::zero()];
    i = 0;
    while i < len
        invariant
            0 <= i <= len,
            len == points.len(),
            n.val() == len,
            forall|k: int| 0 <= k < 3 ==> (#[trigger] sum[k]).val() == coord_sum(points@, k, len as int),
            forall|k: int| 0 <= k < 3 ==> (#[trigger] m2[k]).val() == moment(points@, k, i as int, len as int, coord_sum(points@, k, len as int)),
        decreases len - i,
    {
        let d0 = points[i][0].mul(&n).sub(&sum[0]);
        let d1 = points[i][1].mul(&n).sub(&sum[1]);
        let d2 = points[i][2].mul(&n).sub(&sum[2]);
        let a0 = m2[0].add(&d0.mul(&d0));
        let a1 = m2[1].add(&d1.mul(&d1));
        let a2 = m2[2].add(&d2.mul(&d2));
        m2 = [a0, a1, a2];
        i += 1;
    }
    // sort the axes by moment, largest first, ties by index; the frame takes them reversed
    let mut o: [usize; 3] = [0, 1, 2];
    if !before(&m2, o[0], o[1]) {
        o = [o[1], o[0], o[2]];
    }
    if !before(&m2, o[1], o[2]) {
        o = [o[0], o[2], o[1]];
    }
    if !before(&m2, o[0], o[1]) {
        o = [o[1], o[0], o[2]];
    }
    let perm = [o[2], o[1], o[0]];
    (sum, n, perm)
}

/// The cell a point renders to about a center, at `digits` digits, in a w × h frame.
pub open spec fn rendered_cell(p: (int, int, int), c: (int, int, int), digits: nat, w: int, h: int) -> (usize, usize) {
    let (t, u) = torus(p, c, digits);
    (axis_cell(t, w) as usize, axis_cell(u, h) as usize)
}

impl Mesh {
    /// R over every point: each renders into its cell at full resolution. Points are given
    /// already in the measured frame.
    pub fn chunk(points: &[Pt], center: &Pt, w: usize, h: usize, digits: u32) -> (m: Mesh)
        requires
            w >= 1,
            h >= 1,
            points.len() <= 0x1_0000_0000,
        ensures
            m.wf(),
            m.w == w,
            m.h == h,
            m.digits == digits,
            m.where_.len() == points.len(),
            forall|a: int| 0 <= a < points.len() ==> #[trigger] m.where_@[a] == rendered_cell(pt(points[a]), pt(*center), digits as nat, w as int, h as int),
    {
        let mut where_: Vec<(usize, usize)> = Vec::new();
        let mut aid: usize = 0;
        while aid < points.len()
            invariant
                0 <= aid <= points.len(),
                w >= 1,
                h >= 1,
                where_.len() == aid,
                forall|a: int| 0 <= a < aid ==> #[trigger] where_@[a] == rendered_cell(pt(points[a]), pt(*center), digits as nat, w as int, h as int),
            decreases points.len() - aid,
        {
            let (t, u) = torus_params(&points[aid], center, digits);
            proof {
                let tt = torus(pt(points[aid as int]), pt(*center), digits as nat);
                let scale = pow(10, digits as nat);
                let p = pt(points[aid as int]);
                let cc = pt(*center);
                let (x, y, z) = (p.0 - cc.0, p.1 - cc.1, p.2 - cc.2);
                let rho = mag_declared(x, y, scale);
                let t_den = rho + x * scale;
                let t0 = if t_den == 0 { (0, 1) } else { (y * scale, t_den) };
                lemma_folded_den(t0);
                let zs = z * scale;
                let u_den = mag_declared(rho, zs, 1) + rho;
                let u0 = if u_den == 0 { (0, 1) } else { (zs, u_den) };
                lemma_folded_den(u0);
            }
            let c = cell_of(&t, &u, w, h);
            where_.push(c);
            aid += 1;
        }
        Mesh::from_cells(where_, w, h, digits)
    }
}

/// Where a point lands after k ticks of q: reframed about the measured center (n·p − sum,
/// axes permuted), then rotated by the sandwich with q^k unless k is 0.
pub open spec fn ball_point(p: (int, int, int), s: (int, int, int), n: int, perm: [usize; 3], q: (int, int, int, int), k: nat) -> (int, int, int) {
    let c = |i: usize| if i == 0 { p.0 * n - s.0 } else if i == 1 { p.1 * n - s.1 } else { p.2 * n - s.2 };
    let v = (c(perm[0]), c(perm[1]), c(perm[2]));
    if k == 0 {
        v
    } else {
        let r = sandwich(qpow(q, k), v);
        (r.1, r.2, r.3)
    }
}

/// BALL(a, k): rotate every point k ticks of q (exact, scaled by |q|^{2k}) about the measured
/// center, then render. Returns the mesh and the scale carried as the frame.
pub fn ball(points: &[Pt], q: &Quat, k: u32, w: usize, h: usize, digits: u32) -> (r: (Mesh, Big))
    requires
        w >= 1,
        h >= 1,
        points.len() <= 0x1_0000_0000,
    ensures
        r.0.wf(),
        r.0.w == w && r.0.h == h && r.0.digits == digits,
        r.0.where_.len() == points.len(),
        r.1.val() == qnorm(qpow(q@, k as nat)),
        ({
            let len = points.len() as int;
            let s = (coord_sum(points@, 0, len), coord_sum(points@, 1, len), coord_sum(points@, 2, len));
            let m = (moment(points@, 0, len, len, s.0), moment(points@, 1, len, len, s.1), moment(points@, 2, len, len, s.2));
            exists|perm: [usize; 3]| frame_perm(m, perm) && forall|a: int| 0 <= a < len ==> #[trigger] r.0.where_@[a] == rendered_cell(
                ball_point(pt(points[a]), s, len, perm, q@, k as nat),
                (0, 0, 0),
                digits as nat,
                w as int,
                h as int,
            )
        }),
{
    let (sum, n, perm) = measure_frame(points);
    let qk = q.pow(k);
    let scale = qk.norm();
    let ghost len = points.len() as int;
    let ghost s = (sum[0].val(), sum[1].val(), sum[2].val());
    let mut rotated: Vec<Pt> = Vec::new();
    let mut i: usize = 0;
    while i < points.len()
        invariant
            0 <= i <= points.len(),
            rotated.len() == i,
            n.val() == len,
            len == points.len(),
            perm[0] < 3 && perm[1] < 3 && perm[2] < 3,
            s == (sum[0].val(), sum[1].val(), sum[2].val()),
            qk@ == qpow(q@, k as nat),
            forall|a: int| 0 <= a < i ==> #[trigger] pt(rotated[a]) == ball_point(pt(points[a]), s, len, perm, q@, k as nat),
        decreases points.len() - i,
    {
        let p = &points[i];
        let v: Pt = [p[perm[0]].mul(&n).sub(&sum[perm[0]]), p[perm[1]].mul(&n).sub(&sum[perm[1]]), p[perm[2]].mul(&n).sub(&sum[perm[2]])];
        let moved = if k == 0 { v } else { qk.rotate(&v) };
        rotated.push(moved);
        i += 1;
    }
    let zero: Pt = [Big::zero(), Big::zero(), Big::zero()];
    let mesh = Mesh::chunk(rotated.as_slice(), &zero, w, h, digits);
    proof {
        assert forall|a: int| 0 <= a < len implies #[trigger] mesh.where_@[a] == rendered_cell(
            ball_point(pt(points[a]), s, len, perm, q@, k as nat),
            (0, 0, 0),
            digits as nat,
            w as int,
            h as int,
        ) by {
            assert(pt(rotated[a]) == ball_point(pt(points[a]), s, len, perm, q@, k as nat));
        }
    }
    (mesh, scale)
}

} // verus!
