use std::collections::BTreeSet;
use std::sync::Arc;

use atlas::cells;
use atlas::fiber::{cell_position, Fiber};
use atlas::fiberkernel::{matmul_positions, FiberAtoms, XPos};
use atlas::matmul::matmul_grid;
use atlas::surfaces::{Atoms, Grid, Place};

#[test]
fn the_128_atoms_are_the_8_bit_torus() {
    let f = Fiber::new(8);
    assert_eq!(f.period(), 64);
    let mut seen = BTreeSet::new();
    for m in (1u32..256).step_by(2) {
        let (s, k) = f.position(m);
        assert!(k < 64);
        assert!(seen.insert((s, k)), "one position per odd");
        assert_eq!(f.value(s, k), m, "antilog(log m) = m");
    }
    assert_eq!(seen.len(), 128);
    assert_eq!(f.position(1), (false, 0));
    assert_eq!(f.position(255), (true, 0), "255 = -1 mod 256");
    assert_eq!(f.position(5), (false, 1));
    assert_eq!(f.position(3), (true, 35), "3 = -5^35 mod 256 (5^35 = 253)");
}

#[test]
fn products_are_position_sums_exactly() {
    let f = Fiber::new(16);
    for mx in (1u32..256).step_by(2) {
        for mw in (1u32..256).step_by(2) {
            let px = f.position(mx);
            let pw = f.position(mw);
            let (s, k) = f.mul(px, pw);
            assert_eq!(f.value(s, k), mx * mw, "{} * {}", mx, mw);
        }
    }
}

#[test]
fn one_over_value_is_minus_k() {
    let f = Fiber::new(16);
    for m in (1u32..256).step_by(2) {
        let p = f.position(m);
        let (s, k) = f.inv(p);
        let inv = f.value(s, k) as u64;
        assert_eq!((inv * m as u64) % (1 << 16), 1, "m * (1/m) = 1 mod 2^16 for m = {}", m);
    }
}

#[test]
fn every_finite_cell_is_a_point_of_the_bundle() {
    let f = Fiber::new(16);
    let mut seen = BTreeSet::new();
    let mut count = 0;
    for p in 0u16..=0xFFFF {
        let e = (p >> 7) & 0xFF;
        if e == 0xFF || (p & 0x7FFF) == 0 {
            continue;
        }
        let (sheet, m, n) = cells::decompose(p);
        let pt = cell_position(&f, sheet == 1, m, n);
        assert!(seen.insert(pt), "distinct point per pattern {:#06x}", p);
        count += 1;
    }
    assert_eq!(count, 65278);
}

#[test]
fn positions_reproduce_the_bucket_bit_for_bit() {
    let mut seed = 0x1234_5678_9ABC_DEF1u64;
    let mut next = || {
        seed ^= seed << 13;
        seed ^= seed >> 7;
        seed ^= seed << 17;
        seed
    };
    let mut dict = Vec::new();
    while dict.len() < 512 {
        let sign = ((next() & 1) as u16) << 15;
        let exp = (110 + (next() % 30)) as u16;
        let frac = (next() % 128) as u16;
        let p = sign | (exp << 7) | frac;
        if cells::is_finite(p) && !dict.contains(&p) {
            dict.push(p);
        }
    }
    let atoms = Atoms::from_dict(&dict);
    let (rows, cols) = (256usize, 256usize);
    let ids: Vec<u16> = (0..rows * cols).map(|_| (next() % 512) as u16).collect();
    let (mut rmin, mut rmax) = (i32::MAX, i32::MIN);
    for &id in &ids {
        rmin = rmin.min(atoms.n[id as usize] as i32);
        rmax = rmax.max(atoms.n[id as usize] as i32);
    }
    let grid = Grid { rows, cols, th: 128, tw: 128, ids, place: Arc::new(Place::new(2, 2)), rmin, rmax };
    let x: Vec<u16> = (0..3 * cols).map(|_| dict[(next() % 512) as usize]).collect();
    let fa = FiberAtoms::from_atoms(&atoms);
    let a = matmul_grid(&x, 3, cols, &grid, &atoms);
    let b = matmul_positions(&x, 3, cols, &grid, &fa);
    assert_eq!(a, b, "positions vs bucket");
    assert!(a.iter().any(|&v| v != 0));
}

#[test]
fn an_activation_row_reads_as_points() {
    let f = Fiber::new(16);
    let x = [0x3F80u16, 0x0000, 0xC040];
    let p = XPos::new(&x, &f);
    assert_eq!(p.zero, vec![false, true, false]);
    assert_eq!(p.sign, vec![0, 0, 1]);
    assert_eq!(f.value(p.neg[2] == 1, p.k[2]), 3);
    assert!(!p.sticky);
}
