use std::sync::Arc;

use atlas::cells;
use atlas::fold::{matmul_fold, odd_chain, prefix, TensorFold};
use atlas::matmul::{matmul_grid, Wide};
use atlas::surfaces::{Atoms, Grid, Place};

fn random_grid(seed0: u64, rows: usize, cols: usize, seq: usize) -> (Atoms, Grid, Vec<u16>) {
    let mut seed = seed0;
    let mut next = || {
        seed ^= seed << 13;
        seed ^= seed >> 7;
        seed ^= seed << 17;
        seed
    };
    let mut dict = Vec::new();
    while dict.len() < 512 {
        let sign = ((next() & 1) as u16) << 15;
        let exp = (110 + (next() % 30)) as u16;
        let frac = (next() % 128) as u16;
        let p = sign | (exp << 7) | frac;
        if cells::is_finite(p) && !dict.contains(&p) {
            dict.push(p);
        }
    }
    let atoms = Atoms::from_dict(&dict);
    let ids: Vec<u16> = (0..rows * cols).map(|_| (next() % 512) as u16).collect();
    let (mut rmin, mut rmax) = (i32::MAX, i32::MIN);
    for &id in &ids {
        rmin = rmin.min(atoms.n[id as usize] as i32);
        rmax = rmax.max(atoms.n[id as usize] as i32);
    }
    let grid = Grid { rows, cols, th: 128, tw: 128, ids, place: Arc::new(Place::new(rows / 128, cols / 128)), rmin, rmax };
    let x: Vec<u16> = (0..seq * cols).map(|_| dict[(next() % 512) as usize]).collect();
    (atoms, grid, x)
}

#[test]
fn fold_reproduces_the_bucket_bit_for_bit() {
    let (atoms, grid, x) = random_grid(0x1234_5678_9ABC_DEF1, 256, 256, 3);
    let f = TensorFold::from_grid(&grid, &atoms);
    assert_eq!(f.rows, 256);
    assert_eq!(f.cols, 256);
    assert_eq!(f.rspan as i32, grid.rmax - grid.rmin + 1);
    let a = matmul_grid(&x, 3, 256, &grid, &atoms);
    let b = matmul_fold(&x, 3, 256, &f);
    assert_eq!(a, b, "fold vs bucket");
    assert!(a.iter().any(|&v| v != 0));
}

#[test]
fn fold_keeps_every_column_once_per_row() {
    let (atoms, grid, _) = random_grid(0x0F0F_1234_5555_9999, 128, 256, 1);
    let f = TensorFold::from_grid(&grid, &atoms);
    for row in &f.rows_f {
        let mut seen = vec![false; 256];
        let mut total = 0usize;
        for &(_, cnt) in &row.buckets {
            total += cnt as usize;
        }
        assert_eq!(total, row.cols.len());
        for &c in &row.cols {
            assert!(!seen[c as usize]);
            seen[c as usize] = true;
        }
        assert!(row.buckets.windows(2).all(|w| w[0].0 < w[1].0), "keys strictly increase");
    }
}

#[test]
fn fold_over_many_positions_matches_the_bucket() {
    let (atoms, grid, x) = random_grid(0xDEAD_BEEF_0123_4567, 128, 128, 70);
    let f = TensorFold::from_grid(&grid, &atoms);
    let a = matmul_grid(&x, 70, 128, &grid, &atoms);
    let b = matmul_fold(&x, 70, 128, &f);
    assert_eq!(a, b);
}

#[test]
fn prefix_is_value_at_the_floor() {
    // 1.0, 0, -1.0, 1.5, and 2^-100 (below the floor: dropped with sticky)
    let p = prefix(&[0x3F80, 0x0000, 0xBF80, 0x3FC0]);
    assert_eq!(p.v, vec![1i128 << 90, 0, -(1i128 << 90), 3i128 << 89]);
    assert!(!p.sticky);
    let q = prefix(&[0x0D80, 0x3F80]);
    assert_eq!(q.v, vec![0, 1i128 << 90]);
    assert!(q.sticky);
}

#[test]
fn odd_chain_weights_lane_j_by_two_j_plus_one() {
    let mut a = vec![Wide::zero(); 128];
    a[0] = Wide::from_i128(5);
    a[1] = Wide::from_i128(1);
    a[127] = Wide::from_i128(-2);
    // 5·1 + 1·3 − 2·255 = −502
    assert_eq!(odd_chain(&a), Wide::from_i128(-502));
    let b = vec![Wide::from_i128(1); 128];
    // Σ (2j+1) for j < 128 = 128²
    assert_eq!(odd_chain(&b), Wide::from_i128(16384));
}
