use std::sync::Arc;

use atlas::cells;
use atlas::cub::{matmul_cub, CubFold, CubTensorSpec, LINE_TILE};
use atlas::cubfile::cube_bytes;
use atlas::fold::{matmul_fold, TensorFold};
use atlas::matmul::matmul_grid;
use atlas::surfaces::{Atoms, Grid, Place};

fn random_grid(seed0: u64, rows: usize, cols: usize, seq: usize) -> (Atoms, Grid, Vec<u16>) {
    let mut seed = seed0;
    let mut next = || {
        seed ^= seed << 13;
        seed ^= seed >> 7;
        seed ^= seed << 17;
        seed
    };
    let mut dict = Vec::new();
    while dict.len() < 512 {
        let sign = ((next() & 1) as u16) << 15;
        let exp = (110 + (next() % 30)) as u16;
        let frac = (next() % 128) as u16;
        let p = sign | (exp << 7) | frac;
        if cells::is_finite(p) && !dict.contains(&p) {
            dict.push(p);
        }
    }
    let atoms = Atoms::from_dict(&dict);
    let ids: Vec<u16> = (0..rows * cols).map(|_| (next() % 512) as u16).collect();
    let (mut rmin, mut rmax) = (i32::MAX, i32::MIN);
    for &id in &ids {
        rmin = rmin.min(atoms.n[id as usize] as i32);
        rmax = rmax.max(atoms.n[id as usize] as i32);
    }
    let grid = Grid { rows, cols, th: 128, tw: 128, ids, place: Arc::new(Place::new(rows / 128, cols / 128)), rmin, rmax };
    let x: Vec<u16> = (0..seq * cols).map(|_| dict[(next() % 512) as usize]).collect();
    (atoms, grid, x)
}

fn same_entry(a: &CubTensorSpec, b: &CubTensorSpec) -> bool {
    a.name == b.name
        && a.rows == b.rows
        && a.cols == b.cols
        && a.rmin == b.rmin
        && a.rmax == b.rmax
        && a.tiles == b.tiles
        && a.index_start == b.index_start
        && a.body_start == b.body_start
        && a.body_bytes == b.body_bytes
}

#[test]
fn cube_reproduces_the_fold_bit_for_bit() {
    let (atoms, grid, x) = random_grid(0x1234_5678_9ABC_DEF1, 256, 256, 11);
    let f = TensorFold::from_grid(&grid, &atoms);
    let folds = vec![("w.weight".to_string(), &f)];
    let (bytes, written) = cube_bytes("tiny-model", "abc123", &folds);
    let cub = CubFold::open(bytes).expect("the cube reads back");
    assert_eq!(cub.specs.len(), 1);
    assert!(same_entry(&cub.specs[0], &written[0]));
    assert_eq!(cub.specs[0].tiles, 2);
    assert_eq!(cub.specs[0].bands() as i32, f.rmax - f.rmin + 1);
    let a = matmul_fold(&x, 11, 256, &f);
    let b = matmul_cub(&x, 11, 256, &cub, "w.weight");
    let c = matmul_grid(&x, 11, 256, &grid, &atoms);
    assert_eq!(a, b, "cube vs fold");
    assert_eq!(b, c, "cube vs bucket");
    assert!(b.iter().any(|&v| v != 0));
}

#[test]
fn cube_holds_several_tensors_in_order() {
    let (atoms, g1, x1) = random_grid(0x0F0F_1234_5555_9999, 128, 256, 2);
    let (atoms2, g2, x2) = random_grid(0xDEAD_BEEF_0123_4567, 256, 128, 3);
    let f1 = TensorFold::from_grid(&g1, &atoms);
    let f2 = TensorFold::from_grid(&g2, &atoms2);
    let folds = vec![("a".to_string(), &f1), ("b".to_string(), &f2)];
    let (bytes, written) = cube_bytes("m", "seal", &folds);
    assert_eq!(bytes.len() % 1, 0);
    let header_len = written[0].index_start;
    assert_eq!(header_len % 64, 0, "the header is padded to 64 bytes");
    assert_eq!(written[1].index_start, header_len + 8 * written[0].tiles);
    assert_eq!(written[0].body_start, header_len + 8 * (written[0].tiles + written[1].tiles));
    assert_eq!(written[1].body_start, written[0].body_start + written[0].body_bytes);
    assert_eq!(bytes.len(), written[1].body_start + written[1].body_bytes);
    let text = String::from_utf8(bytes[..header_len].to_vec()).unwrap();
    assert!(text.starts_with("Object = IsisCube\n"));
    assert!(text.contains("    Name       = \"b\"\n"));
    assert!(text.contains(&format!("    StartByte   = {}\n", header_len + 1)));
    let cub = CubFold::open(bytes).unwrap();
    assert_eq!(cub.specs.len(), 2);
    assert!(same_entry(&cub.specs[0], &written[0]));
    assert!(same_entry(&cub.specs[1], &written[1]));
    assert_eq!(cub.spec("b").rows, 256);
    assert_eq!(matmul_cub(&x1, 2, 256, &cub, "a"), matmul_fold(&x1, 2, 256, &f1));
    assert_eq!(matmul_cub(&x2, 3, 128, &cub, "b"), matmul_fold(&x2, 3, 128, &f2));
}

#[test]
fn a_header_that_does_not_read_is_refused() {
    let bad = b"Object = IsisCube\n  Object = Tensor\n    Name = \"x\"\n    Lines = twelve\nEnd\n".to_vec();
    assert!(CubFold::open(bad).is_none());
    let empty = b"no header here at all, and shorter than the pad".to_vec();
    assert!(CubFold::open(empty).is_none());
    let none = b"Object = IsisCube\nEnd_Object\nEnd\n".to_vec();
    let c = CubFold::open(none).unwrap();
    assert!(c.specs.is_empty());
    assert_eq!(c.bytes(), 33);
}

#[test]
fn header_values_are_trimmed_and_unquoted() {
    let text = "Object = Tensor\n Name = \"  q\"\" \n Lines =\t+128 \n Samples = 256\n RungMin = -7\n RungMax = 3\n Tiles = 1\n IndexByte = 65\n BodyByte = 73\n BodyBytes = 0\nEnd\n";
    let c = CubFold::open(text.as_bytes().to_vec()).unwrap();
    assert_eq!(c.specs.len(), 1);
    let s = &c.specs[0];
    assert_eq!(s.name, "  q");
    assert_eq!((s.rows, s.cols, s.rmin, s.rmax, s.tiles), (128, 256, -7, 3, 1));
    assert_eq!((s.index_start, s.body_start, s.body_bytes), (64, 72, 0));
    assert_eq!(s.bands(), 11);
    assert_eq!(LINE_TILE, 128);
}
