use atlas::tp::{gcd, hops, tp_fibers, tp_found, tp_neighbours};

#[test]
fn gcd_by_euclid() {
    assert_eq!(gcd(12, 18), 6);
    assert_eq!(gcd(7, 0), 7);
    assert_eq!(gcd(0, 5), 5);
    assert_eq!(gcd(9, 4), 1);
}

#[test]
fn tuples_dedupe_into_fibers() {
    let nodes = tp_fibers(&[1, 2, 4]);
    let keys: Vec<(u64, u64)> = nodes.iter().map(|n| (n.0, n.1)).collect();
    // 1/1, 1/2 ≡ 2/4, 1/4, 2/1 ≡ 4/2, 2/2 is the whole 2, 4/1, 4/4 is the whole 4
    assert_eq!(keys, vec![(1, 1), (1, 2), (1, 4), (2, 1), (4, 1)]);
    assert_eq!(nodes[1].2, vec![(1, 2), (2, 4)]);
    assert_eq!(nodes[3].2, vec![(2, 1), (2, 2), (4, 2)]);
    assert_eq!(nodes[4].2, vec![(4, 1), (4, 4)]);
    let total: usize = nodes.iter().map(|n| n.2.len()).sum();
    assert_eq!(total, 9);
}

#[test]
fn neighbours_differ_by_the_unit() {
    let keys = vec![(1, 1), (1, 2), (1, 4), (2, 1), (4, 1)];
    // |1·2 − 1·1| = 1: 1/1 ~ 1/2; 1/1 ~ 2/1; 1/2 ~ 1/4? |1·4 − 2·1| = 2, no
    assert_eq!(tp_neighbours(&keys), vec![(0, 1), (0, 3)]);
}

#[test]
fn hops_are_breadth_first_distances() {
    // a path 0 - 1 - 2 - 3 and a lone vertex 4
    let edges = vec![(0, 1), (1, 2), (2, 3)];
    assert_eq!(hops(5, &edges, &vec![0]), vec![Some(0), Some(1), Some(2), Some(3), None]);
    assert_eq!(hops(5, &edges, &vec![3, 0]), vec![Some(0), Some(1), Some(1), Some(0), None]);
}

#[test]
fn found_is_the_floor_the_reference_and_what_it_holds() {
    // atoms (origin, name − 1): 2 (from chart 0), 3 (from chart 0), 5 (from the reference at byte 12)
    let atoms = [0u32, 1, 0, 2, 12, 4];
    // charts: at word 0 the bit's ring (2¹), at word 3 the square of atom 8 (3²), at word 6 2¹·3¹
    let charts = [1u32, 0, 1, 1, 8, 2, 2, 0, 1, 8, 1];
    // glue: the chart at byte 24 glued into the reference at byte 12
    let glue = [24u32, 12, 0];
    let seam = [0u32, 8];
    assert_eq!(tp_found(&atoms, &charts, &glue, &seam), Some(vec![1, 5, 6, 9]));
    assert_eq!(tp_found(&atoms, &charts, &glue, &[0]), None);
}
