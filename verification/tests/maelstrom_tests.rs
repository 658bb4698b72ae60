use std::collections::BTreeSet;

use atlas::maelstrom::{
    factors, fib, is_prime, ladder, licensed_primes, lucas, neighbours_unimodular, phi_pow, ray_of, ray_values,
    row_max, stern_brocot, twin_seams, Pair,
};
use num_integer::Integer;

#[test]
fn two_rays() {
    for n in 1..40 {
        let x = phi_pow(n);
        assert_eq!((x.a as u128, x.b as u128), (fib(n - 1), fib(n)), "coordinates are Fibonacci");
        assert_eq!(x.trace() as u128, lucas(n), "trace is Lucas");
        assert_eq!(x.add(x.conj()), Pair { a: x.trace(), b: 0 }, "conjugate part cancels");
        assert_eq!(x.norm(), if n % 2 == 0 { 1 } else { -1 }, "phi^n psi^n = (-1)^n");
    }
    let m5: Vec<u128> = (0..8).map(|n| lucas(n) % 5).collect();
    assert_eq!(m5, vec![2, 1, 3, 4, 2, 1, 3, 4], "Lucas mod 5: period 4");
}

#[test]
fn ladder_closes_only_with_both_rays() {
    assert_eq!(ladder(13, false), vec![1, 2, 3, 4, 6, 7, 8, 9, 11, 12]);
    assert_eq!(ladder(13, true), (1..=13).collect::<Vec<_>>());
    let lic = licensed_primes(30, true);
    assert!(lic.contains(&5) && lic.contains(&13) && lic.contains(&7) && lic.contains(&11));
}

#[test]
fn twins_straddle_inside_the_ladder() {
    let t = twin_seams(13);
    assert_eq!(t.iter().map(|x| (x.0, x.1, x.2)).collect::<Vec<_>>(), vec![(3, 5, 4), (5, 7, 6), (11, 13, 12)]);
    assert_eq!(t[0].3, vec![2, 2]);
    assert_eq!(t[2].3, vec![2, 2, 3]);
    for (p, q, _, _) in &t {
        let (fp, lp) = ray_of(*p);
        let (fq, lq) = ray_of(*q);
        assert!((fp.is_some() && lq.is_some()) || (lp.is_some() && fq.is_some()), "one prime per ray");
    }
    for (_, _, seam, _) in twin_seams(200).iter().skip(1) {
        assert_eq!(seam % 6, 0, "every seam after (3,5) is 6k");
    }
}

#[test]
fn mediant_tree_frontier() {
    let (rows, seq) = stern_brocot(14);
    assert!(neighbours_unimodular(&seq));
    for (k, row) in rows.iter().enumerate() {
        assert_eq!(row_max(row), fib(k + 2), "row {} max", k);
        assert_eq!(row.len(), 1 << k);
    }
    let mut seen = BTreeSet::new();
    for (p, q) in &seq[1..seq.len() - 1] {
        assert_eq!(p.gcd(q), 1);
        assert!(seen.insert((*p, *q)), "each rational once");
    }
}

#[test]
fn primes_and_factors() {
    assert!(!is_prime(0) && !is_prime(1) && is_prime(2) && is_prime(97) && !is_prime(91));
    assert_eq!(factors(360), vec![2, 2, 2, 3, 3, 5]);
    assert_eq!(factors(97), vec![97]);
    assert_eq!(factors(1), Vec::<u128>::new());
    assert_eq!(factors(0), Vec::<u128>::new());
}

#[test]
fn rays_below_a_cap() {
    let (f, l) = ray_values(20);
    assert_eq!(f, vec![2, 3, 5, 8, 13]);
    assert_eq!(l, vec![2, 3, 4, 7, 11, 18]);
    assert_eq!(ray_of(8), (Some(6), None));
    assert_eq!(ray_of(1), (None, None));
    assert_eq!(ray_of(2), (Some(3), Some(0)));
}

#[test]
fn a_broken_neighbour_is_caught() {
    assert!(!neighbours_unimodular(&[(0, 1), (1, 1), (3, 1)]));
    assert!(neighbours_unimodular(&[(0, 1), (1, 1), (1, 0)]));
}

#[test]
fn an_out_of_order_pair_is_not_unimodular() {
    assert!(!neighbours_unimodular(&[(1, 1), (0, 1)]));
    assert!(!neighbours_unimodular(&[(0, 1), (1, 1), (1, 2)]));
}
