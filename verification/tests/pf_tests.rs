use atlas::pf::{cycles_of, hold, pedro_fibonacci, pedro_fibonacci_checked, relation_text, rods_text, shadow_composite, sup, words32_le, Ledger, Rods, Run};
use std::collections::BTreeMap;

fn rods(pairs: &[(u64, u32)]) -> Rods {
    pairs.iter().copied().collect()
}

/// Seam 2, 3, 5 with 8 arrived as an unnamed atom; 4 is the square of 2.
fn run() -> Run {
    let mut squares = BTreeMap::new();
    squares.insert(4, 2);
    squares.insert(9, 3);
    Run { cycles: 3, seam: vec![2, 3, 5, 8], squares, rectangle: None }
}

#[test]
fn hold_adds_beads() {
    let a = rods(&[(2, 1), (3, 2)]);
    let b = rods(&[(3, 1), (5, 4)]);
    assert_eq!(hold(&a, &b), rods(&[(2, 1), (3, 3), (5, 4)]));
    assert_eq!(hold(&a, &Rods::new()), a);
}

#[test]
fn ledger_reads_squares_and_seam_names() {
    let r = run();
    let ledger = Ledger { run: &r, collapsed: BTreeMap::new() };
    assert_eq!(ledger.factors(1), Some(Rods::new()));
    assert_eq!(ledger.factors(4), Some(rods(&[(2, 2)])));
    assert_eq!(ledger.factors(5), Some(rods(&[(5, 1)])));
    assert_eq!(ledger.factors(7), None);
}

#[test]
fn rectangle_holds_both_sides() {
    let mut r = run();
    r.rectangle = Some((2, 5));
    let ledger = Ledger { run: &r, collapsed: BTreeMap::new() };
    assert_eq!(ledger.factors(10), Some(rods(&[(2, 1), (5, 1)])));
}

#[test]
fn the_first_cycles_close_three_quarters_and_eight_ninths() {
    let r = run();
    let (lims, ledger) = pedro_fibonacci(&r);
    // cycle 1: 3/4 = 3¹/2²; cycle 2: 8/9 = 2³/3², and 8 collapses to 2³
    assert_eq!(lims.len(), 2);
    assert_eq!((lims[0].cycle, lims[0].whole, lims[0].below, lims[0].above), (1, 2, 1, 3));
    assert_eq!(relation_text(&lims[0].num, &lims[0].den), "3¹/2²");
    assert_eq!(lims[0].deduped, None);
    assert_eq!(relation_text(&lims[1].num, &lims[1].den), "2³/3²");
    assert_eq!(lims[1].deduped, Some(8));
    assert_eq!(ledger.collapsed.get(&8), Some(&rods(&[(2, 3)])));
    // cycle 3 stops: 6 is not in the ledger
    assert_eq!(ledger.factors(6), None);
}

#[test]
fn text_of_rods() {
    assert_eq!(sup(0), "⁰");
    assert_eq!(sup(1234567890), "¹²³⁴⁵⁶⁷⁸⁹⁰");
    assert_eq!(rods_text(&Rods::new()), "1");
    assert_eq!(rods_text(&rods(&[(13, 1), (2, 10)])), "2¹⁰ × 13¹");
    assert_eq!(relation_text(&rods(&[(2, 1), (3, 1)]), &rods(&[(5, 2)])), "(2¹ × 3¹)/5²");
}

#[test]
fn shadow_composite_is_trial_division() {
    assert!(!shadow_composite(2));
    assert!(!shadow_composite(3));
    assert!(shadow_composite(4));
    assert!(!shadow_composite(97));
    assert!(shadow_composite(91));
    assert!(!shadow_composite(4294967291));
}

#[test]
fn a_run_reads_from_its_words() {
    // atoms: records at offsets 0, 8, 16, 24 named 2, 3, 5, 8
    let atoms = [0u32, 1, 0, 2, 0, 4, 0, 7];
    // charts: 2 held twice (a square), 3 held twice, then the rectangle 2 × 5
    let charts = [1u32, 0, 2, 1, 8, 2, 2, 0, 1, 16, 1, 0];
    let seam = [0u32, 8, 16, 24];
    let r = Run::from_words(3, &atoms, &charts, &seam).unwrap();
    assert_eq!(r.cycles, 3);
    assert_eq!(r.seam, vec![2, 3, 5, 8]);
    assert_eq!(r.squares.iter().map(|(a, b)| (*a, *b)).collect::<Vec<_>>(), vec![(4, 2), (9, 3)]);
    assert_eq!(r.rectangle, Some((2, 5)));
    // an offset that names no atom, and a chart cut short
    assert!(Run::from_words(3, &atoms, &charts, &[4]).is_none());
    assert!(Run::from_words(3, &atoms, &[2, 0, 1], &seam).is_none());
}

#[test]
fn run_files_are_little_endian_words() {
    assert_eq!(words32_le(&[1, 0, 0, 0, 0x78, 0x56, 0x34, 0x12, 9]), vec![1, 0x1234_5678]);
}

#[test]
fn the_receipt_states_the_cycles() {
    assert_eq!(cycles_of("format=v2 cycles=32 seam=ok\n"), Some(32));
    assert_eq!(cycles_of("cycles=  7"), Some(7));
    assert_eq!(cycles_of("cycles=x"), None);
    assert_eq!(cycles_of("no count"), None);
}

#[test]
fn a_reference_missing_from_the_ledger_is_refused() {
    // 9 is read as the square of 3, and 3 is nowhere in the run
    let mut squares = BTreeMap::new();
    squares.insert(9, 3);
    let r = Run { cycles: 1, seam: vec![9], squares, rectangle: None };
    assert!(pedro_fibonacci_checked(&r).is_none());
    let ok = run();
    assert_eq!(pedro_fibonacci_checked(&ok).unwrap().0.len(), 2);
}
