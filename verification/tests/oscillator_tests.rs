use atlas::oscillator::{cycle_one, opus_standing, seats, update_one, TARGET};

#[test]
fn the_square_has_four_seats() {
    assert_eq!(seats(2, 2), vec![vec![0, 0], vec![0, 1], vec![1, 0], vec![1, 1]]);
    assert_eq!(seats(0, 3), vec![Vec::<usize>::new()]);
    assert_eq!(seats(1, 3), vec![vec![0], vec![1], vec![2]]);
}

#[test]
fn cycle_one_reads_the_target() {
    let (line, gate, region) = cycle_one().expect("cycle 1 closes");
    assert_eq!(line, TARGET);
    assert!(gate);
    // the ? cell is the first three seats of the square: the block no held cell covers
    assert_eq!(region, vec![vec![0, 0], vec![0, 1], vec![1, 0]]);
    let (inside, holding) = opus_standing(&region);
    assert_eq!(inside, vec![4]);
    assert_eq!(holding, vec![2, 1]);
}

#[test]
fn update_one_collapses_the_entry_and_crosses_the_atoms() {
    let (_, _, region) = cycle_one().unwrap();
    let (lines, gate) = update_one(&region).expect("every seat is covered");
    assert_eq!(lines[0], "collapse O1/O1: seats 1/O1, 2/O1, O1/O1 all held -> whole, OpusNumber O1 is named 3");
    assert_eq!(lines[1], "2(2¹, 2²), 3(3¹, 3²)");
    assert_eq!(lines[2], "6(2¹ × 3¹)");
    assert_eq!(lines[3], "36(2² × 3²)");
    assert!(gate);
}

#[test]
fn an_entry_with_an_uncovered_seat_is_refused() {
    // a region whose first seat no held cell and not the region itself covers
    let region = vec![vec![1, 1], vec![0, 0]];
    assert!(update_one(&region).is_none());
}
