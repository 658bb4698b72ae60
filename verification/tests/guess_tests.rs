use atlas::guess::lookup;

#[test]
fn the_longest_recurring_ngram_guesses() {
    assert_eq!(lookup(&[1, 2, 3, 1, 2], 2), vec![3, 1]);
    assert_eq!(lookup(&[1, 2, 3, 1, 2], 9), vec![3, 1, 2]);
    assert_eq!(lookup(&[7, 7], 5), vec![7]);
    assert_eq!(lookup(&[5], 3), Vec::<usize>::new());
    assert_eq!(lookup(&[1, 2, 3], 2), Vec::<usize>::new());
    assert_eq!(lookup(&[1, 2, 1, 2], 0), Vec::<usize>::new());
}
