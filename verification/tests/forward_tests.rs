use atlas::forward::{argmax, lt, topk};

#[test]
fn patterns_order_as_signed_magnitudes() {
    assert!(lt(0xBF80, 0x3F80), "-1 < 1");
    assert!(lt(0x3F80, 0x4000), "1 < 2");
    assert!(lt(0xC000, 0xBF80), "-2 < -1");
    assert!(!lt(0x8000, 0x0000), "-0 and +0 are equal");
    assert!(!lt(0x0000, 0x8000));
}

#[test]
fn argmax_takes_the_first_greatest() {
    let logits = [0x3F80u16, 0xBF80, 0x4000, 0x4000, 0x3F80];
    assert_eq!(argmax(&logits), 2);
    assert_eq!(argmax(&[]), 0);
    assert_eq!(argmax(&[0xC000, 0xBF80]), 1);
}

#[test]
fn topk_ranks_by_logit_then_index() {
    let logits = [0x3F80u16, 0xBF80, 0x4000, 0x3F80, 0x4000];
    assert_eq!(topk(&logits, 3), vec![2, 4, 0]);
    assert_eq!(topk(&logits, 10), vec![2, 4, 0, 3, 1]);
    assert_eq!(topk(&logits, 0), Vec::<usize>::new());
    assert_eq!(topk(&[], 4), Vec::<usize>::new());
}
