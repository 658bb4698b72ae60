use atlas::cache::{seal_of, Acquisition, Slice};
use atlas::clock::Clock;

fn slice(tag: u16) -> Slice {
    Slice { x_in: vec![tag], k: vec![tag, tag], v: vec![tag; 3] }
}

#[test]
fn the_seal_is_sha256_over_u32_ids_in_hex() {
    assert_eq!(seal_of(&[]), "e3b0c44298fc1c149afbf4c8996fb92427ae41e4649b934ca495991b7852b855");
    assert_eq!(seal_of(&[1, 2]), "34fb5c825de7ca4aea6e712f19d439c1da0c92c37b423936c5f618545ca4fa1f");
    assert_eq!(seal_of(&[151643]), "760b68531cab7e8a5007dde42c3f91a8a1954193e80d93908cff50c00938b72b");
}

#[test]
fn the_checker_picks_up_the_common_prefix() {
    let mut a = Acquisition::empty(2);
    assert!(a.is_empty());
    for &t in &[5usize, 6, 7, 8] {
        a.push_position(t);
    }
    assert_eq!(a.len(), 4);
    assert_eq!(a.seal, seal_of(&[5, 6, 7, 8]));
    assert_eq!(a.addresses[3], Clock::address_of(3));
    assert_eq!(a.contained_prefix(&[5, 6, 7, 8, 9, 10]), 4);
    assert_eq!(a.contained_prefix(&[5, 6, 9]), 2);
    assert_eq!(a.contained_prefix(&[1, 6, 7]), 0);
    assert_eq!(a.contained_prefix(&[5, 6]), 2);
    assert_eq!(a.contained_prefix(&[]), 0);
}

#[test]
fn a_slice_is_picked_up_by_its_ring_address() {
    let mut a = Acquisition::empty(2);
    a.push_position(11);
    a.push_position(12);
    a.record(0, 0, slice(100));
    a.record(0, 1, slice(101));
    a.record(1, 0, slice(200));
    let addr1 = Clock::address_of(1);
    assert_eq!(a.pick(0, addr1).unwrap().x_in, vec![101]);
    assert_eq!(a.pick(1, Clock::address_of(0)).unwrap().v, vec![200; 3]);
    assert!(a.pick(1, addr1).is_none());
    a.truncate(1);
    assert_eq!(a.tokens, vec![11]);
    assert_eq!(a.seal, seal_of(&[11]));
    assert!(a.pick(0, addr1).is_none());
    assert_eq!(a.pick(0, Clock::address_of(0)).unwrap().x_in, vec![100]);
    assert_eq!(a.slices[0].len(), 1);
}

#[test]
fn an_address_that_comes_round_again_points_at_the_later_position() {
    let mut a = Acquisition::empty(1);
    for p in 0..1002usize {
        a.push_position(p);
        a.record(0, p, slice(p as u16));
    }
    assert_eq!(Clock::address_of(0), Clock::address_of(1001));
    assert_eq!(a.pick(0, Clock::address_of(0)).unwrap().x_in, vec![1001]);
    a.truncate(1001);
    assert!(a.pick(0, Clock::address_of(0)).is_none(), "the index kept one position per address");
    assert_eq!(a.pick(0, Clock::address_of(1000)).unwrap().x_in, vec![1000]);
}
