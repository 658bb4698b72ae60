use atlas::clock::{crt_1001, Clock, Phase};

#[test]
fn crt_round_trips_every_position_of_the_cycle() {
    for x in 0..1001u32 {
        let teeth = [(x % 7) as u16, (x % 11) as u16, (x % 13) as u16];
        assert_eq!(crt_1001(teeth) as u32, x);
    }
}

#[test]
fn clock_matches_direct_address_and_reverses() {
    let mut c = Clock::origin();
    for pos in 0..3000u64 {
        assert_eq!(c.address(), Clock::address_of(pos));
        c.tick();
    }
    for _ in 0..3000 {
        c.untick();
    }
    assert_eq!(c.address(), Clock::address_of(0));
    assert_eq!(c.pos, 0);
}

#[test]
fn no_single_ring_locks_the_cycle() {
    let mut seen = vec![false; 1001];
    for pos in 0..1001u64 {
        let a = Clock::address_of(pos);
        assert!(!seen[a.crt as usize], "collision at {}", pos);
        seen[a.crt as usize] = true;
    }
}

#[test]
fn a_phase_step_back_undoes_a_step_forward() {
    let mut p = Phase::new(11);
    let start = p;
    p.forward();
    assert_ne!(p, start);
    p.backward();
    assert_eq!(p, start);
}

#[test]
fn the_address_repeats_after_one_tour() {
    assert_eq!(Clock::address_of(5), Clock::address_of(1006));
    assert_eq!(Clock::address_of(0).crt, 0);
}
