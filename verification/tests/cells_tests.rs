use atlas::cells::{binade, census, decompose, recompose, FINITE};

#[test]
fn census_is_exact() {
    assert_eq!(census(), (FINITE, FINITE));
}

#[test]
fn spot_cells() {
    assert_eq!(decompose(0x3F80), (0, 1, 0)); // 1.0
    assert_eq!(decompose(0xC000), (1, 1, 1)); // -2.0
    assert_eq!(decompose(0x3E20), (0, 5, -5)); // 0.15625 = 5/32
    assert_eq!(decompose(0x0001), (0, 1, -133)); // smallest subnormal
    assert_eq!(decompose(0x8000), (1, 0, 0)); // -0
    assert_eq!(decompose(0x4040), (0, 3, 0)); // 3.0
    assert_eq!(decompose(0x7F7F), (0, 255, 120)); // max finite
    assert_eq!(binade(5, -5), -3);
}

#[test]
fn constants_used_by_the_forward() {
    // eps = 1e-6: nearest bf16 is (1 + 6/128)·2^-20 = pattern 0x3586
    assert_eq!(decompose(0x3586), (0, 67, -26));
    // attention scale = 1/sqrt(128): nearest bf16 is (1 + 53/128)·2^-4 = pattern 0x3DB5
    assert_eq!(decompose(0x3DB5), (0, 181, -11));
}

#[test]
fn every_finite_pattern_round_trips_through_its_cell() {
    for p in 0u32..=0xFFFF {
        let p = p as u16;
        if ((p >> 7) & 0xFF) == 0xFF {
            continue;
        }
        let (s, m, n) = decompose(p);
        if m == 0 {
            assert_eq!(p & 0x7FFF, 0);
            continue;
        }
        assert_eq!(m % 2, 1, "the core is odd");
        assert_eq!(recompose(s, m, n), p);
    }
}

#[test]
fn binade_of_a_core_is_its_leading_power() {
    assert_eq!(binade(1, 0), 0);
    assert_eq!(binade(255, 120), 127);
    assert_eq!(binade(3, -1), 0);
}
