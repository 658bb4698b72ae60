use atlas::matmul::{Bucket, Wide};
use atlas::readback::{card_jobs, collapse_limbs, pack_atom, CHUNK};
use atlas::big::Big;
use atlas::rns::{crt, modinv, shoup};
use num_bigint::{BigInt, Sign};

const PRIMES: [u64; 9] = [998244353, 985661441, 754974721, 167772161, 469762049, 1004535809, 1811939329, 2013265921, 2113929217];

#[test]
fn shoup_is_the_product_mod_the_ring() {
    for &p in &PRIMES {
        for &(a, w) in &[(0u64, 5u64), (1, p - 1), (p - 1, p - 1), (123456789 % p, 987654321 % p), (p / 2, p / 3)] {
            let wp = (((w as u128) << 64) / p as u128) as u64;
            assert_eq!(shoup(a, w, wp, p), ((a as u128 * w as u128) % p as u128) as u64);
        }
    }
}

#[test]
fn fermat_inverse() {
    assert_eq!(modinv(3, 7), 5);
    for &p in &PRIMES {
        for a in [2u64, 3, 12345, p - 1] {
            let inv = modinv(a, p);
            assert_eq!((a as u128 * inv as u128) % p as u128, 1);
        }
    }
}

fn limbs(v: u128) -> [u32; 9] {
    let mut l = [0u32; 9];
    for i in 0..4 {
        l[i] = (v >> (32 * i)) as u32;
    }
    l
}

#[test]
fn readback_collapses_the_difference() {
    let zero = [0u32; 9];
    let three = Bucket { acc: Wide::from_i128(3), sticky: false, frac: 0 }.collapse();
    assert_eq!(collapse_limbs(&limbs(3), &zero, false, 0), Some(three));
    let minus_two = Bucket { acc: Wide::from_i128(-2), sticky: false, frac: 0 }.collapse();
    assert_eq!(collapse_limbs(&limbs(3), &limbs(5), false, 0), Some(minus_two));
    let big = (1u128 << 100) + 12345;
    let want = Bucket { acc: Wide::from_i128(big as i128), sticky: false, frac: 40 }.collapse();
    assert_eq!(collapse_limbs(&limbs(big), &zero, false, 40), Some(want));
    // 2^256 leaves the lane: refused
    let mut over = zero;
    over[8] = 1;
    assert_eq!(collapse_limbs(&over, &zero, false, 300), None);
    // −2^256 is inside the readback's range and wraps to zero in the lane, as on the card
    assert_eq!(collapse_limbs(&zero, &over, false, 300), Some(0));
}

fn big_int(b: &Big) -> BigInt {
    BigInt::new(if b.neg { Sign::Minus } else { Sign::Plus }, b.mag.clone())
}

fn residues(v: i128, primes: &[u64]) -> Vec<u64> {
    primes.iter().map(|&p| v.rem_euclid(p as i128) as u64).collect()
}

#[test]
fn crt_rebuilds_signed_values() {
    for &v in &[0i128, 1, -1, 42, -123456789, 1i128 << 80, -(1i128 << 90) + 7, 999_999_999_999_999_999] {
        let r = residues(v, &PRIMES[..4]);
        assert_eq!(big_int(&crt(&r, &PRIMES[..4])), BigInt::from(v), "value {}", v);
    }
    // a single ring centres its residue
    assert_eq!(big_int(&crt(&[6], &[7])), BigInt::from(-1));
    assert_eq!(big_int(&crt(&[3], &[7])), BigInt::from(3));
    // no rings: zero
    assert_eq!(big_int(&crt(&[], &[])), BigInt::from(0));
}

#[test]
fn atoms_pack_for_the_card() {
    assert_eq!(pack_atom(0, 0, 0), 0x8000);
    assert_eq!(pack_atom(1, 0xAB, -1), 0x8000_0000 | 0x00AB_0000 | 0x7FFF);
    assert_eq!(pack_atom(0, 255, -32768), 0x00FF_0000);
    assert_eq!(pack_atom(1, 1, 32767), 0x8001_FFFF);
}

#[test]
fn jobs_cut_each_grid_into_chunks() {
    let jobs = card_jobs(&[10, 0, 7], 4);
    assert_eq!(
        jobs,
        vec![(0, 0, 4, 0), (0, 4, 4, 1), (0, 8, 2, 2), (2, 0, 4, 3), (2, 4, 3, 4)]
    );
    let big = card_jobs(&[CHUNK + 1, CHUNK], CHUNK);
    assert_eq!(big, vec![(0, 0, CHUNK, 0), (0, CHUNK, 1, 1), (1, 0, CHUNK, 2)]);
    assert!(card_jobs(&[], 3).is_empty());
}

#[test]
fn crt_keeps_every_residue() {
    let res: Vec<u64> = PRIMES.iter().enumerate().map(|(i, &p)| (p / 3 + 17 * i as u64) % p).collect();
    let v = big_int(&crt(&res, &PRIMES));
    for (i, &p) in PRIMES.iter().enumerate() {
        let m = BigInt::from(p);
        let r = ((&v % &m) + &m) % &m;
        assert_eq!(r, BigInt::from(res[i]));
    }
}
