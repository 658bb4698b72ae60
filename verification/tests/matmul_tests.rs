use atlas::cells::{decompose, is_finite, recompose};
use atlas::matmul::{add, matmul_dense, Bucket, Wide, FRAC_DENSE};
use num_bigint::BigInt;
use num_traits::{Signed, Zero};

fn pat(sheet: u8, m: u8, n: i16) -> u16 {
    recompose(sheet, m, n)
}

/// The bf16 pattern nearest to N·2^e (round half to even), flushed to a signed zero below the
/// normal range; None above it.
fn nearest_bf16(v: &BigInt, e: i64) -> Option<u16> {
    if v.is_zero() {
        return Some(0);
    }
    let sign: u16 = if v.is_negative() { 0x8000 } else { 0 };
    let mag = v.abs();
    let len = mag.bits() as i64;
    let (mut sig, round, sticky) = if len <= 8 {
        (u32::try_from(&mag << (8 - len) as usize).unwrap(), false, false)
    } else {
        let sh = (len - 8) as usize;
        let sig = u32::try_from(&mag >> sh).unwrap();
        let rbit = ((&mag >> (sh - 1)) & BigInt::from(1)) == BigInt::from(1);
        let low: BigInt = &mag & ((BigInt::from(1) << (sh - 1)) - BigInt::from(1));
        (sig, rbit, !low.is_zero())
    };
    let mut top = e + len - 1;
    if round && (sticky || sig & 1 == 1) {
        sig += 1;
        if sig == 0x100 {
            sig >>= 1;
            top += 1;
        }
    }
    let biased = top + 127;
    if biased >= 255 {
        return None;
    }
    if biased < 1 {
        return Some(sign);
    }
    Some(sign | ((biased as u16) << 7) | ((sig & 0x7F) as u16))
}

fn signed_core(s: u8, m: u8) -> BigInt {
    if s == 1 {
        -BigInt::from(m)
    } else {
        BigInt::from(m)
    }
}

#[test]
fn wide_shift_and_add_round_trip() {
    let a = Wide::from_i128(0x1234_5678_9abc_def0).shl(200);
    let mut b = a;
    b.add(a);
    assert_eq!(b, Wide::from_i128(0x1234_5678_9abc_def0).shl(201));
    let mut c = b;
    c.sub(a);
    assert_eq!(c, a);
    let n = Wide::from_i128(-5).shl(3);
    assert!(n.is_neg());
    assert_eq!(n.mag(), (0, 40));
}

// Reference: `nearest_bf16`, the exact product of the two cells rounded to nearest even.
#[test]
fn single_product_matches_v5_bf16_mul() {
    let samples: Vec<u16> = (0..65536u32)
        .step_by(97)
        .map(|p| p as u16)
        .filter(|&p| is_finite(p) && ((p >> 7) & 0xFF) > 60 && ((p >> 7) & 0xFF) < 150)
        .collect();
    for &a in &samples {
        for &b in samples.iter().step_by(7) {
            let (sa, ma, na) = decompose(a);
            let (sb, mb, nb) = decompose(b);
            let mut k = Bucket::new(FRAC_DENSE);
            k.add(sa, ma as u32, na as i32, sb, mb as u32, nb as i32);
            let ours = k.collapse();
            let exact = signed_core(sa, ma) * signed_core(sb, mb);
            if let Some(theirs) = nearest_bf16(&exact, na as i64 + nb as i64) {
                assert_eq!(ours, theirs, "{:#06x} * {:#06x}", a, b);
            }
        }
    }
}

// Reference: the exact sum of the two cells rounded to nearest even.
#[test]
fn add_matches_v5_bf16_add() {
    let samples: Vec<u16> = (0..65536u32)
        .step_by(211)
        .map(|p| p as u16)
        .filter(|&p| is_finite(p) && ((p >> 7) & 0xFF) > 60 && ((p >> 7) & 0xFF) < 250)
        .collect();
    for &a in &samples {
        for &b in samples.iter().step_by(5) {
            let ours = add(&[a], &[b])[0];
            let (sa, ma, na) = decompose(a);
            let (sb, mb, nb) = decompose(b);
            let e = (na as i64).min(nb as i64);
            let exact = (signed_core(sa, ma) << ((na as i64 - e) as usize)) + (signed_core(sb, mb) << ((nb as i64 - e) as usize));
            if let Some(theirs) = nearest_bf16(&exact, e) {
                assert_eq!(ours, theirs, "{:#06x} + {:#06x}", a, b);
            }
        }
    }
}

#[test]
fn dot_is_exact_before_the_collapse() {
    let one = pat(0, 1, 0);
    let neg = pat(1, 1, 0);
    let x = [one, one, neg];
    let w = [one, one, one];
    assert_eq!(matmul_dense(&x, &w, 1, 3, 1)[0], one);
    let x = [pat(0, 3, 0)];
    let w = [pat(0, 5, -5)];
    assert_eq!(matmul_dense(&x, &w, 1, 1, 1)[0], pat(0, 15, -5));
    let x = [one, pat(0, 1, -20), neg];
    let w3 = [one, one, one];
    assert_eq!(matmul_dense(&x, &w3, 1, 3, 1)[0], pat(0, 1, -20));
}

#[test]
fn a_dropped_activation_marks_the_row_sticky() {
    let tiny = pat(0, 1, -100);
    let one = pat(0, 1, 0);
    let r = atlas::matmul::XRow::new(&[tiny, one]);
    assert!(r.sticky);
    assert_eq!(r.m, vec![0, 1]);
}

#[test]
fn ties_round_to_even_at_the_collapse() {
    // 257 = 256 + 1 is a tie between 256 and 258 at eight significant bits: even wins
    let mut k = Bucket::new(0);
    k.add(0, 257, 0, 0, 1, 0);
    assert_eq!(k.collapse(), 0x4380);
    // 259 is a tie between 258 and 260: even (260) wins
    let mut k = Bucket::new(0);
    k.add(0, 259, 0, 0, 1, 0);
    assert_eq!(k.collapse(), 0x4382);
}

#[test]
fn a_far_scale_collapses_to_a_signed_zero() {
    let mut k = Bucket::new(0x7FFF_0000);
    k.acc = Wide::from_i128(-3);
    assert_eq!(k.collapse(), 0x8000);
    k.acc = Wide::from_i128(3);
    assert_eq!(k.collapse(), 0);
}

#[test]
fn terms_at_the_lane_edges_add_exactly() {
    let mut k = Bucket::new(-1_000_000_000);
    k.add(0, 1, 600_000_000, 0, 1, 400_000_000);
    assert_eq!(k.acc, Wide::from_i128(1));
    let mut z = Bucket::new(0x7FFF_FFFF);
    z.add(0, 0, i32::MAX, 1, 5, i32::MAX);
    assert!(z.acc.is_zero());
}
