use atlas::big::Big;
use atlas::quat::{orthogonal, period, Quat, PRIMES, SPIN_Q};
use atlas::render::{ball, cell_of, measure_frame, torus_params, Pt};
use num_bigint::{BigInt, Sign};

fn big_int(b: &Big) -> BigInt {
    BigInt::new(if b.neg { Sign::Minus } else { Sign::Plus }, b.mag.clone())
}

fn pt(a: i64, b: i64, c: i64) -> Pt {
    [Big::of(a), Big::of(b), Big::of(c)]
}

#[test]
fn seals_are_orthogonal_and_norms_are_the_primes() {
    for (i, q) in SPIN_Q.iter().enumerate() {
        let q = Quat::from_i64(*q);
        assert_eq!(big_int(&q.norm()), BigInt::from(PRIMES[i]));
        assert!(orthogonal(&q));
    }
}

#[test]
fn only_the_norm_two_tick_closes() {
    let periods: Vec<Option<u32>> = SPIN_Q.iter().map(|q| period(&Quat::from_i64(*q), 512)).collect();
    assert_eq!(periods[0], Some(4));
    for p in &periods[1..] {
        assert_eq!(*p, None);
    }
}

#[test]
fn sandwich_matches_matrix() {
    let q = Quat::from_i64([2, 1, 1, 1]);
    let v = pt(3, -4, 12);
    let r = q.rotate(&v);
    let m = q.matrix();
    for i in 0..3 {
        let s: BigInt = (0..3).map(|k| big_int(&m[i][k]) * big_int(&v[k])).sum();
        assert_eq!(big_int(&r[i]), s);
    }
    let n_r: BigInt = r.iter().map(|c| big_int(c) * big_int(c)).sum();
    let n_v: BigInt = v.iter().map(|c| big_int(c) * big_int(c)).sum();
    assert_eq!(n_r, big_int(&q.norm()).pow(2) * n_v);
}

#[test]
fn tight_on_a_small_cloud() {
    let pts: Vec<Pt> = (0..500i64).map(|i| pt(i, (i * 7) % 255 - 127, (i * 3) % 40 - 20)).collect();
    let q = Quat::from_i64([1, 1, 1, 0]);
    for k in [0u32, 1, 5] {
        let (mesh, _) = ball(&pts, &q, k, 64, 64, 12);
        assert!(mesh.tight(0), "tight fails at k={}", k);
        assert!(mesh.tight(2));
    }
}

#[test]
fn quaternion_products() {
    let i = Quat::from_i64([0, 1, 0, 0]);
    let j = Quat::from_i64([0, 0, 1, 0]);
    let k = i.mul(&j);
    assert_eq!((big_int(&k.w), big_int(&k.x), big_int(&k.y), big_int(&k.z)), (0.into(), 0.into(), 0.into(), 1.into()));
    let q = Quat::from_i64([1, 1, 0, 0]).pow(4);
    assert!(q.is_real());
    assert_eq!(big_int(&q.w), BigInt::from(-4));
    let c = Quat::from_i64([3, 1, 1, 0]).conj();
    assert_eq!(big_int(&c.y), BigInt::from(-1));
}

#[test]
fn torus_and_cell_of_a_point() {
    let (t, u) = torus_params(&pt(3, 4, 0), &pt(0, 0, 0), 0);
    assert_eq!((big_int(&t.0), big_int(&t.1)), (4.into(), 8.into()));
    assert_eq!((big_int(&u.0), big_int(&u.1)), (0.into(), 10.into()));
    assert_eq!(cell_of(&t, &u, 10, 10), (7, 5));
    // a point past the center along −x folds: t = 4/(5 − 3) = 2 → 1/2
    let (t, _) = torus_params(&pt(-3, 4, 0), &pt(0, 0, 0), 0);
    assert_eq!((big_int(&t.0), big_int(&t.1)), (2.into(), 4.into()));
}

#[test]
fn frame_is_measured() {
    let pts = vec![pt(0, 0, 0), pt(10, 1, 2), pt(20, 2, 4)];
    let (sum, n, perm) = measure_frame(&pts);
    assert_eq!((big_int(&sum[0]), big_int(&sum[1]), big_int(&sum[2])), (30.into(), 3.into(), 6.into()));
    assert_eq!(big_int(&n), BigInt::from(3));
    // x spreads the most, then z, then y: the widest axis goes last
    assert_eq!(perm, [1, 2, 0]);
}
