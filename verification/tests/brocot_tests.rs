use atlas::big::Big;
use atlas::brocot::{cell_dyadic, cell_partner, cf, from_cf, path_spellable, qmark, qmark_inv, qmark_readable, tree_depth, tree_frame, tree_path};
use atlas::maelstrom::fib;
use num_bigint::{BigInt, Sign};
use num_traits::One;

fn big_int(b: &Big) -> BigInt {
    BigInt::new(if b.neg { Sign::Minus } else { Sign::Plus }, b.mag.clone())
}

fn of(b: &BigInt) -> Big {
    let (s, mag) = b.to_u32_digits();
    Big { neg: s == Sign::Minus, mag }
}

fn b(x: i64) -> BigInt {
    BigInt::from(x)
}

fn pair(r: (Big, u32)) -> (BigInt, u32) {
    (big_int(&r.0), r.1)
}

fn frac(r: (Big, Big)) -> (BigInt, BigInt) {
    (big_int(&r.0), big_int(&r.1))
}

fn frame(p: &BigInt, q: &BigInt) -> [BigInt; 4] {
    let f = tree_frame(&of(p), &of(q));
    [big_int(&f[0]), big_int(&f[1]), big_int(&f[2]), big_int(&f[3])]
}

#[test]
fn question_mark_bridge() {
    let qm = |p: i64, q: i64| pair(qmark(&Big::of(p), &Big::of(q)));
    assert_eq!(qm(1, 2), (b(1), 1));
    assert_eq!(qm(1, 3), (b(1), 2));
    assert_eq!(qm(2, 3), (b(3), 2));
    assert_eq!(qm(3, 4), (b(7), 3));
    assert_eq!(qm(7, 2), (b(7), 1));
    assert_eq!(frac(qmark_inv(&Big::of(3), 2)), (b(2), b(3)));
    assert_eq!(frac(qmark_inv(&Big::of(7), 1)), (b(7), b(2)));
    for n in 2..20 {
        let (num, k) = pair(qmark(&of(&BigInt::from(fib(n))), &of(&BigInt::from(fib(n + 1)))));
        let diff: BigInt = &num * 3u32 - (BigInt::one() << (k + 1));
        assert!(diff.magnitude() <= BigInt::from(2).magnitude(), "3*?(F_n/F_n+1) = 2^(k+1) +- 1..2 at n={}", n);
    }
    for m in (1u16..=255).step_by(2) {
        for n in -140i32..=4 {
            let (p, q) = cell_partner(m, n);
            let (num, k) = pair(cell_dyadic(m, n));
            assert_eq!(pair(qmark(&p, &q)), (num, k), "round trip <{}|{}>", m, n);
        }
    }
    assert_eq!(tree_path(&Big::of(2), &Big::of(3)), "LR");
    assert_eq!(tree_path(&Big::of(3), &Big::of(5)), "LRL");
}

#[test]
fn frame_is_geometry_not_a_walk() {
    assert_eq!(frame(&b(1), &b(1)), [b(0), b(1), b(1), b(0)]);
    assert_eq!(frame(&b(1), &b(2)), [b(0), b(1), b(1), b(1)]);
    assert_eq!(frame(&b(2), &b(3)), [b(1), b(1), b(2), b(1)]);
    for m in (1u16..=255).step_by(2) {
        for n in -140i32..=4 {
            let (p, q) = frac(cell_partner(m, n));
            let [a, bb, c, d] = frame(&p, &q);
            assert_eq!(&bb * &c - &a * &d, BigInt::one(), "det <{}|{}>", m, n);
            assert_eq!((&a + &bb, &c + &d), (p, q), "mediant <{}|{}>", m, n);
        }
    }
    let (p, q) = frac(cell_partner(1, -133));
    assert_eq!((p.clone(), q.clone()), (b(1), b(134)));
    assert_eq!(big_int(&tree_depth(&of(&p), &of(&q))), b(133));
    assert_eq!(frame(&p, &q), [b(0), b(1), b(1), b(133)]);
    let (p, q) = frac(cell_partner(255, 120));
    let big: BigInt = BigInt::from(255) << 120;
    assert_eq!((p.clone(), q.clone()), (big.clone(), b(1)));
    assert_eq!(big_int(&tree_depth(&of(&p), &of(&q))), &big - 1);
    assert_eq!(frame(&p, &q), [&big - 1, b(1), b(1), b(0)]);
}

#[test]
fn continued_fractions_round_trip() {
    let a = cf(&Big::of(355), &Big::of(113));
    let terms: Vec<BigInt> = a.iter().map(big_int).collect();
    assert_eq!(terms, vec![b(3), b(7), b(16)]);
    assert_eq!(frac(from_cf(&a)), (b(355), b(113)));
    // truncated division: −7/2 = [−3; −2]
    let a = cf(&Big::of(-7), &Big::of(2));
    let terms: Vec<BigInt> = a.iter().map(big_int).collect();
    assert_eq!(terms, vec![b(-3), b(-2)]);
}

#[test]
fn euclid_reads_canonical_terms_back() {
    for terms in [vec![0i64, 2], vec![3, 7, 16], vec![0, 1, 1, 1, 2], vec![5], vec![1, 4, 1, 3]] {
        let a: Vec<Big> = terms.iter().map(|&t| Big::of(t)).collect();
        let (p, q) = from_cf(&a);
        let back: Vec<BigInt> = cf(&p, &q).iter().map(big_int).collect();
        assert_eq!(back, terms.iter().map(|&t| b(t)).collect::<Vec<_>>());
    }
}

#[test]
fn the_readers_say_when_they_can_read() {
    assert!(qmark_readable(&Big::of(2), &Big::of(3)));
    assert!(qmark_readable(&Big::of(7), &Big::of(1)));
    // 1 / −2 = [0; −2]: a term past the integer part below 1
    assert!(!qmark_readable(&Big::of(1), &Big::of(-2)));
    assert!(path_spellable(&Big::of(3), &Big::of(5)));
    assert!(!path_spellable(&Big::of(-3), &Big::of(5)));
    assert!(!path_spellable(&Big::of(0), &Big::of(1)));
    // 1 / 2^33: the tail sum is past a u32
    let big_q = of(&(BigInt::one() << 33));
    assert!(!qmark_readable(&Big::of(1), &big_q));
    assert!(path_spellable(&Big::of(1), &big_q));
}
