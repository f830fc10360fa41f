use dkg::{Commitment, Point, Polynomial, Scalar, Share, reconstruct_secret};

fn s(v: u64) -> Scalar {
    Scalar::from_u64(v)
}

/// `a + b`, as the polynomial `a + b·x` at `x = 1`.
fn plus(a: Scalar, b: Scalar) -> Scalar {
    Polynomial::new(vec![a, b]).evaluate(Scalar::one())
}

/// `a·b`, as the polynomial `a·x` at `x = b`.
fn times(a: Scalar, b: Scalar) -> Scalar {
    Polynomial::new(vec![Scalar::zero(), a]).evaluate(b)
}

/// `p + q`, as the commitment `[p, q]` at `x = 1`.
fn padd(p: Point, q: Point) -> Point {
    Commitment::new(vec![p, q]).evaluate(Scalar::one())
}

#[test]
fn scalar_arithmetic() {
    assert_eq!(plus(s(3), s(4)), s(7));
    assert_eq!(times(s(6), s(7)), s(42));
    assert_eq!(Scalar::zero(), s(0));
    assert_eq!(Scalar::one(), s(1));
    assert!(s(5).equals(&s(5)));
    assert!(!s(5).equals(&s(6)));
}

#[test]
fn subtraction_wraps_around_the_field_order() {
    // the line y = x - 1 through (1, 0) and (2, 1) is -1 at zero
    let m1 = reconstruct_secret(&[Share { x: s(1), y: s(0) }, Share { x: s(2), y: s(1) }]);
    let mut expected = [0u8; 32];
    let order_minus_one: [u64; 4] = [
        0xffffffff00000000,
        0x53bda402fffe5bfe,
        0x3339d80809a1d805,
        0x73eda753299d7d48,
    ];
    for (i, limb) in order_minus_one.iter().enumerate() {
        expected[i * 8..i * 8 + 8].copy_from_slice(&limb.to_le_bytes());
    }
    assert_eq!(m1.to_bytes(), expected);
    assert_eq!(plus(m1, s(1)), s(0));
}

#[test]
fn division_by_differences() {
    // the line through (3, 1) and (5, 2) is y = (x - 1)/2, which is -1/2 at
    // zero: twice that, plus one, is zero
    let minus_half = reconstruct_secret(&[Share { x: s(3), y: s(1) }, Share { x: s(5), y: s(2) }]);
    assert_eq!(plus(times(minus_half, s(2)), s(1)), s(0));
}

#[test]
fn point_encodings() {
    let g = Point::generator();
    let gb = g.to_bytes();
    assert_eq!(gb[0], 0x97);
    assert_eq!(gb[1], 0xf1);
    assert_eq!(gb[47], 0xbb);
    let id = Point::identity();
    let ib = id.to_bytes();
    assert_eq!(ib[0], 0xc0);
    assert!(ib[1..].iter().all(|&b| b == 0));
}

#[test]
fn point_arithmetic() {
    let g = Point::generator();
    let id = Point::identity();
    assert_eq!(Point::base_times(&s(1)), g);
    assert_eq!(Point::base_times(&s(0)), id);
    assert_eq!(padd(g, id), g);
    assert_eq!(padd(g, g), Point::base_times(&s(2)));
    assert_eq!(padd(Point::base_times(&s(3)), Point::base_times(&s(4))), Point::base_times(&s(7)));
    assert_ne!(Point::base_times(&s(2)), g);
    assert!(g.equals(&g));
    assert!(!g.equals(&id));
}
