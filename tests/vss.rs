use dkg::{Commitment, Point, Polynomial, Scalar, Share, generate_vss_shares, verify_share};

#[test]
fn test_vss_verification() {
    let t = 3;
    let n = 5;

    let secret = Scalar::random();

    let vss_data = generate_vss_shares(secret, t, n);

    for share in vss_data.shares {
        assert!(verify_share(&share, &vss_data.commitment));
    }
}

#[test]
fn test_vss_tempered_commitment() {
    let t = 3;
    let n = 5;

    let secret = Scalar::random();

    let vss_data = generate_vss_shares(secret, t, n);

    let mut commitment = vss_data.commitment;
    commitment.points[0] = Point::generator();

    assert!(!verify_share(&vss_data.shares[0], &commitment));
}

#[test]
fn commitment_holds_the_secret_image() {
    let secret = Scalar::from_u64(11);
    let out = generate_vss_shares(secret, 4, 6);
    assert_eq!(out.commitment.points.len(), 4);
    assert_eq!(out.shares.len(), 6);
    assert_eq!(out.commitment.points[0], Point::base_times(&secret));
}

#[test]
fn tampered_share_or_any_coefficient_fails() {
    let out = generate_vss_shares(Scalar::random(), 3, 5);
    for share in &out.shares {
        let bad = Share { x: share.x, y: Polynomial::new(vec![share.y, Scalar::one()]).evaluate(Scalar::one()) };
        assert!(!verify_share(&bad, &out.commitment));
    }
    for i in 0..3 {
        let mut c = out.commitment.clone();
        c.points[i] = Commitment::new(vec![c.points[i], Point::generator()]).evaluate(Scalar::one());
        assert!(!verify_share(&out.shares[1], &c));
    }
}

#[test]
fn commitment_evaluation_in_the_exponent() {
    let coeffs = vec![Scalar::from_u64(2), Scalar::from_u64(5), Scalar::from_u64(1)];
    let c = Commitment::new(coeffs.iter().map(Point::base_times).collect());
    let x = Scalar::from_u64(3);
    let y = Polynomial::new(coeffs).evaluate(x);
    assert_eq!(y, Scalar::from_u64(26));
    assert_eq!(c.evaluate(x), Point::base_times(&y));
    assert!(verify_share(&Share { x, y }, &c));
    assert_eq!(Commitment::new(vec![]).evaluate(x), Point::identity());
}
