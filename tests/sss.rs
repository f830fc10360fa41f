use dkg::{Polynomial, Scalar, Share, generate_shares, reconstruct_secret};

#[test]
fn test_shamir_reconstruction() {
    let t = 3;
    let n = 5;

    let secret = Scalar::random();
    let shares = generate_shares(secret, t, n);

    let subset = &shares[0..t];
    let recovered_secret = reconstruct_secret(subset);

    assert_eq!(secret, recovered_secret, "Reconstruction failed!")
}

#[test]
fn test_shamir_reconstruction_different_subsets() {
    let t = 3;
    let n = 10;

    let secret = Scalar::random();
    let shares = generate_shares(secret, t, n);

    for i in 0..=n - t {
        let subset = &shares[i..i + t];
        let recovered_secret = reconstruct_secret(subset);

        assert_eq!(
            secret,
            recovered_secret,
            "Reconstruction failed with participants from {start} to {end}!",
            start = i,
            end = i + t
        );
    }
}

#[test]
fn test_shamir_reconstruction_failure() {
    let t = 3;
    let n = 5;

    let secret = Scalar::random();
    let shares = generate_shares(secret, t, n);

    let subset = &shares[0..t - 1];
    let recovered_secret = reconstruct_secret(subset);

    assert_ne!(
        secret, recovered_secret,
        "Reconstruction should fail with less shares than threshold!"
    )
}

fn s(v: u64) -> Scalar {
    Scalar::from_u64(v)
}

#[test]
fn horner_matches_the_sum_of_powers() {
    // 1 + 2x + 3x^2 at x = 2 is 17
    let p = Polynomial::new(vec![s(1), s(2), s(3)]);
    assert_eq!(p.evaluate(s(2)), s(17));
    // 5 + 0x + 0x^2 + 4x^3 at x = 3 is 113
    let q = Polynomial::new(vec![s(5), s(0), s(0), s(4)]);
    assert_eq!(q.evaluate(s(3)), s(113));
    // a single coefficient is constant
    let c = Polynomial::new(vec![s(9)]);
    assert_eq!(c.evaluate(s(1000)), s(9));
    // random coefficients: compare with the naive sum
    let coeffs: Vec<Scalar> = (0..6).map(|_| Scalar::random()).collect();
    let x = Scalar::random();
    // c0 + c1 x + ... summed term by term: c_i x^i is the polynomial with a
    // single coefficient c_i at degree i
    let mut terms = Vec::new();
    for (i, c) in coeffs.iter().enumerate() {
        let mut single = vec![Scalar::zero(); i + 1];
        single[i] = *c;
        terms.push(Polynomial::new(single).evaluate(x));
    }
    let naive = Polynomial::new(terms).evaluate(Scalar::one());
    assert_eq!(Polynomial::new(coeffs).evaluate(x), naive);
}

#[test]
fn lagrange_on_known_points() {
    // the line y = 7 + 3x through x = 1 and x = 2
    let shares = vec![Share { x: s(1), y: s(10) }, Share { x: s(2), y: s(13) }];
    assert_eq!(reconstruct_secret(&shares), s(7));
    // y = 4 + x + 2x^2 through x = 2, 5, 3 (in that order)
    let shares = vec![
        Share { x: s(2), y: s(14) },
        Share { x: s(5), y: s(59) },
        Share { x: s(3), y: s(25) },
    ];
    assert_eq!(reconstruct_secret(&shares), s(4));
    // a single share is taken as a constant
    assert_eq!(reconstruct_secret(&[Share { x: s(4), y: s(6) }]), s(6));
}

#[test]
fn any_threshold_subset_recovers_the_secret() {
    let secret = Scalar::random();
    let shares = generate_shares(secret, 4, 7);
    assert_eq!(shares.len(), 7);
    for (i, sh) in shares.iter().enumerate() {
        assert_eq!(sh.x, s(i as u64 + 1));
    }
    let picks = [[0usize, 2, 4, 6], [6, 5, 1, 0], [1, 2, 3, 5]];
    for p in picks {
        let subset: Vec<Share> = p.iter().map(|&i| shares[i]).collect();
        assert_eq!(reconstruct_secret(&subset), secret);
    }
    // more shares than the threshold also recover it
    assert_eq!(reconstruct_secret(&shares), secret);
}

#[test]
fn threshold_one_gives_the_secret_to_everyone() {
    let secret = s(42);
    let shares = generate_shares(secret, 1, 3);
    for sh in &shares {
        assert_eq!(sh.y, secret);
    }
}

#[test]
fn threshold_equal_to_count() {
    let secret = Scalar::random();
    let shares = generate_shares(secret, 5, 5);
    assert_eq!(reconstruct_secret(&shares), secret);
    assert_ne!(reconstruct_secret(&shares[0..4]), secret);
}
