use dkg::{
    DkgMessage, InMemoryNetwork, Network, Participant, Point, Polynomial, Scalar, Share,
    create_n_participants_with_threshold, reconstruct_secret,
};

/// Runs dealing and verification for all participants, handing each one the
/// messages addressed to it in order. Returns the complaints per participant.
fn run_round(participants: &mut Vec<Participant>) -> Vec<Vec<DkgMessage>> {
    let n = participants.len();
    let mut network = InMemoryNetwork::new((1..=n).collect());
    for p in participants.iter_mut() {
        for msg in p.generate_shares() {
            match msg {
                DkgMessage::DistributeShare { to, .. } => network.send_private(to, msg),
                DkgMessage::BroadcastCommitment { .. } => network.broadcast(msg),
                DkgMessage::BroadcastComplaint { .. } => panic!("a dealer does not complain"),
            }
        }
    }
    let mut complaints = Vec::new();
    for p in participants.iter_mut() {
        let messages = network.receive(p.id);
        complaints.push(p.verify_shares(messages));
    }
    complaints
}

fn check_all_honest(n: usize, t: usize) {
    let mut participants = create_n_participants_with_threshold(n, t);
    let complaints = run_round(&mut participants);
    for c in &complaints {
        assert_eq!(c.len(), 0, "Expected all honest participants");
    }
    for p in &participants {
        let mut q = p.qual_set.clone();
        q.sort();
        assert_eq!(q, (1..=n).collect::<Vec<_>>());
    }
    for p in participants.iter_mut() {
        p.compute_keys();
    }
    let first_pk = participants[0].get_group_public_key().unwrap();
    for p in &participants {
        assert_eq!(p.get_group_public_key().unwrap(), first_pk, "Recovered public keys are different");
    }
    // the group key is the image of the sum of the dealers' secrets
    let intercepts: Vec<Scalar> =
        participants.iter().map(|p| p.get_secret_polynomial_intercept().unwrap()).collect();
    let total = Polynomial::new(intercepts).evaluate(Scalar::one());
    assert_eq!(Point::base_times(&total), first_pk);
    // any t signing shares interpolate to the group secret
    for start in 0..=(n - t) {
        let subset: Vec<Share> = participants[start..start + t]
            .iter()
            .map(|p| Share { x: Scalar::from_u64(p.id as u64), y: p.get_secret_share().unwrap() })
            .collect();
        let s = reconstruct_secret(&subset);
        assert_eq!(Point::base_times(&s), first_pk);
    }
}

#[test]
fn test_dkg_protocol() {
    check_all_honest(5, 3);
}

#[test]
fn dkg_minimum_threshold() {
    check_all_honest(3, 2);
}

#[test]
fn dkg_single_participant() {
    check_all_honest(1, 1);
}

#[test]
fn keys_are_absent_before_the_phases() {
    let mut p = Participant::new(2, 2, 3);
    assert!(p.get_group_public_key().is_none());
    assert!(p.get_secret_share().is_none());
    assert!(p.get_secret_polynomial_intercept().is_none());
    let msgs = p.generate_shares();
    assert_eq!(msgs.len(), 4);
    assert!(matches!(msgs[0], DkgMessage::BroadcastCommitment { from: 2, .. }));
    for (i, m) in msgs[1..].iter().enumerate() {
        match m {
            DkgMessage::DistributeShare { from, to, share } => {
                assert_eq!(*from, 2);
                assert_eq!(*to, i + 1);
                assert_eq!(share.x, Scalar::from_u64(i as u64 + 1));
            }
            _ => panic!("expected a share"),
        }
    }
    assert!(p.get_secret_polynomial_intercept().is_some());
}

#[test]
fn bad_share_draws_a_complaint_and_first_write_wins() {
    let mut dealer = Participant::new(1, 2, 2);
    let mut other = Participant::new(2, 2, 2);
    let msgs = dealer.generate_shares();
    let other_msgs = other.generate_shares();
    let mut inbox: Vec<DkgMessage> = Vec::new();
    // a forged share from dealer 1 arrives first, then the honest one
    for m in &msgs {
        if let DkgMessage::DistributeShare { from, to: 2, share } = m {
            let forged = Share { x: share.x, y: Polynomial::new(vec![share.y, Scalar::one()]).evaluate(Scalar::one()) };
            inbox.push(DkgMessage::DistributeShare { from: *from, to: 2, share: forged });
        }
    }
    inbox.extend(msgs.iter().cloned());
    inbox.extend(other_msgs.iter().cloned());
    let complaints = other.verify_shares(inbox);
    assert_eq!(complaints.len(), 1);
    match &complaints[0] {
        DkgMessage::BroadcastComplaint { from, against, reason } => {
            assert_eq!(*from, 2);
            assert_eq!(*against, 1);
            assert_eq!(reason, "Share verification failed");
        }
        _ => panic!("expected a complaint"),
    }
    assert_eq!(other.qual_set, vec![2]);
    other.compute_keys();
    // only dealer 2 counts
    let own = other.get_secret_polynomial_intercept().unwrap();
    assert_eq!(other.get_group_public_key().unwrap(), Point::base_times(&own));
}

#[test]
fn shares_for_others_and_complaints_are_ignored() {
    let mut dealer = Participant::new(1, 1, 2);
    let mut p = Participant::new(2, 1, 2);
    let mut msgs = dealer.generate_shares();
    msgs.retain(|m| !matches!(m, DkgMessage::DistributeShare { to: 2, .. }));
    msgs.push(DkgMessage::BroadcastComplaint { from: 1, against: 2, reason: String::from("x") });
    let complaints = p.verify_shares(msgs);
    assert!(complaints.is_empty());
    assert!(p.qual_set.is_empty());
    p.compute_keys();
    assert_eq!(p.get_secret_share().unwrap(), Scalar::zero());
    assert_eq!(p.get_group_public_key().unwrap(), Point::identity());
}

#[test]
fn network_delivers_in_order_and_drains() {
    let mut net = InMemoryNetwork::new(vec![1, 2, 3]);
    let c = |from: usize| DkgMessage::BroadcastComplaint { from, against: 9, reason: String::from("r") };
    net.send_private(2, c(1));
    net.broadcast(c(2));
    net.send_private(7, c(3));
    net.send_private(2, c(4));
    let got = net.receive(2);
    let froms: Vec<usize> = got
        .iter()
        .map(|m| match m {
            DkgMessage::BroadcastComplaint { from, .. } => *from,
            _ => panic!("unexpected message"),
        })
        .collect();
    assert_eq!(froms, vec![1, 2, 4]);
    assert!(net.receive(2).is_empty());
    assert_eq!(net.receive(1).len(), 1);
    assert_eq!(net.receive(3).len(), 1);
    assert!(net.receive(7).is_empty());
}

#[test]
fn pending_share_is_accepted_when_its_commitment_arrives() {
    let mut dealer = Participant::new(1, 2, 2);
    let mut p = Participant::new(2, 2, 2);
    let msgs = dealer.generate_shares();
    let (commitment, shares): (Vec<DkgMessage>, Vec<DkgMessage>) =
        msgs.into_iter().partition(|m| matches!(m, DkgMessage::BroadcastCommitment { .. }));
    assert!(p.verify_shares(shares).is_empty());
    assert!(p.qual_set.is_empty());
    assert!(p.verify_shares(commitment).is_empty());
    assert_eq!(p.qual_set, vec![1]);
}

#[test]
fn shares_from_unknown_dealers_are_dropped() {
    let mut p = Participant::new(1, 1, 2);
    let mut outsider = Participant::new(1, 1, 2);
    let msgs: Vec<DkgMessage> = outsider
        .generate_shares()
        .into_iter()
        .map(|m| match m {
            DkgMessage::DistributeShare { to, share, .. } => DkgMessage::DistributeShare { from: 9, to, share },
            DkgMessage::BroadcastCommitment { commitment, .. } => DkgMessage::BroadcastCommitment { from: 9, commitment },
            other => other,
        })
        .collect();
    assert!(p.verify_shares(msgs).is_empty());
    assert!(p.qual_set.is_empty());
}

#[test]
fn empty_commitment_with_zero_share_adds_nothing() {
    let mut p = Participant::new(1, 1, 2);
    let msgs = vec![
        DkgMessage::BroadcastCommitment { from: 2, commitment: dkg::Commitment::new(vec![]) },
        DkgMessage::DistributeShare { from: 2, to: 1, share: Share { x: Scalar::from_u64(1), y: Scalar::zero() } },
    ];
    assert!(p.verify_shares(msgs).is_empty());
    assert_eq!(p.qual_set, vec![2]);
    p.compute_keys();
    assert_eq!(p.get_group_public_key().unwrap(), Point::identity());
    assert_eq!(p.get_secret_share().unwrap(), Scalar::zero());
}
