//! One party of the distributed key generation, acting both as a dealer and
//! as a verifier of the other dealers.
use vstd::prelude::*;
use crate::field::{Scalar, modulus};
use crate::group::{Point, identity_enc, point_add};
use crate::entries::{entry_for, index_of, lemma_entry_for_index, lemma_entry_for_push};
use crate::messages::{DkgMessage, ParticipantId};
use crate::poly::{Commitment, Polynomial, Share, all_wf, commit_to, poly_value, scalar_vals, shares_of};
use crate::poly::commits_to;
use crate::vss::{share_verifies, verify_share};

verus! {

/// Whether `id` occurs in `v`.
fn contains_id(v: &Vec<ParticipantId>, id: ParticipantId) -> (r: bool)
    ensures
        r == v@.contains(id),
{
    let mut k: usize = 0;
    while k < v.len()
        invariant
            k <= v.len(),
            forall|j: int| 0 <= j < k ==> v@[j] != id,
        decreases v.len() - k,
    {
        if v[k] == id {
            assert(v@[k as int] == id);
            return true;
        }
        k = k + 1;
    }
    false
}

/// `m` is dealer `id`'s broadcast of a commitment to the coefficient values `c`.
pub open spec fn is_commitment_from(m: DkgMessage, id: ParticipantId, c: Seq<int>) -> bool {
    match m {
        DkgMessage::BroadcastCommitment { from, commitment } => from == id && commits_to(commitment, c),
        _ => false,
    }
}

/// `m` is dealer `id`'s share `(to, P(to))` for participant `to`, where `P`
/// has the coefficient values `c`.
pub open spec fn is_share_for(m: DkgMessage, id: ParticipantId, to: int, c: Seq<int>) -> bool {
    match m {
        DkgMessage::DistributeShare { from, to: dest, share } => from == id && dest == to && share.wf()
            && share.x.val() == to && share.y.val() == poly_value(c, to) % modulus(),
        _ => false,
    }
}

/// `m` is a complaint by `id` against dealer `against`.
pub open spec fn is_complaint(m: DkgMessage, id: ParticipantId, against: ParticipantId) -> bool {
    match m {
        DkgMessage::BroadcastComplaint { from, against: a, reason } => from == id && a == against
            && reason@ == "Share verification failed"@,
        _ => false,
    }
}


/// The shares after taking in `m`: a share addressed to `me` from a dealer
/// with an id in `1..=n` is kept unless that dealer already has one (the
/// first one wins).
pub open spec fn ingest_share(acc: Seq<(ParticipantId, Share)>, m: DkgMessage, me: ParticipantId, n: usize) -> Seq<(ParticipantId, Share)> {
    match m {
        DkgMessage::DistributeShare { from, to, share } => if to == me && 1 <= from <= n && entry_for(acc, from).is_none() {
            acc.push((from, share))
        } else {
            acc
        },
        _ => acc,
    }
}

pub open spec fn ingest_shares(acc: Seq<(ParticipantId, Share)>, msgs: Seq<DkgMessage>, me: ParticipantId, n: usize) -> Seq<(ParticipantId, Share)>
    decreases msgs.len(),
{
    if msgs.len() == 0 {
        acc
    } else {
        ingest_share(ingest_shares(acc, msgs.drop_last(), me, n), msgs.last(), me, n)
    }
}

/// The commitments after taking in `m`: the first one from each dealer wins.
pub open spec fn ingest_commitment(acc: Seq<(ParticipantId, Commitment)>, m: DkgMessage) -> Seq<(ParticipantId, Commitment)> {
    match m {
        DkgMessage::BroadcastCommitment { from, commitment } => if entry_for(acc, from).is_none() {
            acc.push((from, commitment))
        } else {
            acc
        },
        _ => acc,
    }
}

pub open spec fn ingest_commitments(acc: Seq<(ParticipantId, Commitment)>, msgs: Seq<DkgMessage>) -> Seq<(ParticipantId, Commitment)>
    decreases msgs.len(),
{
    if msgs.len() == 0 {
        acc
    } else {
        ingest_commitment(ingest_commitments(acc, msgs.drop_last()), msgs.last())
    }
}

/// The accepted dealers after checking the first `k` received shares that
/// have a commitment.
pub open spec fn qual_after(
    qual: Seq<ParticipantId>,
    shares: Seq<(ParticipantId, Share)>,
    comms: Seq<(ParticipantId, Commitment)>,
    k: nat,
) -> Seq<ParticipantId>
    decreases k,
{
    if k == 0 {
        qual
    } else {
        let q = qual_after(qual, shares, comms, (k - 1) as nat);
        let d = shares[k - 1].0;
        match entry_for(comms, d) {
            Some(cm) => if share_verifies(shares[k - 1].1, cm) && !q.contains(d) {
                q.push(d)
            } else {
                q
            },
            None => q,
        }
    }
}

/// The dealers complained against after checking the first `k` received
/// shares that have a commitment.
pub open spec fn complaints_after(
    shares: Seq<(ParticipantId, Share)>,
    comms: Seq<(ParticipantId, Commitment)>,
    k: nat,
) -> Seq<ParticipantId>
    decreases k,
{
    if k == 0 {
        Seq::empty()
    } else {
        let c = complaints_after(shares, comms, (k - 1) as nat);
        let d = shares[k - 1].0;
        match entry_for(comms, d) {
            Some(cm) => if share_verifies(shares[k - 1].1, cm) {
                c
            } else {
                c.push(d)
            },
            None => c,
        }
    }
}


/// The `j`-th received share lies on the polynomial with coefficient values
/// `c`, which its dealer's commitment commits to.
pub open spec fn honest_at(
    shares: Seq<(ParticipantId, Share)>,
    comms: Seq<(ParticipantId, Commitment)>,
    j: int,
    c: Seq<int>,
) -> bool {
    &&& entry_for(comms, shares[j].0) matches Some(cm)
    &&& commits_to(cm, c)
    &&& shares[j].1.y.val() == poly_value(c, shares[j].1.x.val()) % modulus()
}

/// Every received share whose dealer's commitment is known verifies against it.
pub open spec fn all_verify(shares: Seq<(ParticipantId, Share)>, comms: Seq<(ParticipantId, Commitment)>) -> bool {
    forall|j: int| 0 <= j < shares.len() ==> match entry_for(comms, (#[trigger] shares[j]).0) {
        Some(cm) => share_verifies(shares[j].1, cm),
        None => true,
    }
}

/// When every received share with a known commitment verifies, nobody is
/// complained against and every such dealer is accepted.
pub proof fn lemma_all_verify_all_accepted(
    qual: Seq<ParticipantId>,
    shares: Seq<(ParticipantId, Share)>,
    comms: Seq<(ParticipantId, Commitment)>,
)
    requires
        all_verify(shares, comms),
    ensures
        complaints_after(shares, comms, shares.len()).len() == 0,
        forall|j: int| 0 <= j < shares.len() && entry_for(comms, (#[trigger] shares[j]).0).is_some()
            ==> qual_after(qual, shares, comms, shares.len()).contains(shares[j].0),
{
    lemma_accepting_prefix(qual, shares, comms, shares.len());
}

proof fn lemma_accepting_prefix(
    qual: Seq<ParticipantId>,
    shares: Seq<(ParticipantId, Share)>,
    comms: Seq<(ParticipantId, Commitment)>,
    k: nat,
)
    requires
        k <= shares.len(),
        all_verify(shares, comms),
    ensures
        complaints_after(shares, comms, k).len() == 0,
        forall|j: int| 0 <= j < k && entry_for(comms, (#[trigger] shares[j]).0).is_some()
            ==> qual_after(qual, shares, comms, k).contains(shares[j].0),
    decreases k,
{
    if k > 0 {
        lemma_accepting_prefix(qual, shares, comms, (k - 1) as nat);
        let q = qual_after(qual, shares, comms, (k - 1) as nat);
        let q2 = qual_after(qual, shares, comms, k);
        assert forall|e: ParticipantId| q.contains(e) implies q2.contains(e) by {
            let i = choose|i: int| 0 <= i < q.len() && q[i] == e;
            if q2 != q {
                assert(q2[i] == e);
            }
        }
        let d = shares[k - 1].0;
        if entry_for(comms, d).is_some() {
            assert(shares[k - 1] == shares[k - 1]);
            if !q.contains(d) {
                assert(q2[q.len() as int] == d);
            }
        }
    }
}

/// `Σ y_d` over the accepted dealers `d` in `1..=k`, over the integers.
pub open spec fn share_total(qual: Seq<ParticipantId>, shares: Seq<(ParticipantId, Share)>, k: nat) -> int
    decreases k,
{
    if k == 0 {
        0
    } else {
        share_total(qual, shares, (k - 1) as nat) + if qual.contains(k as ParticipantId) {
            entry_for(shares, k as ParticipantId).unwrap().y.val()
        } else {
            0
        }
    }
}

/// `Σ C_{d,0}` over the accepted dealers `d` in `1..=k`, added in that order
/// to the identity. An empty commitment stands for the zero polynomial and
/// adds nothing.
pub open spec fn key_total(qual: Seq<ParticipantId>, comms: Seq<(ParticipantId, Commitment)>, k: nat) -> Seq<u8>
    decreases k,
{
    if k == 0 {
        identity_enc()
    } else {
        let acc = key_total(qual, comms, (k - 1) as nat);
        if qual.contains(k as ParticipantId) {
            let cm = entry_for(comms, k as ParticipantId).unwrap();
            if cm.points.len() > 0 {
                point_add(acc, cm.points@[0].enc())
            } else {
                acc
            }
        } else {
            acc
        }
    }
}

/// Participants that accepted the same dealers, and hold the same first
/// commitment from each of them, derive the same group public key.
pub proof fn lemma_same_dealers_same_key(p: Participant, q: Participant)
    requires
        p.n() == q.n(),
        forall|d: ParticipantId| 1 <= d <= p.n() ==> #[trigger] p.qual().contains(d) == q.qual().contains(d),
        forall|d: ParticipantId| 1 <= d <= p.n() && #[trigger] p.qual().contains(d)
            ==> entry_for(p.commitments(), d) == entry_for(q.commitments(), d),
    ensures
        key_total(p.qual(), p.commitments(), p.n() as nat) == key_total(q.qual(), q.commitments(), q.n() as nat),
{
    lemma_key_total_agree(p.qual(), p.commitments(), q.qual(), q.commitments(), p.n() as nat);
}

proof fn lemma_key_total_agree(
    qa: Seq<ParticipantId>,
    ca: Seq<(ParticipantId, Commitment)>,
    qb: Seq<ParticipantId>,
    cb: Seq<(ParticipantId, Commitment)>,
    k: nat,
)
    requires
        k <= usize::MAX,
        forall|d: ParticipantId| 1 <= d <= k ==> #[trigger] qa.contains(d) == qb.contains(d),
        forall|d: ParticipantId| 1 <= d <= k && #[trigger] qa.contains(d) ==> entry_for(ca, d) == entry_for(cb, d),
    ensures
        key_total(qa, ca, k) == key_total(qb, cb, k),
    decreases k,
{
    if k > 0 {
        lemma_key_total_agree(qa, ca, qb, cb, (k - 1) as nat);
        let d = k as ParticipantId;
        assert(qa.contains(d) == qb.contains(d));
    }
}

/// A participant of the protocol.
pub struct Participant {
    pub id: ParticipantId,
    pub threshold: usize,
    pub num_participants: usize,
    pub group_public_key: Option<Point>,
    received_shares: Vec<(ParticipantId, Share)>,
    received_commitments: Vec<(ParticipantId, Commitment)>,
    /// The dealers whose shares verified against their commitments.
    pub qual_set: Vec<ParticipantId>,
    secret_polynomial: Option<Polynomial>,
    secret_share: Option<Scalar>,
    verified: bool,
}

impl Participant {
    pub closed spec fn pid(&self) -> ParticipantId {
        self.id
    }

    pub closed spec fn t(&self) -> usize {
        self.threshold
    }

    pub closed spec fn n(&self) -> usize {
        self.num_participants
    }

    pub closed spec fn key(&self) -> Option<Point> {
        self.group_public_key
    }

    /// The accepted dealers, in the order they were accepted.
    pub closed spec fn qual(&self) -> Seq<ParticipantId> {
        self.qual_set@
    }

    /// The shares received so far, first one from each dealer, in arrival order.
    pub closed spec fn shares(&self) -> Seq<(ParticipantId, Share)> {
        self.received_shares@
    }

    /// The commitments received so far, first one from each dealer, in arrival order.
    pub closed spec fn commitments(&self) -> Seq<(ParticipantId, Commitment)> {
        self.received_commitments@
    }

    pub closed spec fn polynomial(&self) -> Option<Polynomial> {
        self.secret_polynomial
    }

    pub closed spec fn signing_share(&self) -> Option<Scalar> {
        self.secret_share
    }

    /// Whether the verification phase has run.
    pub closed spec fn has_verified(&self) -> bool {
        self.verified
    }

    /// The state's invariant: the parameters are in range, everything held is
    /// well formed, and each accepted dealer has left a share and a commitment
    /// of `threshold` points.
    pub closed spec fn wf(&self) -> bool {
        &&& 1 <= self.threshold <= self.num_participants
        &&& 1 <= self.id <= self.num_participants
        &&& forall|k: int| 0 <= k < self.shares().len() ==> 1 <= (#[trigger] self.shares()[k]).0 <= self.num_participants
        &&& forall|k: int| 0 <= k < self.shares().len() ==> (#[trigger] self.shares()[k]).1.wf()
        &&& forall|k: int| 0 <= k < self.commitments().len() ==> (#[trigger] self.commitments()[k]).1.wf()
        &&& forall|d: ParticipantId| #[trigger] self.qual_set@.contains(d) ==> {
            &&& entry_for(self.shares(), d).is_some()
            &&& entry_for(self.commitments(), d).is_some()
            &&& 1 <= d <= self.num_participants
        }
        &&& self.polynomial() matches Some(p) ==> p.wf()
        &&& self.signing_share() matches Some(s) ==> s.wf()
        &&& self.group_public_key matches Some(k) ==> k.wf()
    }

    /// A participant that has done nothing yet.
    pub open spec fn is_fresh(&self, id: ParticipantId, threshold: usize, num_participants: usize) -> bool {
        &&& self.pid() == id
        &&& self.t() == threshold
        &&& self.n() == num_participants
        &&& self.key().is_none()
        &&& self.shares().len() == 0
        &&& self.commitments().len() == 0
        &&& self.qual().len() == 0
        &&& self.polynomial().is_none()
        &&& self.signing_share().is_none()
        &&& !self.has_verified()
    }

    pub fn new(id: ParticipantId, threshold: usize, num_participants: usize) -> (r: Participant)
        requires
            1 <= threshold <= num_participants,
            1 <= id <= num_participants,
        ensures
            r.wf(),
            r.is_fresh(id, threshold, num_participants),
    {
        Participant {
            id,
            threshold,
            num_participants,
            group_public_key: None,
            received_shares: Vec::new(),
            received_commitments: Vec::new(),
            qual_set: Vec::new(),
            secret_polynomial: None,
            secret_share: None,
            verified: false,
        }
    }

    /// Deals this participant's own secret: draws a polynomial of `threshold`
    /// random coefficients, keeps it, and returns the broadcast of its
    /// commitment followed by the share for each participant `1..=n`, this
    /// one included.
    pub fn generate_shares(&mut self) -> (r: Vec<DkgMessage>)
        requires
            old(self).wf(),
        ensures
            final(self).wf(),
            final(self).pid() == old(self).pid(),
            final(self).t() == old(self).t(),
            final(self).n() == old(self).n(),
            final(self).key() == old(self).key(),
            final(self).shares() == old(self).shares(),
            final(self).commitments() == old(self).commitments(),
            final(self).qual() == old(self).qual(),
            final(self).signing_share() == old(self).signing_share(),
            final(self).has_verified() == old(self).has_verified(),
            final(self).polynomial() matches Some(p) && {
                let c = scalar_vals(p.coefficients());
                &&& all_wf(p.coefficients())
                &&& c.len() == old(self).t()
                &&& r.len() == old(self).n() + 1
                &&& is_commitment_from(r@[0], old(self).pid(), c)
                &&& forall|i: int| 0 <= i < old(self).n()
                    ==> is_share_for(#[trigger] r@[i + 1], old(self).pid(), i + 1, c)
            },
    {
        let mut coefficients: Vec<Scalar> = Vec::new();
        let mut k: usize = 0;
        while k < self.threshold
            invariant
                k <= self.threshold,
                coefficients.len() == k,
                all_wf(coefficients@),
            decreases self.threshold - k,
        {
            coefficients.push(Scalar::random());
            k = k + 1;
        }
        let polynomial = Polynomial::new(coefficients);
        let commitment = commit_to(&polynomial);
        let shares = shares_of(&polynomial, self.num_participants);
        let ghost c = scalar_vals(polynomial.coefficients());
        let mut messages: Vec<DkgMessage> = Vec::new();
        messages.push(DkgMessage::BroadcastCommitment { from: self.id, commitment });
        let mut i: usize = 0;
        while i < shares.len()
            invariant
                i <= shares.len(),
                shares.len() == self.num_participants,
                c == scalar_vals(polynomial.coefficients()),
                forall|j: int| 0 <= j < self.num_participants ==> (#[trigger] shares@[j]).wf()
                    && shares@[j].x.val() == j + 1
                    && shares@[j].y.val() == poly_value(c, j + 1) % modulus(),
                messages.len() == i + 1,
                is_commitment_from(messages@[0], self.id, c),
                forall|j: int| 0 <= j < i ==> is_share_for(#[trigger] messages@[j + 1], self.id, j + 1, c),
            decreases shares.len() - i,
        {
            messages.push(DkgMessage::DistributeShare { from: self.id, to: i + 1, share: shares[i] });
            i = i + 1;
        }
        self.secret_polynomial = Some(polynomial);
        messages
    }

    /// Takes in the messages addressed to this participant: keeps the first
    /// commitment and the first share of each dealer, drops shares from ids
    /// outside `1..=n`, ignores shares for others and complaints, then checks
    /// every share that has a commitment. A dealer whose share verifies joins
    /// `qual_set`; for each other one a complaint is returned.
    pub fn verify_shares(&mut self, messages: Vec<DkgMessage>) -> (r: Vec<DkgMessage>)
        requires
            old(self).wf(),
            forall|i: int| 0 <= i < messages.len() ==> (#[trigger] messages@[i]).wf(),
        ensures
            final(self).wf(),
            final(self).pid() == old(self).pid(),
            final(self).t() == old(self).t(),
            final(self).n() == old(self).n(),
            final(self).key() == old(self).key(),
            final(self).polynomial() == old(self).polynomial(),
            final(self).signing_share() == old(self).signing_share(),
            final(self).has_verified(),
            final(self).shares() == ingest_shares(old(self).shares(), messages@, old(self).pid(), old(self).n()),
            final(self).commitments() == ingest_commitments(old(self).commitments(), messages@),
            final(self).qual() == qual_after(
                old(self).qual(),
                final(self).shares(),
                final(self).commitments(),
                final(self).shares().len(),
            ),
            forall|j: int, c: Seq<int>| 0 <= j < final(self).shares().len()
                && #[trigger] honest_at(final(self).shares(), final(self).commitments(), j, c)
                ==> match entry_for(final(self).commitments(), final(self).shares()[j].0) {
                    Some(cm) => share_verifies(final(self).shares()[j].1, cm),
                    None => false,
                },
            r.len() == complaints_after(final(self).shares(), final(self).commitments(), final(self).shares().len()).len(),
            forall|i: int| 0 <= i < r.len() ==> is_complaint(
                #[trigger] r@[i],
                old(self).pid(),
                complaints_after(final(self).shares(), final(self).commitments(), final(self).shares().len())[i],
            ),
    {
        let ghost msgs = messages@;
        let ghost sh0 = self.received_shares@;
        let ghost cm0 = self.received_commitments@;
        let mut rest = messages;
        let mut m: usize = 0;
        assert(msgs.len() == rest.len());
        assert(msgs.skip(0) =~= msgs);
        assert(msgs.take(0) =~= Seq::<DkgMessage>::empty());
        while rest.len() > 0
            invariant
                self.wf(),
                m <= msgs.len(),
                msgs.len() <= usize::MAX,
                rest@ == msgs.skip(m as int),
                forall|i: int| 0 <= i < msgs.len() ==> (#[trigger] msgs[i]).wf(),
                self.id == old(self).id,
                self.threshold == old(self).threshold,
                self.num_participants == old(self).num_participants,
                self.group_public_key == old(self).group_public_key,
                self.secret_polynomial == old(self).secret_polynomial,
                self.secret_share == old(self).secret_share,
                self.qual_set@ == old(self).qual_set@,
                self.verified == old(self).verified,
                self.received_shares@ == ingest_shares(sh0, msgs.take(m as int), self.id, self.num_participants),
                self.received_commitments@ == ingest_commitments(cm0, msgs.take(m as int)),
            decreases rest.len(),
        {
            let msg = rest.remove(0);
            proof {
                assert(msgs.skip(m as int)[0] == msgs[m as int]);
                assert(msgs.skip(m as int).remove(0) =~= msgs.skip(m + 1));
                assert(msgs.take(m + 1).drop_last() =~= msgs.take(m as int));
                assert(msgs.take(m + 1).last() == msgs[m as int]);
            }
            match msg {
                DkgMessage::BroadcastCommitment { from, commitment } => {
                    if index_of(&self.received_commitments, from).is_none() {
                        let ghost before = self.received_commitments@;
                        self.received_commitments.push((from, commitment));
                        proof {
                            assert forall|d: ParticipantId| #[trigger] self.qual_set@.contains(d) implies
                                entry_for(self.received_commitments@, d) == entry_for(before, d) by {
                                lemma_entry_for_push(before, (from, commitment), d);
                            }
                        }
                    }
                },
                DkgMessage::DistributeShare { from, to, share } => {
                    if to == self.id && 1 <= from && from <= self.num_participants
                        && index_of(&self.received_shares, from).is_none() {
                        let ghost before = self.received_shares@;
                        self.received_shares.push((from, share));
                        proof {
                            assert forall|d: ParticipantId| #[trigger] self.qual_set@.contains(d) implies
                                entry_for(self.received_shares@, d) == entry_for(before, d) by {
                                lemma_entry_for_push(before, (from, share), d);
                            }
                        }
                    }
                },
                DkgMessage::BroadcastComplaint { .. } => {},
            }
            m = m + 1;
        }
        assert(msgs.take(m as int) =~= msgs);
        let ghost shares = self.received_shares@;
        let ghost comms = self.received_commitments@;
        let ghost q0 = self.qual_set@;
        let mut complaints: Vec<DkgMessage> = Vec::new();
        let mut k: usize = 0;
        while k < self.received_shares.len()
            invariant
                self.wf(),
                k <= shares.len(),
                self.received_shares@ == shares,
                self.received_commitments@ == comms,
                self.verified == old(self).verified,
                self.id == old(self).id,
                self.threshold == old(self).threshold,
                self.num_participants == old(self).num_participants,
                self.group_public_key == old(self).group_public_key,
                self.secret_polynomial == old(self).secret_polynomial,
                self.secret_share == old(self).secret_share,
                self.qual_set@ == qual_after(q0, shares, comms, k as nat),
                complaints.len() == complaints_after(shares, comms, k as nat).len(),
                forall|j: int, c: Seq<int>| 0 <= j < k && #[trigger] honest_at(shares, comms, j, c)
                    ==> match entry_for(comms, shares[j].0) {
                        Some(cm) => share_verifies(shares[j].1, cm),
                        None => false,
                    },
                forall|i: int| 0 <= i < complaints.len() ==> is_complaint(
                    #[trigger] complaints@[i],
                    self.id,
                    complaints_after(shares, comms, k as nat)[i],
                ),
            decreases shares.len() - k,
        {
            let d = self.received_shares[k].0;
            let sh = self.received_shares[k].1;
            let ghost cs = complaints_after(shares, comms, k as nat);
            match index_of(&self.received_commitments, d) {
                Some(ci) => {
                    let ok = verify_share(&sh, &self.received_commitments[ci].1);
                    assert(shares[k as int] == (d, sh));
                    if ok {
                        if !contains_id(&self.qual_set, d) {
                            proof {
                                lemma_entry_for_index(shares, k as int);
                            }
                            let ghost old_q = self.qual_set@;
                            self.qual_set.push(d);
                            proof {
                                assert forall|e: ParticipantId| #[trigger] self.qual_set@.contains(e) implies
                                    e == d || old_q.contains(e) by {
                                    let j = choose|j: int| 0 <= j < self.qual_set@.len() && self.qual_set@[j] == e;
                                    if j < old_q.len() {
                                        assert(old_q[j] == e);
                                    }
                                }
                            }
                        }
                    } else {
                        complaints.push(DkgMessage::BroadcastComplaint {
                            from: self.id,
                            against: d,
                            reason: "Share verification failed".to_owned(),
                        });
                        assert(complaints@[complaints.len() - 1] == complaints@.last());
                    }
                },
                None => {},
            }
            k = k + 1;
        }
        self.verified = true;
        complaints
    }

    /// Derives the keys from the accepted dealers (whose ids lie in `1..=n`): the
    /// signing share is the sum of the `y` they sent, the group public key
    /// the sum of the first points of their commitments.
    pub fn compute_keys(&mut self)
        requires
            old(self).wf(),
            old(self).has_verified(),
        ensures
            forall|d: ParticipantId| #[trigger] old(self).qual().contains(d) ==> 1 <= d <= old(self).n(),
            final(self).has_verified(),
            final(self).wf(),
            final(self).pid() == old(self).pid(),
            final(self).t() == old(self).t(),
            final(self).n() == old(self).n(),
            final(self).shares() == old(self).shares(),
            final(self).commitments() == old(self).commitments(),
            final(self).qual() == old(self).qual(),
            final(self).polynomial() == old(self).polynomial(),
            final(self).signing_share() matches Some(s)
                && s.val() == share_total(old(self).qual(), old(self).shares(), old(self).n() as nat) % modulus(),
            final(self).key() matches Some(k)
                && k.enc() == key_total(old(self).qual(), old(self).commitments(), old(self).n() as nat),
    {
        let mut secret_share = Scalar::zero();
        let mut group_pk = Point::identity();
        let mut k: usize = 0;
        proof {
            vstd::arithmetic::div_mod::lemma_small_mod(0, modulus() as nat);
        }
        while k < self.num_participants
            invariant
                self.wf(),
                *self == *old(self),
                k <= self.num_participants,
                secret_share.wf(),
                group_pk.wf(),
                secret_share.val() == share_total(self.qual_set@, self.received_shares@, k as nat) % modulus(),
                group_pk.enc() == key_total(self.qual_set@, self.received_commitments@, k as nat),
            decreases self.num_participants - k,
        {
            let d = k + 1;
            if contains_id(&self.qual_set, d) {
                let si = index_of(&self.received_shares, d).unwrap();
                let ci = index_of(&self.received_commitments, d).unwrap();
                let y = self.received_shares[si].1.y;
                let old_secret = secret_share;
                secret_share = old_secret.add(&y);
                if self.received_commitments[ci].1.points.len() > 0 {
                    group_pk = group_pk.add(&self.received_commitments[ci].1.points[0]);
                }
                proof {
                    let acc = share_total(self.qual_set@, self.received_shares@, k as nat);
                    vstd::arithmetic::div_mod::lemma_small_mod(y.val() as nat, modulus() as nat);
                    vstd::arithmetic::div_mod::lemma_add_mod_noop(acc, y.val(), modulus());
                    vstd::arithmetic::div_mod::lemma_small_mod(old_secret.val() as nat, modulus() as nat);
                }
            }
            k = k + 1;
        }
        self.secret_share = Some(secret_share);
        self.group_public_key = Some(group_pk);
    }

    /// The constant term of this participant's own polynomial, once it has dealt.
    pub fn get_secret_polynomial_intercept(&self) -> (r: Option<Scalar>)
        requires
            self.wf(),
        ensures
            r.is_some() == self.polynomial().is_some(),
            r matches Some(s) ==> s.val() == poly_value(scalar_vals(self.polynomial().unwrap().coefficients()), 0) % modulus(),
    {
        match &self.secret_polynomial {
            Some(p) => Some(p.evaluate(Scalar::zero())),
            None => None,
        }
    }

    /// The signing share, once the keys are derived.
    pub fn get_secret_share(&self) -> (r: Option<Scalar>)
        ensures
            r == self.signing_share(),
    {
        self.secret_share
    }

    /// The group public key, once the keys are derived.
    pub fn get_group_public_key(&self) -> (r: Option<Point>)
        ensures
            r == self.key(),
    {
        self.group_public_key
    }
}

/// The participants `1..=n` of a `(t, n)` system, none of which has done anything yet.
pub fn create_n_participants_with_threshold(n: usize, t: usize) -> (r: Vec<Participant>)
    requires
        1 <= t <= n,
    ensures
        r.len() == n,
        forall|i: int| 0 <= i < n ==> (#[trigger] r@[i]).wf() && r@[i].is_fresh((i + 1) as ParticipantId, t, n),
{
    let mut v: Vec<Participant> = Vec::new();
    let mut i: usize = 0;
    while i < n
        invariant
            1 <= t <= n,
            i <= n,
            v.len() == i,
            forall|j: int| 0 <= j < i ==> (#[trigger] v@[j]).wf() && v@[j].is_fresh((j + 1) as ParticipantId, t, n),
        decreases n - i,
    {
        v.push(Participant::new(i + 1, t, n));
        i = i + 1;
    }
    v
}

} // verus!
