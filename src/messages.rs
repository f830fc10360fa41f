//! The messages that participants exchange during key generation.
use vstd::prelude::*;
use crate::poly::{Commitment, Share};

verus! {

/// Identifier of a participant: a positive integer, `0` being reserved for
/// the interpolation point of the group secret.
pub type ParticipantId = usize;

/// A message of the protocol, tagged with its sender.
#[derive(Clone, Debug)]
pub enum DkgMessage {
    /// A dealer's share for one recipient, sent privately.
    DistributeShare { from: ParticipantId, to: ParticipantId, share: Share },
    /// A dealer's commitment to its polynomial, sent to everyone.
    BroadcastCommitment { from: ParticipantId, commitment: Commitment },
    /// A participant's report that a dealer's share did not verify.
    BroadcastComplaint { from: ParticipantId, against: ParticipantId, reason: String },
}

impl DkgMessage {
    /// Every share and commitment that the message carries is well formed.
    pub open spec fn wf(&self) -> bool {
        match *self {
            DkgMessage::DistributeShare { share, .. } => share.wf(),
            DkgMessage::BroadcastCommitment { commitment, .. } => commitment.wf(),
            DkgMessage::BroadcastComplaint { .. } => true,
        }
    }

    /// `self` and `o` are the same message: same tag and equal contents.
    pub open spec fn same_as(&self, o: DkgMessage) -> bool {
        match (*self, o) {
            (
                DkgMessage::DistributeShare { from: f1, to: t1, share: s1 },
                DkgMessage::DistributeShare { from: f2, to: t2, share: s2 },
            ) => f1 == f2 && t1 == t2 && s1 == s2,
            (
                DkgMessage::BroadcastCommitment { from: f1, commitment: c1 },
                DkgMessage::BroadcastCommitment { from: f2, commitment: c2 },
            ) => f1 == f2 && c1.points@ == c2.points@,
            (
                DkgMessage::BroadcastComplaint { from: f1, against: a1, reason: r1 },
                DkgMessage::BroadcastComplaint { from: f2, against: a2, reason: r2 },
            ) => f1 == f2 && a1 == a2 && r1@ == r2@,
            _ => false,
        }
    }

    /// A copy of the message.
    pub fn copied(&self) -> (r: DkgMessage)
        ensures
            r.same_as(*self),
    {
        match self {
            DkgMessage::DistributeShare { from, to, share } => DkgMessage::DistributeShare {
                from: *from,
                to: *to,
                share: *share,
            },
            DkgMessage::BroadcastCommitment { from, commitment } => DkgMessage::BroadcastCommitment {
                from: *from,
                commitment: commitment.copied(),
            },
            DkgMessage::BroadcastComplaint { from, against, reason } => DkgMessage::BroadcastComplaint {
                from: *from,
                against: *against,
                reason: reason.clone(),
            },
        }
    }
}

} // verus!
