//! Threshold key material for a pairing-friendly curve: Shamir secret
//! sharing, Feldman verifiable secret sharing and a distributed key
//! generation engine built on both.
pub mod entries;
pub mod field;
pub mod group;
pub mod messages;
pub mod network;
pub mod participant;
pub mod poly;
pub mod sss;
pub mod vss;

pub use field::Scalar;
pub use group::Point;
pub use messages::{DkgMessage, ParticipantId};
pub use network::{InMemoryNetwork, Network};
pub use participant::{Participant, create_n_participants_with_threshold};
pub use poly::{Commitment, Polynomial, Share};
pub use sss::{generate_shares, reconstruct_secret};
pub use vss::{VssOutput, generate_vss_shares, verify_share};
