//! A threshold signature key-generation and resharing engine: an ICE-FROST
//! style variant of Pedersen's distributed key generation over the
//! prime-order subgroup of curve25519.
//!
//! A group of `n` participants cooperatively generates a single group public
//! key and individual secret signing shares such that any `t`-of-`n` subset
//! can later produce an aggregated signature, without any single party ever
//! learning the group secret.  An existing shareholder set may also
//! redistribute the same group key to a new, differently parameterised set.

pub mod cipher;
pub mod complaint;
pub mod encoding;
pub mod error;
pub mod field;
pub mod hash;
pub mod keygen;
pub mod keys;
pub mod lagrange;
pub mod laws;
pub mod nizk;
pub mod params;
pub mod point;
pub mod precomputation;
pub mod scalar;
pub mod vss;
pub mod wipe;

pub use cipher::EncryptedSecretShare;
pub use complaint::{Complaint, ComplaintProof};
pub use error::Error;
pub use field::group_order;
pub use keygen::{
    ActualState, DistributedKeyGeneration, DKGParticipantList, DkgState, Participant, Round1,
    Round2, RoundOne, RoundTwo, Sealed,
};
pub use keys::{DHPrivateKey, DHPublicKey, GroupKey, IndividualPublicKey, SecretKey};
pub use lagrange::calculate_lagrange_coefficients;
pub use nizk::NizkOfSecretKey;
pub use params::Parameters;
pub use precomputation::{
    generate_commitment_share_lists, Commitment, CommitmentShare, NoncePair,
    PublicCommitmentShareList, RistrettoElement, SecretCommitmentShareList,
};
pub use point::GroupElement;
pub use scalar::FieldScalar;
pub use vss::{Coefficients, SecretShare, VerifiableSecretSharingCommitment};
