//! Errors that may happen during key generation or resharing.

use crate::complaint::Complaint;
use vstd::prelude::*;

verus! {

/// Errors that may happen during key generation.  Every operation fails with
/// exactly one kind; nothing is retried internally.
#[derive(Clone)]
pub enum Error {
    /// Malformed byte input.
    SerialisationError,
    /// Encrypted secret share decryption failure.
    DecryptionError,
    /// Secret share verification failure.
    ShareVerificationError,
    /// Complaint verification failure.
    ComplaintVerificationError,
    /// Group key generation failure.
    InvalidGroupKey,
    /// Point not in the prime-order subgroup.
    InvalidPoint,
    /// Invalid zero-knowledge proof of knowledge.
    InvalidProofOfKnowledge,
    /// The participant is missing some others' secret shares.
    MissingShares,
    /// Could not retrieve the participant's encrypted shares.
    NoEncryptedShares,
    /// At least one complaint has been issued while entering round two.
    Complaint(Vec<Complaint>),
    /// Not all participants have been included.
    InvalidNumberOfParticipants(usize, u32),
    /// Too many invalid participants, with their indices.
    TooManyInvalidParticipants(Vec<u32>),
    /// Custom error.
    Custom(String),
}

impl Error {
    /// A short description of the error, for display by callers.
    pub fn describe(&self) -> (r: &'static str) {
        match self {
            Error::SerialisationError => "An error happened while deserialising.",
            Error::DecryptionError => "Could not decrypt encrypted share.",
            Error::ShareVerificationError => "The secret share is not correct.",
            Error::ComplaintVerificationError => "The complaint is not correct.",
            Error::InvalidGroupKey => "Could not generate a valid group key with the given commitments.",
            Error::InvalidPoint => "The point does not belong to the prime-order subgroup.",
            Error::InvalidProofOfKnowledge => "The NiZK proof of knowledge of the secret key is not correct.",
            Error::MissingShares => "Some shares are missing.",
            Error::NoEncryptedShares => "Could not retrieve encrypted shares.",
            Error::Complaint(_) => "At least one complaint has been issued.",
            Error::InvalidNumberOfParticipants(_, _) => "The number of participants does not match the instance parameters.",
            Error::TooManyInvalidParticipants(_) => "Too many invalid participants to continue the key generation.",
            Error::Custom(_) => "Custom error.",
        }
    }
}

} // verus!
