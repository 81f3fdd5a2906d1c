//! Hashing of transcripts to field scalars.

use crate::field::{group_order, le_bytes_val};
use crate::scalar::FieldScalar;
use sha2::Digest;
use vstd::prelude::*;

verus! {

/// The value of SHA-512 of the input, reduced modulo the subgroup order: a
/// function of the input bytes alone.
pub uninterp spec fn wide_hash_scalar(input: Seq<u8>) -> nat;

/// Relies on sha2's `Sha512` and curve25519_dalek's `Scalar::from_hash`: the
/// 512-bit digest of the input reduced modulo the subgroup order, canonically
/// encoded.  The result depends on the input bytes alone.
#[verifier::external_body]
fn hash_to_scalar_bytes(input: &[u8]) -> (r: [u8; 32])
    ensures
        le_bytes_val(r@) == wide_hash_scalar(input@),
        le_bytes_val(r@) < group_order(),
{
    let mut h = sha2::Sha512::new();
    h.update(input);
    curve25519_dalek::scalar::Scalar::from_hash(h).to_bytes()
}

/// Hash a transcript to a scalar.
pub fn hash_to_scalar(input: &Vec<u8>) -> (r: FieldScalar)
    ensures
        r.wf(),
        r@ == wide_hash_scalar(input@),
{
    FieldScalar { bytes: hash_to_scalar_bytes(input.as_slice()) }
}

} // verus!
