//! Scrubbing of secret-bearing byte containers.
//!
//! Secret values are overwritten with zeros before their memory is released;
//! the writes go through the `zeroize` crate so the compiler cannot elide
//! them.

use vstd::prelude::*;
use zeroize::Zeroize;

verus! {

/// Relies on zeroize's `Zeroize` for byte arrays: every byte is overwritten
/// with zero, in a way the compiler will not optimise away.
#[verifier::external_body]
pub(crate) fn zeroize_bytes32(b: &mut [u8; 32])
    ensures
        forall|j: int| 0 <= j < 32 ==> final(b)@[j] == 0u8,
{
    b.zeroize()
}

/// Relies on zeroize's `Zeroize` for byte arrays: every byte is overwritten
/// with zero, in a way the compiler will not optimise away.
#[verifier::external_body]
pub(crate) fn zeroize_bytes16(b: &mut [u8; 16])
    ensures
        forall|j: int| 0 <= j < 16 ==> final(b)@[j] == 0u8,
{
    b.zeroize()
}

} // verus!
