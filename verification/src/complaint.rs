//! Complaints: publicly verifiable accusations that a sender delivered an
//! invalid encrypted share.
//!
//! A complaint carries the pairwise Diffie-Hellman key it was decrypted
//! with, and a non-interactive Chaum-Pedersen proof that this key really is
//! the shared key of the maker and the accused: `a1`, `a2`, `z` prove that
//! the maker's public key and the named key share the same discrete
//! logarithm relative to the basepoint and the accused's public key.

use crate::encoding::{extend_bytes, read_bytes32_at, read_u32_at, write_bytes};
use crate::error::Error;
use crate::field::{add_q, group_order, le_bytes_val, mul_q};
use crate::hash::{hash_to_scalar, wide_hash_scalar};
use crate::point::{point_decode_err, point_of, valid_point_enc, GroupElement};
use crate::scalar::FieldScalar;
use vstd::bytes::{spec_u32_from_le_bytes, spec_u32_to_le_bytes};
use vstd::prelude::*;

verus! {

/// A proof that a generated complaint is valid: a Chaum-Pedersen equality
/// of discrete logarithms.
#[derive(Clone, Copy)]
pub struct ComplaintProof {
    /// The commitment `r * B`.
    pub a1: GroupElement,
    /// The commitment `r * pk_accused`.
    pub a2: GroupElement,
    /// The response `r + h * dh_sk_maker`.
    pub z: FieldScalar,
}

/// A complaint generated when a participant receives a bad share.
#[derive(Clone, Copy)]
pub struct Complaint {
    /// The index of the complaint maker.
    pub maker_index: u32,
    /// The index of the alleged misbehaving participant.
    pub accused_index: u32,
    /// The shared Diffie-Hellman key of maker and accused.
    pub dh_key: GroupElement,
    /// The complaint proof.
    pub proof: ComplaintProof,
}

impl ComplaintProof {
    pub open spec fn wf(&self) -> bool {
        self.a1.wf() && self.a2.wf() && self.z.wf()
    }

    /// The 96-byte layout: `a1(32) || a2(32) || z(32)`.
    pub open spec fn enc(&self) -> Seq<u8> {
        self.a1.enc() + self.a2.enc() + self.z.bytes@
    }

    /// Serialise this complaint proof.
    pub fn to_bytes(&self) -> (r: [u8; 96])
        ensures
            r@ == self.enc(),
    {
        let mut res = [0u8; 96];
        write_bytes(&mut res, 0, self.a1.bytes.as_slice());
        write_bytes(&mut res, 32, self.a2.bytes.as_slice());
        write_bytes(&mut res, 64, self.z.bytes.as_slice());
        proof {
            assert(res@ =~= self.enc());
        }
        res
    }

    /// Deserialise a complaint proof; each point must be a canonical
    /// encoding of a subgroup element and the scalar must be canonical.
    pub fn from_bytes(bytes: &[u8]) -> (r: Result<ComplaintProof, Error>)
        ensures
            r is Ok <==> bytes@.len() >= 96 && valid_point_enc(bytes@.subrange(0, 32))
                && valid_point_enc(bytes@.subrange(32, 64)) && le_bytes_val(
                bytes@.subrange(64, 96),
            ) < group_order(),
            r matches Ok(p) ==> {
                &&& p.wf()
                &&& p.a1.enc() == bytes@.subrange(0, 32)
                &&& p.a2.enc() == bytes@.subrange(32, 64)
                &&& p.z.bytes@ == bytes@.subrange(64, 96)
            },
            r matches Err(e) ==> e == complaint_proof_decode_err(bytes@),
    {
        if bytes.len() < 96 {
            return Err(Error::SerialisationError);
        }
        let a1 = match GroupElement::decode(&read_bytes32_at(bytes, 0)) {
            Ok(p) => p,
            Err(e) => { return Err(e) },
        };
        let a2 = match GroupElement::decode(&read_bytes32_at(bytes, 32)) {
            Ok(p) => p,
            Err(e) => { return Err(e) },
        };
        let z = match FieldScalar::from_bytes(&read_bytes32_at(bytes, 64)) {
            Some(z) => z,
            None => { return Err(Error::SerialisationError) },
        };
        Ok(ComplaintProof { a1, a2, z })
    }
}

/// The error reported when decoding a complaint proof fails.
pub open spec fn complaint_proof_decode_err(bytes: Seq<u8>) -> Error {
    if bytes.len() < 96 {
        Error::SerialisationError
    } else if !valid_point_enc(bytes.subrange(0, 32)) {
        point_decode_err(bytes.subrange(0, 32))
    } else if !valid_point_enc(bytes.subrange(32, 64)) {
        point_decode_err(bytes.subrange(32, 64))
    } else {
        Error::SerialisationError
    }
}

/// The transcript hashed to the Chaum-Pedersen challenge: the maker's public
/// key, the accused's public key, the asserted shared key, and the two
/// commitments.
pub open spec fn complaint_challenge(
    c: Complaint,
    pk_maker: GroupElement,
    pk_accused: GroupElement,
) -> nat {
    wide_hash_scalar(
        pk_maker.enc() + pk_accused.enc() + c.dh_key.enc() + c.proof.a1.enc() + c.proof.a2.enc(),
    )
}

/// Validity of a complaint against the two public keys: with challenge `h`,
/// the two Chaum-Pedersen equations hold: `a1 + h * pk_maker = z * B` and
/// `a2 + h * dh_key = z * pk_accused`.
pub open spec fn complaint_valid(
    c: Complaint,
    pk_maker: GroupElement,
    pk_accused: GroupElement,
) -> bool {
    let h = complaint_challenge(c, pk_maker, pk_accused);
    &&& point_of(add_q(c.proof.a1@, mul_q(h, pk_maker@))) == point_of(c.proof.z@)
    &&& point_of(add_q(c.proof.a2@, mul_q(h, c.dh_key@))) == point_of(
        mul_q(c.proof.z@, pk_accused@),
    )
}

impl Complaint {
    pub open spec fn wf(&self) -> bool {
        self.proof.wf() && self.dh_key.wf()
    }

    /// The 136-byte layout: `maker(4) || accused(4) || dh_key(32) || proof(96)`.
    pub open spec fn enc(&self) -> Seq<u8> {
        spec_u32_to_le_bytes(self.maker_index) + spec_u32_to_le_bytes(self.accused_index)
            + self.dh_key.enc() + self.proof.enc()
    }

    /// Verify this complaint against the maker's and the accused's public
    /// keys.  It is accepted exactly when both Chaum-Pedersen equations
    /// hold.
    pub fn verify(&self, pk_maker: &GroupElement, pk_accused: &GroupElement) -> (r: Result<
        (),
        Error,
    >)
        requires
            self.wf(),
            pk_maker.wf(),
            pk_accused.wf(),
        ensures
            r is Ok <==> complaint_valid(*self, *pk_maker, *pk_accused),
            r matches Err(e) ==> e == Error::ComplaintVerificationError,
    {
        // Reject byte-level tampering of caller-held values before any
        // curve operation; for well-formed inputs these checks pass.
        if !(self.dh_key.check_valid() && self.proof.a1.check_valid()
            && self.proof.a2.check_valid() && self.proof.z.check_canonical()) {
            return Err(Error::ComplaintVerificationError);
        }
        let mut transcript: Vec<u8> = Vec::new();
        let pkm = pk_maker.to_bytes();
        extend_bytes(&mut transcript, pkm.as_slice());
        let pka = pk_accused.to_bytes();
        extend_bytes(&mut transcript, pka.as_slice());
        let dhk = self.dh_key.to_bytes();
        extend_bytes(&mut transcript, dhk.as_slice());
        let a1b = self.proof.a1.to_bytes();
        extend_bytes(&mut transcript, a1b.as_slice());
        let a2b = self.proof.a2.to_bytes();
        extend_bytes(&mut transcript, a2b.as_slice());
        let h = hash_to_scalar(&transcript);
        proof {
            assert(transcript@ == pk_maker.enc() + pk_accused.enc() + self.dh_key.enc()
                + self.proof.a1.enc() + self.proof.a2.enc());
        }
        let lhs1 = self.proof.a1.add(&pk_maker.scalar_mul(&h));
        let rhs1 = GroupElement::base_mul(&self.proof.z);
        let ok1 = lhs1.ct_eq(&rhs1);
        let lhs2 = self.proof.a2.add(&self.dh_key.scalar_mul(&h));
        let rhs2 = pk_accused.scalar_mul(&self.proof.z);
        let ok2 = lhs2.ct_eq(&rhs2);
        if ok1 && ok2 {
            Ok(())
        } else {
            Err(Error::ComplaintVerificationError)
        }
    }

    /// Serialise this complaint.
    pub fn to_bytes(&self) -> (r: [u8; 136])
        ensures
            r@ == self.enc(),
    {
        let mut res = [0u8; 136];
        let maker = vstd::bytes::u32_to_le_bytes(self.maker_index);
        write_bytes(&mut res, 0, maker.as_slice());
        let accused = vstd::bytes::u32_to_le_bytes(self.accused_index);
        write_bytes(&mut res, 4, accused.as_slice());
        write_bytes(&mut res, 8, self.dh_key.bytes.as_slice());
        let proof_bytes = self.proof.to_bytes();
        write_bytes(&mut res, 40, proof_bytes.as_slice());
        proof {
            assert(res@ =~= self.enc());
        }
        res
    }

    /// Deserialise a complaint.
    pub fn from_bytes(bytes: &[u8]) -> (r: Result<Complaint, Error>)
        ensures
            r is Ok <==> bytes@.len() >= 136 && valid_point_enc(bytes@.subrange(8, 40))
                && valid_point_enc(bytes@.subrange(40, 72)) && valid_point_enc(
                bytes@.subrange(72, 104),
            ) && le_bytes_val(bytes@.subrange(104, 136)) < group_order(),
            r matches Ok(c) ==> {
                &&& c.wf()
                &&& c.maker_index == spec_u32_from_le_bytes(bytes@.subrange(0, 4))
                &&& c.accused_index == spec_u32_from_le_bytes(bytes@.subrange(4, 8))
                &&& c.dh_key.enc() == bytes@.subrange(8, 40)
                &&& c.proof.a1.enc() == bytes@.subrange(40, 72)
                &&& c.proof.a2.enc() == bytes@.subrange(72, 104)
                &&& c.proof.z.bytes@ == bytes@.subrange(104, 136)
            },
            r matches Err(e) ==> e == complaint_decode_err(bytes@),
    {
        if bytes.len() < 136 {
            return Err(Error::SerialisationError);
        }
        let maker_index = read_u32_at(bytes, 0);
        let accused_index = read_u32_at(bytes, 4);
        let dh_key = match GroupElement::decode(&read_bytes32_at(bytes, 8)) {
            Ok(p) => p,
            Err(e) => { return Err(e) },
        };
        let proof_slice = vstd::slice::slice_subrange(bytes, 40, bytes.len());
        let proof = match ComplaintProof::from_bytes(proof_slice) {
            Ok(p) => p,
            Err(e) => {
                proof {
                    lemma_complaint_proof_subranges(bytes@);
                }
                return Err(e);
            },
        };
        proof {
            lemma_complaint_proof_subranges(bytes@);
        }
        Ok(Complaint { maker_index, accused_index, dh_key, proof })
    }
}

/// The error reported when decoding a complaint fails.
pub open spec fn complaint_decode_err(bytes: Seq<u8>) -> Error {
    if bytes.len() < 136 {
        Error::SerialisationError
    } else if !valid_point_enc(bytes.subrange(8, 40)) {
        point_decode_err(bytes.subrange(8, 40))
    } else {
        complaint_proof_decode_err(bytes.subrange(40, bytes.len() as int))
    }
}

/// The proof subranges of a serialised complaint line up with the subranges
/// of its proof segment.
proof fn lemma_complaint_proof_subranges(bytes: Seq<u8>)
    requires
        bytes.len() >= 136,
    ensures
        bytes.subrange(40, bytes.len() as int).subrange(0, 32) =~= bytes.subrange(40, 72),
        bytes.subrange(40, bytes.len() as int).subrange(32, 64) =~= bytes.subrange(72, 104),
        bytes.subrange(40, bytes.len() as int).subrange(64, 96) =~= bytes.subrange(104, 136),
        bytes.subrange(40, bytes.len() as int).len() >= 96,
{
}

} // verus!
