//! Schnorr-style non-interactive zero-knowledge proofs of knowledge of a
//! discrete logarithm, bound to a participant index and a context string.

use crate::encoding::{extend_bytes, read_bytes32_at, write_bytes};
use crate::error::Error;
use crate::field::{
    add_q, group_order, le_bytes_val, lemma_schnorr_cancel, mul_q, neg_q,
};
use crate::hash::{hash_to_scalar, wide_hash_scalar};
use crate::point::{point_of, GroupElement};
use crate::scalar::FieldScalar;
use vstd::bytes::spec_u32_to_le_bytes;
use vstd::string::StringSliceAdditionalSpecFns;
use vstd::prelude::*;

verus! {

/// A proof of knowledge of a secret key: the challenge scalar `s` and the
/// response scalar `r` of a Schnorr signature.
#[derive(Clone, Copy, Debug, PartialEq, Eq)]
pub struct NizkOfSecretKey {
    /// The challenge scalar.
    pub s: FieldScalar,
    /// The response scalar.
    pub r: FieldScalar,
}

/// The Fiat-Shamir challenge: the hash of the context string, the prover's
/// index, the public key, and the commitment point.
pub open spec fn nizk_challenge(ctx: Seq<u8>, index: u32, pk: GroupElement, m_enc: Seq<u8>) -> nat {
    wide_hash_scalar(ctx + spec_u32_to_le_bytes(index) + pk.enc() + m_enc)
}

/// Validity of a proof of knowledge for the given public key: both scalars
/// are canonical, and the challenge recomputed from `r * B - s * P` matches
/// `s`.
pub open spec fn nizk_valid(ctx: Seq<u8>, index: u32, pk: GroupElement, nizk: NizkOfSecretKey) -> bool {
    &&& nizk.s@ < group_order()
    &&& nizk.r@ < group_order()
    &&& nizk.s@ == nizk_challenge(
        ctx,
        index,
        pk,
        point_of(add_q(nizk.r@, mul_q(neg_q(nizk.s@), pk@))),
    )
}

impl NizkOfSecretKey {
    pub open spec fn wf(&self) -> bool {
        self.s.wf() && self.r.wf()
    }

    /// Prove knowledge of the discrete logarithm of `public_key`, bound to
    /// the prover's index and the context string.
    pub fn prove(
        index: &u32,
        secret_key: &FieldScalar,
        public_key: &GroupElement,
        context_string: &str,
    ) -> (result: NizkOfSecretKey)
        requires
            secret_key.wf(),
            public_key.wf(),
            public_key@ == secret_key@,
        ensures
            result.wf(),
            nizk_valid(context_string.spec_bytes(), *index, *public_key, result),
    {
        let k = FieldScalar::random();
        let commitment = GroupElement::base_mul(&k);
        let mut transcript: Vec<u8> = Vec::new();
        extend_bytes(&mut transcript, context_string.as_bytes());
        let idx = vstd::bytes::u32_to_le_bytes(*index);
        extend_bytes(&mut transcript, idx.as_slice());
        let pk_bytes = public_key.to_bytes();
        extend_bytes(&mut transcript, pk_bytes.as_slice());
        let m_bytes = commitment.to_bytes();
        extend_bytes(&mut transcript, m_bytes.as_slice());
        let s = hash_to_scalar(&transcript);
        let r = k.add(&s.mul(secret_key));
        proof {
            lemma_schnorr_cancel(k@, s@, secret_key@);
            assert(add_q(r@, mul_q(neg_q(s@), public_key@)) == k@);
            assert(transcript@ == context_string.spec_bytes() + spec_u32_to_le_bytes(*index)
                + public_key.enc() + commitment.enc());
        }
        NizkOfSecretKey { s, r }
    }

    /// Verify this proof of knowledge against the given index, public key
    /// and context string.
    pub fn verify(&self, index: &u32, public_key: &GroupElement, context_string: &str) -> (result:
        Result<(), Error>)
        requires
            public_key.wf(),
        ensures
            result is Ok <==> nizk_valid(
                context_string.spec_bytes(),
                *index,
                *public_key,
                *self,
            ),
            result matches Err(e) ==> e == Error::InvalidProofOfKnowledge,
    {
        if !(self.s.check_canonical() && self.r.check_canonical()) {
            return Err(Error::InvalidProofOfKnowledge);
        }
        let neg_s = self.s.neg();
        let commitment = GroupElement::base_mul(&self.r).add(&public_key.scalar_mul(&neg_s));
        let mut transcript: Vec<u8> = Vec::new();
        extend_bytes(&mut transcript, context_string.as_bytes());
        let idx = vstd::bytes::u32_to_le_bytes(*index);
        extend_bytes(&mut transcript, idx.as_slice());
        let pk_bytes = public_key.to_bytes();
        extend_bytes(&mut transcript, pk_bytes.as_slice());
        let m_bytes = commitment.to_bytes();
        extend_bytes(&mut transcript, m_bytes.as_slice());
        let challenge = hash_to_scalar(&transcript);
        proof {
            assert(transcript@ == context_string.spec_bytes() + spec_u32_to_le_bytes(*index)
                + public_key.enc() + commitment.enc());
        }
        if self.s.ct_eq(&challenge) {
            Ok(())
        } else {
            Err(Error::InvalidProofOfKnowledge)
        }
    }

    /// The 64-byte layout: `s(32) || r(32)`.
    pub open spec fn enc(&self) -> Seq<u8> {
        self.s.bytes@ + self.r.bytes@
    }

    /// Serialise this proof.
    pub fn to_bytes(&self) -> (result: [u8; 64])
        ensures
            result@ == self.enc(),
    {
        let mut res = [0u8; 64];
        write_bytes(&mut res, 0, self.s.bytes.as_slice());
        write_bytes(&mut res, 32, self.r.bytes.as_slice());
        proof {
            assert(res@ =~= self.enc());
        }
        res
    }

    /// Deserialise a proof; both scalars must be canonical.
    pub fn from_bytes(bytes: &[u8]) -> (result: Result<NizkOfSecretKey, Error>)
        ensures
            result is Ok <==> bytes@.len() >= 64 && le_bytes_val(bytes@.subrange(0, 32))
                < group_order() && le_bytes_val(bytes@.subrange(32, 64)) < group_order(),
            result matches Ok(p) ==> p.wf() && p.s.bytes@ == bytes@.subrange(0, 32) && p.r.bytes@
                == bytes@.subrange(32, 64),
            result matches Err(e) ==> e == Error::SerialisationError,
    {
        if bytes.len() < 64 {
            return Err(Error::SerialisationError);
        }
        let s = match FieldScalar::from_bytes(&read_bytes32_at(bytes, 0)) {
            Some(s) => s,
            None => { return Err(Error::SerialisationError) },
        };
        let r = match FieldScalar::from_bytes(&read_bytes32_at(bytes, 32)) {
            Some(r) => r,
            None => { return Err(Error::SerialisationError) },
        };
        Ok(NizkOfSecretKey { s, r })
    }
}

} // verus!
