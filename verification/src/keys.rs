//! Key material: pairwise Diffie-Hellman keys, the participants' long-lived
//! secret key shares, the individual public verification shares, and the
//! group public key.

use crate::encoding::{read_bytes32_at, read_u32_at, write_bytes};
use crate::error::Error;
use crate::field::{add_q, group_order, le_bytes_val, mul_q};
use crate::lagrange::{
    calculate_lagrange_coefficients, index_vals, lagrange_at_zero, lagrange_den,
};
use crate::point::{point_decode_err, point_of, valid_point_enc, GroupElement};
use crate::scalar::FieldScalar;
use crate::vss::{commitment_eval, poly_eval, VerifiableSecretSharingCommitment};
use crate::wipe::zeroize_bytes32;
use vstd::bytes::{spec_u32_from_le_bytes, spec_u32_to_le_bytes};
use vstd::prelude::*;

verus! {

/// A Diffie-Hellman private key, used to derive the pairwise symmetric keys
/// that encrypt secret shares.
#[derive(Clone, Copy)]
pub struct DHPrivateKey(pub FieldScalar);

impl DHPrivateKey {
    pub open spec fn wf(&self) -> bool {
        self.0.wf()
    }

    /// Serialise this private key.
    pub fn to_bytes(&self) -> (r: [u8; 32])
        ensures
            r@ == self.0.bytes@,
    {
        self.0.to_bytes()
    }

    /// Deserialise a private key; the scalar must be canonical.
    pub fn from_bytes(bytes: &[u8]) -> (r: Result<DHPrivateKey, Error>)
        ensures
            r is Ok <==> bytes@.len() >= 32 && le_bytes_val(bytes@.subrange(0, 32))
                < group_order(),
            r matches Ok(k) ==> k.wf() && k.0.bytes@ == bytes@.subrange(0, 32),
            r matches Err(e) ==> e == Error::SerialisationError,
    {
        if bytes.len() < 32 {
            return Err(Error::SerialisationError);
        }
        match FieldScalar::from_bytes(&read_bytes32_at(bytes, 0)) {
            Some(s) => Ok(DHPrivateKey(s)),
            None => Err(Error::SerialisationError),
        }
    }

    /// Overwrite the key with zero.
    pub fn zeroize(&mut self)
        ensures
            final(self).0@ == 0,
    {
        zeroize_bytes32(&mut self.0.bytes);
        proof {
            crate::scalar::lemma_all_zero_val(self.0.bytes@);
        }
    }
}

/// A Diffie-Hellman public key.
#[derive(Clone, Copy)]
pub struct DHPublicKey(pub GroupElement);

impl DHPublicKey {
    pub open spec fn wf(&self) -> bool {
        self.0.wf()
    }

    /// Serialise this public key.
    pub fn to_bytes(&self) -> (r: [u8; 32])
        ensures
            r@ == self.0.enc(),
    {
        self.0.to_bytes()
    }

    /// Deserialise a public key; the bytes must canonically encode a
    /// prime-order subgroup element.
    pub fn from_bytes(bytes: &[u8]) -> (r: Result<DHPublicKey, Error>)
        ensures
            r is Ok <==> bytes@.len() >= 32 && valid_point_enc(bytes@.subrange(0, 32)),
            r matches Ok(k) ==> k.wf() && k.0.enc() == bytes@.subrange(0, 32),
            r matches Err(e) ==> e == (if bytes@.len() < 32 {
                Error::SerialisationError
            } else {
                point_decode_err(bytes@.subrange(0, 32))
            }),
    {
        if bytes.len() < 32 {
            return Err(Error::SerialisationError);
        }
        match GroupElement::decode(&read_bytes32_at(bytes, 0)) {
            Ok(p) => Ok(DHPublicKey(p)),
            Err(e) => Err(e),
        }
    }
}

/// The terms of the public-share sum: for each commitment, the Lagrange
/// coefficient of its dealer times its polynomial evaluated at `x`.
pub open spec fn ipk_terms(
    commitments: Seq<VerifiableSecretSharingCommitment>,
    x: nat,
) -> Seq<nat> {
    let indices = commitments.map(|k: int, c: VerifiableSecretSharingCommitment| c.index as nat);
    Seq::new(
        commitments.len(),
        |k: int|
            mul_q(
                lagrange_at_zero(commitments[k].index as nat, indices),
                poly_eval(commitments[k].logs(), x),
            ),
    )
}

/// A sum of residues, accumulated left to right.
pub open spec fn sum_q(s: Seq<nat>) -> nat
    decreases s.len(),
{
    if s.len() == 0 {
        0
    } else {
        add_q(sum_q(s.drop_last()), s.last())
    }
}

/// All Lagrange denominators over a set of dealer indices are nonzero; with
/// distinct nonzero indices this always holds on the actual field.
pub open spec fn lagrange_dens_nonzero(indices: Seq<nat>) -> bool {
    forall|k: int|
        0 <= k < indices.len() ==> lagrange_den(#[trigger] indices[k], indices) != 0
}

/// The dealer index values of a sequence of commitments.
pub open spec fn commitment_indices(s: Seq<VerifiableSecretSharingCommitment>) -> Seq<nat> {
    s.map(|k: int, c: VerifiableSecretSharingCommitment| c.index as nat)
}

/// Whether every commitment in the sequence is well-formed.
pub open spec fn commitments_wf(s: Seq<VerifiableSecretSharingCommitment>) -> bool {
    forall|k: int| 0 <= k < s.len() ==> (#[trigger] s[k]).wf()
}

/// A public verification share for a participant: the public half of a
/// [`SecretKey`].
#[derive(Clone)]
pub struct IndividualPublicKey {
    /// The participant index to which this key belongs.
    pub index: u32,
    /// The public verification share.
    pub share: GroupElement,
}

impl IndividualPublicKey {
    pub open spec fn wf(&self) -> bool {
        self.share.wf()
    }

    /// Recompute the public verification share of participant
    /// `participant_index` from the dealers' commitments alone: the sum over
    /// dealers of the Lagrange-weighted commitment polynomial evaluations.
    pub fn generate_from_commitments(
        participant_index: u32,
        commitments: &[VerifiableSecretSharingCommitment],
    ) -> (r: IndividualPublicKey)
        requires
            commitments_wf(commitments@),
            lagrange_dens_nonzero(commitment_indices(commitments@)),
        ensures
            r.wf(),
            r.index == participant_index,
            r.share@ == sum_q(ipk_terms(commitments@, participant_index as nat)),
    {
        let term = FieldScalar::from_u32(participant_index);
        let mut index_vector: Vec<u32> = Vec::new();
        let n: usize = commitments.len();
        let mut i: usize = 0;
        while i < n
            invariant
                i <= n,
                n == commitments@.len(),
                index_vector@.len() == i,
                forall|k: int| 0 <= k < i ==> index_vector@[k] == commitments@[k].index,
            decreases n - i,
        {
            index_vector.push(commitments[i].index);
            i += 1;
        }
        proof {
            assert(index_vals(index_vector@) =~= commitment_indices(commitments@));
        }
        let mut share = GroupElement::identity();
        let ghost terms = ipk_terms(commitments@, participant_index as nat);
        let mut k: usize = 0;
        proof {
            assert(terms.take(0) =~= Seq::<nat>::empty());
        }
        while k < n
            invariant
                k <= n,
                n == commitments@.len(),
                commitments_wf(commitments@),
                lagrange_dens_nonzero(commitment_indices(commitments@)),
                term.wf(),
                term@ == participant_index as nat,
                index_vals(index_vector@) == commitment_indices(commitments@),
                terms == ipk_terms(commitments@, participant_index as nat),
                share.wf(),
                share@ == sum_q(terms.take(k as int)),
            decreases n - k,
        {
            let tmp = commitment_eval(&commitments[k], &term);
            let coeff = match calculate_lagrange_coefficients(
                &commitments[k].index,
                index_vector.as_slice(),
            ) {
                Ok(c) => c,
                Err(_) => {
                    proof {
                        assert(lagrange_den(
                            commitment_indices(commitments@)[k as int],
                            commitment_indices(commitments@),
                        ) != 0);
                    }
                    vstd::pervasive::unreached()
                },
            };
            share = share.add(&tmp.scalar_mul(&coeff));
            proof {
                assert(terms.take(k + 1).drop_last() =~= terms.take(k as int));
                assert(terms.take(k + 1).last() == terms[k as int]);
            }
            k += 1;
        }
        proof {
            assert(terms.take(n as int) =~= terms);
        }
        IndividualPublicKey { index: participant_index, share }
    }

    /// Check this public verification share against the dealers'
    /// commitments: accepted exactly when it encodes the Lagrange-weighted
    /// sum of the commitment polynomials evaluated at the holder's index.
    pub fn verify(&self, commitments: &[VerifiableSecretSharingCommitment]) -> (r: Result<
        (),
        Error,
    >)
        requires
            self.wf(),
            commitments_wf(commitments@),
            lagrange_dens_nonzero(commitment_indices(commitments@)),
        ensures
            r is Ok <==> point_of(self.share@) == point_of(
                sum_q(ipk_terms(commitments@, self.index as nat)),
            ),
            r matches Err(e) ==> e == Error::ShareVerificationError,
    {
        let expected = IndividualPublicKey::generate_from_commitments(self.index, commitments);
        if self.share.ct_eq(&expected.share) {
            Ok(())
        } else {
            Err(Error::ShareVerificationError)
        }
    }

    /// The 36-byte layout: `index(4) || share(32)`.
    pub open spec fn enc(&self) -> Seq<u8> {
        spec_u32_to_le_bytes(self.index) + self.share.enc()
    }

    /// Serialise this public verification share.
    pub fn to_bytes(&self) -> (r: [u8; 36])
        ensures
            r@ == self.enc(),
    {
        let mut res = [0u8; 36];
        let idx = vstd::bytes::u32_to_le_bytes(self.index);
        write_bytes(&mut res, 0, idx.as_slice());
        write_bytes(&mut res, 4, self.share.bytes.as_slice());
        proof {
            assert(res@ =~= self.enc());
        }
        res
    }

    /// Deserialise a public verification share.
    pub fn from_bytes(bytes: &[u8]) -> (r: Result<IndividualPublicKey, Error>)
        ensures
            r is Ok <==> bytes@.len() >= 36 && valid_point_enc(bytes@.subrange(4, 36)),
            r matches Ok(k) ==> k.wf() && k.index == spec_u32_from_le_bytes(bytes@.subrange(0, 4))
                && k.share.enc() == bytes@.subrange(4, 36),
            r matches Err(e) ==> e == (if bytes@.len() < 36 {
                Error::SerialisationError
            } else {
                point_decode_err(bytes@.subrange(4, 36))
            }),
    {
        if bytes.len() < 36 {
            return Err(Error::SerialisationError);
        }
        let index = read_u32_at(bytes, 0);
        match GroupElement::decode(&read_bytes32_at(bytes, 4)) {
            Ok(share) => Ok(IndividualPublicKey { index, share }),
            Err(e) => Err(e),
        }
    }
}

/// A participant's long-lived secret share of the group signing key.
#[derive(Clone)]
pub struct SecretKey {
    /// The participant index to which this key belongs.
    pub index: u32,
    /// The secret share of the group signing key.
    pub key: FieldScalar,
}

impl SecretKey {
    pub open spec fn wf(&self) -> bool {
        self.key.wf()
    }

    /// Derive the corresponding public verification share.
    pub fn to_public(&self) -> (r: IndividualPublicKey)
        requires
            self.wf(),
        ensures
            r.wf(),
            r.index == self.index,
            r.share@ == self.key@,
    {
        let share = GroupElement::base_mul(&self.key);
        IndividualPublicKey { index: self.index, share }
    }

    /// The 36-byte layout: `index(4) || key(32)`.
    pub open spec fn enc(&self) -> Seq<u8> {
        spec_u32_to_le_bytes(self.index) + self.key.bytes@
    }

    /// Serialise this secret key.
    pub fn to_bytes(&self) -> (r: [u8; 36])
        ensures
            r@ == self.enc(),
    {
        let mut res = [0u8; 36];
        let idx = vstd::bytes::u32_to_le_bytes(self.index);
        write_bytes(&mut res, 0, idx.as_slice());
        write_bytes(&mut res, 4, self.key.bytes.as_slice());
        proof {
            assert(res@ =~= self.enc());
        }
        res
    }

    /// Deserialise a secret key; the scalar must be canonical.
    pub fn from_bytes(bytes: &[u8]) -> (r: Result<SecretKey, Error>)
        ensures
            r is Ok <==> bytes@.len() >= 36 && le_bytes_val(bytes@.subrange(4, 36))
                < group_order(),
            r matches Ok(k) ==> k.wf() && k.index == spec_u32_from_le_bytes(bytes@.subrange(0, 4))
                && k.key.bytes@ == bytes@.subrange(4, 36),
            r matches Err(e) ==> e == Error::SerialisationError,
    {
        if bytes.len() < 36 {
            return Err(Error::SerialisationError);
        }
        let index = read_u32_at(bytes, 0);
        match FieldScalar::from_bytes(&read_bytes32_at(bytes, 4)) {
            Some(key) => Ok(SecretKey { index, key }),
            None => Err(Error::SerialisationError),
        }
    }

    /// Overwrite the key with zero.
    pub fn zeroize(&mut self)
        ensures
            final(self).key@ == 0,
            final(self).index == old(self).index,
    {
        zeroize_bytes32(&mut self.key.bytes);
        proof {
            crate::scalar::lemma_all_zero_val(self.key.bytes@);
        }
    }
}

/// The group public key, used to verify threshold signatures.
#[derive(Clone, Copy)]
pub struct GroupKey(pub GroupElement);

impl GroupKey {
    pub open spec fn wf(&self) -> bool {
        self.0.wf()
    }

    /// Constant-time equality of the canonical encodings.
    pub fn ct_eq(&self, other: &GroupKey) -> (r: bool)
        ensures
            r == (self.0.enc() =~= other.0.enc()),
            self.wf() && other.wf() && self.0@ == other.0@ ==> r,
    {
        self.0.ct_eq(&other.0)
    }

    /// Serialise this group key.
    pub fn to_bytes(&self) -> (r: [u8; 32])
        ensures
            r@ == self.0.enc(),
    {
        self.0.to_bytes()
    }

    /// Deserialise a group key; the bytes must canonically encode a
    /// prime-order subgroup element.
    pub fn from_bytes(bytes: &[u8; 32]) -> (r: Result<GroupKey, Error>)
        ensures
            r is Ok <==> valid_point_enc(bytes@),
            r matches Ok(k) ==> k.wf() && k.0.enc() == bytes@,
            r matches Err(e) ==> e == point_decode_err(bytes@),
    {
        match GroupElement::decode(bytes) {
            Ok(p) => Ok(GroupKey(p)),
            Err(e) => Err(e),
        }
    }
}

} // verus!
