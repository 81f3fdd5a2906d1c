//! Authenticated-at-sender symmetric encryption of secret shares.
//!
//! The pairwise Diffie-Hellman key of sender and receiver, encoded as a
//! compressed group element, is fed through HKDF-SHA512 (empty salt, empty
//! info) to derive an AES-256 key; the canonical 32-byte encoding of the
//! share scalar is then XORed with the AES-CTR keystream under a fresh
//! 16-byte nonce.  The cipher provides confidentiality only; integrity comes
//! from the Feldman verification of the decrypted share.

use aes::cipher::generic_array::GenericArray;
use aes::cipher::{FromBlockCipher, NewBlockCipher, StreamCipher};
use aes::{Aes256, Aes256Ctr};
use crate::encoding::{extend_bytes, extend_u32, read_bytes16_at, read_bytes32_at, read_u32_at, write_bytes};
use crate::error::Error;
use crate::field::{group_order, le_bytes_val};
use crate::scalar::FieldScalar;
use crate::vss::SecretShare;
use crate::wipe::{zeroize_bytes16, zeroize_bytes32};
use hkdf::Hkdf;
use rand::RngCore;
use sha2::Sha512;
use vstd::bytes::{spec_u32_from_le_bytes, spec_u32_to_le_bytes};
use vstd::prelude::*;

verus! {

/// The 32-byte keystream that AES-256-CTR produces under the key derived by
/// HKDF-SHA512 from `ikm` and the given nonce: a function of `ikm` and
/// `nonce` alone.
pub uninterp spec fn keystream_of(ikm: Seq<u8>, nonce: Seq<u8>) -> Seq<u8>;

/// XOR of a 32-byte string with the first 32 bytes of a keystream.
pub open spec fn xor32(data: Seq<u8>, ks: Seq<u8>) -> Seq<u8> {
    Seq::new(data.len(), |i: int| data[i] ^ ks[i])
}

/// XORing with the same keystream twice restores the data.
pub proof fn lemma_xor32_involutive(data: Seq<u8>, ks: Seq<u8>)
    ensures
        xor32(xor32(data, ks), ks) =~= data,
{
    assert forall|i: int| 0 <= i < data.len() implies xor32(xor32(data, ks), ks)[i] == data[i] by {
        let d = data[i];
        let k = ks[i];
        assert((d ^ k) ^ k == d) by (bit_vector);
    }
}

/// Relies on hkdf's `Hkdf::<Sha512>` (empty salt and info) and the aes
/// crate's `Aes256Ctr`: the result is the input XORed with a keystream that
/// is a function of the key material and the nonce alone.
#[verifier::external_body]
fn aes_ctr_xor(ikm: &[u8; 32], nonce: &[u8; 16], data: &[u8; 32]) -> (r: [u8; 32])
    ensures
        r@ == xor32(data@, keystream_of(ikm@, nonce@)),
{
    let hk = Hkdf::<Sha512>::new(None, &ikm[..]);
    let mut key = [0u8; 32];
    hk.expand(&[], &mut key).expect("HKDF expansion failed unexpectedly");
    let cipher = Aes256::new(GenericArray::from_slice(&key));
    let mut stream = Aes256Ctr::from_block_cipher(cipher, GenericArray::from_slice(&nonce[..]));
    let mut out = *data;
    stream.apply_keystream(&mut out);
    out
}

/// Relies on the operating system's CSPRNG via rand's `OsRng`: a fresh
/// 16-byte nonce.
#[verifier::external_body]
fn random_nonce() -> [u8; 16] {
    let mut nonce = [0u8; 16];
    rand::rngs::OsRng.fill_bytes(&mut nonce);
    nonce
}

/// A secret share encrypted for transport to its receiver.
#[derive(Clone, Copy, Debug, PartialEq, Eq)]
pub struct EncryptedSecretShare {
    /// The index of the share maker.
    pub sender_index: u32,
    /// The participant index that this secret share was calculated for.
    pub receiver_index: u32,
    /// The nonce used by AES-CTR.
    pub nonce: [u8; 16],
    /// The encrypted polynomial evaluation.
    pub encrypted_polynomial_evaluation: [u8; 32],
}

impl EncryptedSecretShare {
    /// The 56-byte layout:
    /// `sender(4) || receiver(4) || nonce(16) || ciphertext(32)`.
    pub open spec fn enc(&self) -> Seq<u8> {
        spec_u32_to_le_bytes(self.sender_index) + spec_u32_to_le_bytes(self.receiver_index)
            + self.nonce@ + self.encrypted_polynomial_evaluation@
    }

    /// Serialise this encrypted secret share.
    pub fn to_bytes(&self) -> (r: [u8; 56])
        ensures
            r@ == self.enc(),
    {
        let mut res = [0u8; 56];
        let sender = vstd::bytes::u32_to_le_bytes(self.sender_index);
        write_bytes(&mut res, 0, sender.as_slice());
        let receiver = vstd::bytes::u32_to_le_bytes(self.receiver_index);
        write_bytes(&mut res, 4, receiver.as_slice());
        write_bytes(&mut res, 8, self.nonce.as_slice());
        write_bytes(&mut res, 24, self.encrypted_polynomial_evaluation.as_slice());
        proof {
            assert(res@ =~= self.enc());
        }
        res
    }

    /// Deserialise an encrypted secret share.
    pub fn from_bytes(bytes: &[u8]) -> (r: Result<EncryptedSecretShare, Error>)
        ensures
            r is Ok <==> bytes@.len() >= 56,
            r matches Ok(s) ==> {
                &&& s.sender_index == spec_u32_from_le_bytes(bytes@.subrange(0, 4))
                &&& s.receiver_index == spec_u32_from_le_bytes(bytes@.subrange(4, 8))
                &&& s.nonce@ == bytes@.subrange(8, 24)
                &&& s.encrypted_polynomial_evaluation@ == bytes@.subrange(24, 56)
            },
            r matches Err(e) ==> e == Error::SerialisationError,
    {
        if bytes.len() < 56 {
            return Err(Error::SerialisationError);
        }
        let sender_index = read_u32_at(bytes, 0);
        let receiver_index = read_u32_at(bytes, 4);
        let nonce = read_bytes16_at(bytes, 8);
        let encrypted_polynomial_evaluation = read_bytes32_at(bytes, 24);
        Ok(EncryptedSecretShare { sender_index, receiver_index, nonce, encrypted_polynomial_evaluation })
    }

    /// Overwrite the nonce and ciphertext with zeros.
    pub fn zeroize(&mut self)
        ensures
            forall|j: int| 0 <= j < 16 ==> final(self).nonce@[j] == 0u8,
            forall|j: int| 0 <= j < 32 ==> final(self).encrypted_polynomial_evaluation@[j] == 0u8,
            final(self).sender_index == old(self).sender_index,
            final(self).receiver_index == old(self).receiver_index,
    {
        zeroize_bytes16(&mut self.nonce);
        zeroize_bytes32(&mut self.encrypted_polynomial_evaluation);
    }
}

/// Encrypt a share under the pairwise Diffie-Hellman key material, with a
/// fresh random nonce.
pub fn encrypt_share(share: &SecretShare, aes_key: &[u8; 32]) -> (r: EncryptedSecretShare)
    ensures
        r.sender_index == share.sender_index,
        r.receiver_index == share.receiver_index,
        r.encrypted_polynomial_evaluation@ == xor32(
            share.polynomial_evaluation.bytes@,
            keystream_of(aes_key@, r.nonce@),
        ),
{
    let nonce = random_nonce();
    let ciphertext = aes_ctr_xor(aes_key, &nonce, &share.polynomial_evaluation.bytes);
    EncryptedSecretShare {
        sender_index: share.sender_index,
        receiver_index: share.receiver_index,
        nonce,
        encrypted_polynomial_evaluation: ciphertext,
    }
}

/// Decrypt an encrypted share with the given key material; fails exactly
/// when the decrypted bytes are not a canonical scalar encoding.
pub fn decrypt_share(encrypted_share: &EncryptedSecretShare, aes_key: &[u8; 32]) -> (r: Result<
    SecretShare,
    Error,
>)
    ensures
        r is Ok <==> le_bytes_val(
            xor32(
                encrypted_share.encrypted_polynomial_evaluation@,
                keystream_of(aes_key@, encrypted_share.nonce@),
            ),
        ) < group_order(),
        r matches Ok(s) ==> {
            &&& s.sender_index == encrypted_share.sender_index
            &&& s.receiver_index == encrypted_share.receiver_index
            &&& s.polynomial_evaluation.wf()
            &&& s.polynomial_evaluation.bytes@ == xor32(
                encrypted_share.encrypted_polynomial_evaluation@,
                keystream_of(aes_key@, encrypted_share.nonce@),
            )
        },
        r matches Err(e) ==> e == Error::DecryptionError,
{
    let plaintext = aes_ctr_xor(
        aes_key,
        &encrypted_share.nonce,
        &encrypted_share.encrypted_polynomial_evaluation,
    );
    match FieldScalar::from_bytes(&plaintext) {
        Some(polynomial_evaluation) => Ok(
            SecretShare {
                sender_index: encrypted_share.sender_index,
                receiver_index: encrypted_share.receiver_index,
                polynomial_evaluation,
            },
        ),
        None => Err(Error::DecryptionError),
    }
}

/// Decrypting an honestly encrypted share with the same key material
/// recovers the original polynomial evaluation.
pub proof fn lemma_encrypt_decrypt_roundtrip(
    value: Seq<u8>,
    ikm: Seq<u8>,
    nonce: Seq<u8>,
)
    requires
        value.len() == 32,
        le_bytes_val(value) < group_order(),
    ensures
        le_bytes_val(xor32(xor32(value, keystream_of(ikm, nonce)), keystream_of(ikm, nonce)))
            < group_order(),
        xor32(xor32(value, keystream_of(ikm, nonce)), keystream_of(ikm, nonce)) =~= value,
{
    lemma_xor32_involutive(value, keystream_of(ikm, nonce));
}

} // verus!
