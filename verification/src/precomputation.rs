//! Precomputation for one-round signing: commitment shares over the
//! Ristretto group.
//!
//! A signer publishes pairs of hiding and binding commitments ahead of
//! time, keeping the committed nonces secret.  The Ristretto group is
//! cyclic of the same prime order as the Edwards subgroup, and every
//! element has a unique canonical encoding; `ristretto_of` names the
//! encoding of each multiple of the Ristretto basepoint.

use crate::encoding::{chunk_at, extend_bytes, extend_u32, read_bytes32_at, read_u32_at, write_bytes};
use crate::error::Error;
use crate::field::{group_order, le_bytes_val};
use crate::scalar::{ct_eq_bytes32, FieldScalar};
use crate::wipe::zeroize_bytes32;
use curve25519_dalek::traits::Identity;
use vstd::bytes::{spec_u32_from_le_bytes, spec_u32_to_le_bytes};
use vstd::pervasive::VecAdditionalExecFns;
use vstd::prelude::*;

verus! {

/// The canonical encoding of `x` times the Ristretto basepoint.
pub uninterp spec fn ristretto_of(x: nat) -> Seq<u8>;

/// A canonical encoding of a Ristretto group element.
pub open spec fn valid_ristretto_enc(s: Seq<u8>) -> bool {
    exists|x: nat| x < group_order() && s == #[trigger] ristretto_of(x)
}

/// A preimage of a valid encoding under `ristretto_of`.
pub open spec fn ristretto_log_of_enc(s: Seq<u8>) -> nat {
    choose|x: nat| x < group_order() && s == #[trigger] ristretto_of(x)
}

/// Relies on curve25519_dalek's `RISTRETTO_BASEPOINT_TABLE` multiplication
/// and `compress`: the canonical encoding of the scalar times the
/// basepoint.
#[verifier::external_body]
fn rist_base_mul_bytes(s: &[u8; 32]) -> (r: [u8; 32])
    requires
        le_bytes_val(s@) < group_order(),
    ensures
        r@ == ristretto_of(le_bytes_val(s@)),
{
    let x = curve25519_dalek::scalar::Scalar::from_canonical_bytes(*s).unwrap();
    (&curve25519_dalek::constants::RISTRETTO_BASEPOINT_TABLE * &x).compress().to_bytes()
}

/// Relies on curve25519_dalek's `RistrettoPoint::identity` and `compress`:
/// the canonical encoding of the neutral element.
#[verifier::external_body]
fn rist_identity_bytes() -> (r: [u8; 32])
    ensures
        r@ == ristretto_of(0),
{
    curve25519_dalek::ristretto::RistrettoPoint::identity().compress().to_bytes()
}

/// Relies on curve25519_dalek's `CompressedRistretto::decompress`: it
/// succeeds exactly on the canonical encodings of Ristretto group
/// elements, each of which is a multiple of the basepoint.
#[verifier::external_body]
fn rist_check_bytes(b: &[u8; 32]) -> (r: bool)
    ensures
        r == valid_ristretto_enc(b@),
{
    curve25519_dalek::ristretto::CompressedRistretto(*b).decompress().is_some()
}

/// An element of the Ristretto group, held as its canonical encoding.
#[derive(Clone, Copy)]
pub struct RistrettoElement {
    pub bytes: [u8; 32],
    pub log: Ghost<nat>,
}

impl RistrettoElement {
    /// A well-formed element: the bytes encode the ghost logarithm.
    pub open spec fn wf(&self) -> bool {
        self.log@ < group_order() && self.bytes@ == ristretto_of(self.log@)
    }

    /// The canonical encoding.
    pub open spec fn enc(&self) -> Seq<u8> {
        self.bytes@
    }

    /// The neutral element.
    pub fn identity() -> (r: RistrettoElement)
        ensures
            r.wf(),
            r.log@ == 0,
    {
        RistrettoElement { bytes: rist_identity_bytes(), log: Ghost(0) }
    }

    /// The scalar times the Ristretto basepoint.
    pub fn base_mul(s: &FieldScalar) -> (r: RistrettoElement)
        requires
            s.wf(),
        ensures
            r.wf(),
            r.log@ == s@,
    {
        RistrettoElement { bytes: rist_base_mul_bytes(&s.bytes), log: Ghost(s@) }
    }

    /// Constant-time equality of encodings.
    pub fn ct_eq(&self, other: &RistrettoElement) -> (r: bool)
        ensures
            r == (self.enc() =~= other.enc()),
    {
        ct_eq_bytes32(&self.bytes, &other.bytes)
    }

    /// The encoding as an owned array.
    pub fn to_bytes(&self) -> (r: [u8; 32])
        ensures
            r@ == self.enc(),
    {
        self.bytes
    }

    /// Decode a Ristretto encoding; rejects anything that is not the
    /// canonical encoding of a group element.
    pub fn decode(bytes: &[u8; 32]) -> (r: Result<RistrettoElement, Error>)
        ensures
            r is Ok <==> valid_ristretto_enc(bytes@),
            r matches Ok(p) ==> p.wf() && p.enc() == bytes@,
            r matches Err(e) ==> e == Error::SerialisationError,
    {
        if rist_check_bytes(bytes) {
            Ok(RistrettoElement { bytes: *bytes, log: Ghost(ristretto_log_of_enc(bytes@)) })
        } else {
            Err(Error::SerialisationError)
        }
    }
}

/// A pair of secret nonces, committed to by a [`CommitmentShare`].
pub struct NoncePair(pub FieldScalar, pub FieldScalar);

impl NoncePair {
    /// Draw a fresh pair of nonces from the system CSPRNG.
    pub fn new() -> (r: NoncePair)
        ensures
            r.0.wf(),
            r.1.wf(),
    {
        NoncePair(FieldScalar::random(), FieldScalar::random())
    }

    /// Commit to this pair of nonces.
    pub fn commit(self) -> (r: CommitmentShare)
        requires
            self.0.wf(),
            self.1.wf(),
        ensures
            r.wf(),
            r.hiding.nonce == self.0,
            r.binding.nonce == self.1,
            r.hiding.sealed.log@ == self.0@,
            r.binding.sealed.log@ == self.1@,
    {
        let x = RistrettoElement::base_mul(&self.0);
        let y = RistrettoElement::base_mul(&self.1);
        CommitmentShare {
            hiding: Commitment { nonce: self.0, sealed: x },
            binding: Commitment { nonce: self.1, sealed: y },
        }
    }
}

/// A nonce and the commitment to it.
#[derive(Clone, Copy)]
pub struct Commitment {
    /// The secret nonce.
    pub nonce: FieldScalar,
    /// The commitment: the nonce times the Ristretto basepoint.
    pub sealed: RistrettoElement,
}

/// Byte-level equality of two commitments, as the constant-time comparison
/// decides it.
pub open spec fn commitment_bytes_eq(a: Commitment, b: Commitment) -> bool {
    a.nonce.bytes@ == b.nonce.bytes@ && a.sealed.enc() == b.sealed.enc()
}

impl Commitment {
    pub open spec fn wf(&self) -> bool {
        self.nonce.wf() && self.sealed.wf()
    }

    /// Overwrite the nonce with zero and the commitment with the neutral
    /// element.
    pub fn zeroize(&mut self)
        ensures
            final(self).nonce@ == 0,
            final(self).sealed.log@ == 0,
            final(self).sealed.wf(),
    {
        zeroize_bytes32(&mut self.nonce.bytes);
        proof {
            crate::scalar::lemma_all_zero_val(self.nonce.bytes@);
        }
        self.sealed = RistrettoElement::identity();
    }

    /// Constant-time equality of nonce and commitment encodings.
    pub fn ct_eq(&self, other: &Commitment) -> (r: bool)
        ensures
            r == commitment_bytes_eq(*self, *other),
    {
        let n = ct_eq_bytes32(&self.nonce.bytes, &other.nonce.bytes);
        let s = self.sealed.ct_eq(&other.sealed);
        n && s
    }

    /// The 64-byte layout: `nonce(32) || sealed(32)`.
    pub open spec fn enc(&self) -> Seq<u8> {
        self.nonce.bytes@ + self.sealed.enc()
    }

    /// Serialise this commitment.
    pub fn to_bytes(&self) -> (r: [u8; 64])
        ensures
            r@ == self.enc(),
    {
        let mut res = [0u8; 64];
        write_bytes(&mut res, 0, self.nonce.bytes.as_slice());
        write_bytes(&mut res, 32, self.sealed.bytes.as_slice());
        proof {
            assert(res@ =~= self.enc());
        }
        res
    }

    /// Deserialise a commitment; the nonce must be a canonical scalar and
    /// the point a canonical Ristretto encoding.
    pub fn from_bytes(bytes: &[u8; 64]) -> (r: Result<Commitment, Error>)
        ensures
            r is Ok <==> le_bytes_val(bytes@.subrange(0, 32)) < group_order()
                && valid_ristretto_enc(bytes@.subrange(32, 64)),
            r matches Ok(c) ==> c.wf() && c.nonce.bytes@ == bytes@.subrange(0, 32)
                && c.sealed.enc() == bytes@.subrange(32, 64),
            r matches Err(e) ==> e == Error::SerialisationError,
    {
        let nonce = match FieldScalar::from_bytes(&read_bytes32_at(bytes.as_slice(), 0)) {
            Some(s) => s,
            None => { return Err(Error::SerialisationError) },
        };
        let sealed = match RistrettoElement::decode(&read_bytes32_at(bytes.as_slice(), 32)) {
            Ok(p) => p,
            Err(e) => { return Err(e) },
        };
        Ok(Commitment { nonce, sealed })
    }
}

/// A precomputed commitment share: a hiding and a binding commitment.
#[derive(Clone, Copy)]
pub struct CommitmentShare {
    /// The hiding commitment.
    pub hiding: Commitment,
    /// The binding commitment.
    pub binding: Commitment,
}

/// Byte-level equality of two commitment shares.
pub open spec fn commitment_share_bytes_eq(a: CommitmentShare, b: CommitmentShare) -> bool {
    commitment_bytes_eq(a.hiding, b.hiding) && commitment_bytes_eq(a.binding, b.binding)
}

impl CommitmentShare {
    pub open spec fn wf(&self) -> bool {
        self.hiding.wf() && self.binding.wf()
    }

    /// Constant-time equality of the two component commitments.
    pub fn ct_eq(&self, other: &CommitmentShare) -> (r: bool)
        ensures
            r == commitment_share_bytes_eq(*self, *other),
    {
        let h = self.hiding.ct_eq(&other.hiding);
        let b = self.binding.ct_eq(&other.binding);
        h && b
    }

    /// Publish the two public commitments, leaving the nonces behind.
    pub fn publish(&self) -> (r: (RistrettoElement, RistrettoElement))
        ensures
            r.0 == self.hiding.sealed,
            r.1 == self.binding.sealed,
    {
        (self.hiding.sealed, self.binding.sealed)
    }

    /// The 128-byte layout: `hiding(64) || binding(64)`.
    pub open spec fn enc(&self) -> Seq<u8> {
        self.hiding.enc() + self.binding.enc()
    }

    /// Serialise this commitment share.
    pub fn to_bytes(&self) -> (r: [u8; 128])
        ensures
            r@ == self.enc(),
    {
        let mut res = [0u8; 128];
        let h = self.hiding.to_bytes();
        write_bytes(&mut res, 0, h.as_slice());
        let b = self.binding.to_bytes();
        write_bytes(&mut res, 64, b.as_slice());
        proof {
            assert(res@ =~= self.enc());
        }
        res
    }

    /// Deserialise a commitment share.
    pub fn from_bytes(bytes: &[u8; 128]) -> (r: Result<CommitmentShare, Error>)
        ensures
            r is Ok <==> le_bytes_val(bytes@.subrange(0, 32)) < group_order()
                && valid_ristretto_enc(bytes@.subrange(32, 64)) && le_bytes_val(
                bytes@.subrange(64, 96),
            ) < group_order() && valid_ristretto_enc(bytes@.subrange(96, 128)),
            r matches Ok(c) ==> c.wf() && c.hiding.enc() == bytes@.subrange(0, 64)
                && c.binding.enc() == bytes@.subrange(64, 128),
            r matches Err(e) ==> e == Error::SerialisationError,
    {
        let mut first = [0u8; 64];
        write_bytes(&mut first, 0, vstd::slice::slice_subrange(bytes.as_slice(), 0, 64));
        let hiding = match Commitment::from_bytes(&first) {
            Ok(c) => c,
            Err(e) => {
                proof {
                    assert(first@.subrange(0, 32) =~= bytes@.subrange(0, 32));
                    assert(first@.subrange(32, 64) =~= bytes@.subrange(32, 64));
                }
                return Err(e);
            },
        };
        let mut second = [0u8; 64];
        write_bytes(&mut second, 0, vstd::slice::slice_subrange(bytes.as_slice(), 64, 128));
        let binding = match Commitment::from_bytes(&second) {
            Ok(c) => c,
            Err(e) => {
                proof {
                    assert(first@.subrange(0, 32) =~= bytes@.subrange(0, 32));
                    assert(first@.subrange(32, 64) =~= bytes@.subrange(32, 64));
                    assert(second@.subrange(0, 32) =~= bytes@.subrange(64, 96));
                    assert(second@.subrange(32, 64) =~= bytes@.subrange(96, 128));
                }
                return Err(e);
            },
        };
        proof {
            assert(first@.subrange(0, 32) =~= bytes@.subrange(0, 32));
            assert(first@.subrange(32, 64) =~= bytes@.subrange(32, 64));
            assert(second@.subrange(0, 32) =~= bytes@.subrange(64, 96));
            assert(second@.subrange(32, 64) =~= bytes@.subrange(96, 128));
            assert(hiding.enc() =~= bytes@.subrange(0, 64));
            assert(binding.enc() =~= bytes@.subrange(64, 128));
        }
        Ok(CommitmentShare { hiding, binding })
    }
}

/// Whether 128 bytes are a well-formed commitment-share record: two
/// canonical nonces and two canonical Ristretto encodings.
pub open spec fn share_segment_ok(b: Seq<u8>) -> bool {
    &&& b.len() == 128
    &&& le_bytes_val(b.subrange(0, 32)) < group_order()
    &&& valid_ristretto_enc(b.subrange(32, 64))
    &&& le_bytes_val(b.subrange(64, 96)) < group_order()
    &&& valid_ristretto_enc(b.subrange(96, 128))
}

/// The encoding of a well-formed commitment share is a well-formed
/// record.
proof fn lemma_share_enc_segment_ok(c: CommitmentShare)
    requires
        c.wf(),
    ensures
        share_segment_ok(c.enc()),
{
    assert(c.enc().subrange(0, 32) =~= c.hiding.nonce.bytes@);
    assert(c.enc().subrange(32, 64) =~= c.hiding.sealed.enc());
    assert(c.enc().subrange(64, 96) =~= c.binding.nonce.bytes@);
    assert(c.enc().subrange(96, 128) =~= c.binding.sealed.enc());
    assert(c.hiding.sealed.bytes@ == ristretto_of(c.hiding.sealed.log@));
    assert(c.binding.sealed.bytes@ == ristretto_of(c.binding.sealed.log@));
}

/// The position of the last entry byte-identical to `share`, or a
/// negative value when there is none.
pub open spec fn last_share_match(s: Seq<CommitmentShare>, share: CommitmentShare) -> int
    decreases s.len(),
{
    if s.len() == 0 {
        -1
    } else if commitment_share_bytes_eq(s.last(), share) {
        s.len() - 1
    } else {
        last_share_match(s.drop_last(), share)
    }
}

/// The secret commitment share list: the published commitments together
/// with their secret nonces.
#[derive(Clone)]
pub struct SecretCommitmentShareList {
    /// The secret commitment shares.
    pub commitments: Vec<CommitmentShare>,
}

/// The concatenated encodings of a list of commitment shares.
pub open spec fn enc_share_list(cs: Seq<CommitmentShare>) -> Seq<u8>
    decreases cs.len(),
{
    if cs.len() == 0 {
        Seq::empty()
    } else {
        enc_share_list(cs.drop_last()) + cs.last().enc()
    }
}

impl SecretCommitmentShareList {
    pub open spec fn wf(&self) -> bool {
        forall|k: int| 0 <= k < self.commitments@.len() ==> (#[trigger] self.commitments@[k]).wf()
    }

    /// The layout: `len(4) || share(128) * len`.
    pub open spec fn enc(&self) -> Seq<u8> {
        spec_u32_to_le_bytes(self.commitments@.len() as u32) + enc_share_list(self.commitments@)
    }

    /// Serialise this list.
    pub fn to_bytes(&self) -> (r: Vec<u8>)
        requires
            self.commitments@.len() <= 0xffffffff,
        ensures
            r@ == self.enc(),
    {
        let mut res: Vec<u8> = Vec::new();
        let n: usize = self.commitments.len();
        extend_u32(&mut res, n as u32);
        let ghost base = res@;
        let mut i: usize = 0;
        while i < n
            invariant
                i <= n,
                n == self.commitments@.len(),
                res@ == base + enc_share_list(self.commitments@.take(i as int)),
            decreases n - i,
        {
            let cb = self.commitments[i].to_bytes();
            extend_bytes(&mut res, cb.as_slice());
            proof {
                assert(self.commitments@.take(i + 1).drop_last() =~= self.commitments@.take(
                    i as int,
                ));
                assert(self.commitments@.take(i + 1).last() == self.commitments@[i as int]);
            }
            i += 1;
        }
        proof {
            assert(self.commitments@.take(n as int) =~= self.commitments@);
            assert(res@ =~= self.enc());
        }
        res
    }

    /// Deserialise a list of secret commitment shares; every nonce must be
    /// a canonical scalar and every point a canonical Ristretto encoding.
    pub fn from_bytes(bytes: &[u8]) -> (r: Result<SecretCommitmentShareList, Error>)
        ensures
            r is Ok <==> bytes@.len() >= 4 && {
                let m = spec_u32_from_le_bytes(bytes@.subrange(0, 4)) as int;
                bytes@.len() >= 4 + 128 * m && forall|j: int|
                    0 <= j < m ==> share_segment_ok(#[trigger] chunk_at(bytes@, 4, 128, j))
            },
            r matches Ok(l) ==> {
                let m = spec_u32_from_le_bytes(bytes@.subrange(0, 4)) as int;
                &&& l.wf()
                &&& l.commitments@.len() == m
                &&& forall|j: int|
                    0 <= j < m ==> (#[trigger] l.commitments@[j]).enc() == chunk_at(
                        bytes@,
                        4,
                        128,
                        j,
                    )
            },
            r matches Err(e) ==> e == Error::SerialisationError,
    {
        let blen: usize = bytes.len();
        if blen < 4 {
            return Err(Error::SerialisationError);
        }
        let m_u32 = read_u32_at(bytes, 0);
        let m = m_u32 as usize;
        if m > (usize::MAX - 4) / 128 {
            proof {
                vstd::arithmetic::div_mod::lemma_fundamental_div_mod((usize::MAX - 4) as int, 128);
            }
            return Err(Error::SerialisationError);
        }
        if blen < 4 + 128 * m {
            return Err(Error::SerialisationError);
        }
        let mut commitments: Vec<CommitmentShare> = Vec::new();
        let mut j: usize = 0;
        while j < m
            invariant
                j <= m,
                blen == bytes@.len(),
                m == spec_u32_from_le_bytes(bytes@.subrange(0, 4)) as usize,
                4 + 128 * m <= blen,
                commitments@.len() == j,
                forall|k: int|
                    0 <= k < commitments@.len() ==> (#[trigger] commitments@[k]).wf()
                        && commitments@[k].enc() == chunk_at(bytes@, 4, 128, k),
            decreases m - j,
        {
            let mut chunk = [0u8; 128];
            write_bytes(
                &mut chunk,
                0,
                vstd::slice::slice_subrange(bytes, 4 + 128 * j, 4 + 128 * j + 128),
            );
            proof {
                assert(chunk@ =~= chunk_at(bytes@, 4, 128, j as int));
                assert(chunk@.subrange(0, 32) =~= chunk_at(bytes@, 4, 128, j as int).subrange(
                    0,
                    32,
                ));
                assert(chunk@.subrange(32, 64) =~= chunk_at(bytes@, 4, 128, j as int).subrange(
                    32,
                    64,
                ));
                assert(chunk@.subrange(64, 96) =~= chunk_at(bytes@, 4, 128, j as int).subrange(
                    64,
                    96,
                ));
                assert(chunk@.subrange(96, 128) =~= chunk_at(bytes@, 4, 128, j as int).subrange(
                    96,
                    128,
                ));
            }
            match CommitmentShare::from_bytes(&chunk) {
                Ok(c) => {
                    proof {
                        assert(c.enc() =~= chunk@);
                    }
                    commitments.push(c);
                },
                Err(e) => {
                    return Err(e);
                },
            }
            j += 1;
        }
        proof {
            assert forall|k: int| 0 <= k < m implies share_segment_ok(
                #[trigger] chunk_at(bytes@, 4, 128, k),
            ) by {
                assert(commitments@[k].wf());
                assert(commitments@[k].enc() == chunk_at(bytes@, 4, 128, k));
                lemma_share_enc_segment_ok(commitments@[k]);
            }
        }
        Ok(SecretCommitmentShareList { commitments })
    }

    /// Drop a used commitment share from the list and scrub it: the last
    /// byte-identical entry is removed (and overwritten), as is the
    /// argument; without a match the list is unchanged.
    pub fn drop_share(&mut self, share: CommitmentShare)
        ensures
            last_share_match(old(self).commitments@, share) < 0 ==> final(self).commitments@
                == old(self).commitments@,
            last_share_match(old(self).commitments@, share) >= 0 ==> final(self).commitments@
                == old(self).commitments@.remove(last_share_match(old(self).commitments@, share)),
    {
        let n: usize = self.commitments.len();
        let mut found: bool = false;
        let mut index: usize = 0;
        let mut i: usize = 0;
        proof {
            assert(self.commitments@.take(0) =~= Seq::<CommitmentShare>::empty());
        }
        while i < n
            invariant
                i <= n,
                n == self.commitments@.len(),
                self.commitments@ == old(self).commitments@,
                found <==> last_share_match(self.commitments@.take(i as int), share) >= 0,
                found ==> index < i && index as int == last_share_match(
                    self.commitments@.take(i as int),
                    share,
                ),
            decreases n - i,
        {
            let hit = self.commitments[i].ct_eq(&share);
            proof {
                assert(self.commitments@.take(i + 1).drop_last() =~= self.commitments@.take(
                    i as int,
                ));
                assert(self.commitments@.take(i + 1).last() == self.commitments@[i as int]);
            }
            if hit {
                found = true;
                index = i;
            }
            i += 1;
        }
        proof {
            assert(self.commitments@.take(n as int) =~= self.commitments@);
        }
        if found {
            let mut removed = self.commitments.remove(index);
            removed.hiding.zeroize();
            removed.binding.zeroize();
        }
        let mut gone = share;
        gone.hiding.zeroize();
        gone.binding.zeroize();
    }
}

/// The public commitment share list: only the published commitment points.
#[derive(Clone)]
pub struct PublicCommitmentShareList {
    /// The participant's index.
    pub participant_index: u32,
    /// The published commitment pairs.
    pub commitments: Vec<(RistrettoElement, RistrettoElement)>,
}

/// The concatenated encodings of a list of published commitment pairs.
pub open spec fn enc_pair_list(cs: Seq<(RistrettoElement, RistrettoElement)>) -> Seq<u8>
    decreases cs.len(),
{
    if cs.len() == 0 {
        Seq::empty()
    } else {
        enc_pair_list(cs.drop_last()) + cs.last().0.enc() + cs.last().1.enc()
    }
}

impl PublicCommitmentShareList {
    pub open spec fn wf(&self) -> bool {
        forall|k: int|
            0 <= k < self.commitments@.len() ==> (#[trigger] self.commitments@[k]).0.wf()
                && self.commitments@[k].1.wf()
    }

    /// The layout: `index(4) || len(4) || pair(64) * len`.
    pub open spec fn enc(&self) -> Seq<u8> {
        spec_u32_to_le_bytes(self.participant_index) + spec_u32_to_le_bytes(
            self.commitments@.len() as u32,
        ) + enc_pair_list(self.commitments@)
    }

    /// Serialise this list.
    pub fn to_bytes(&self) -> (r: Vec<u8>)
        requires
            self.commitments@.len() <= 0xffffffff,
        ensures
            r@ == self.enc(),
    {
        let mut res: Vec<u8> = Vec::new();
        extend_u32(&mut res, self.participant_index);
        let n: usize = self.commitments.len();
        extend_u32(&mut res, n as u32);
        let ghost base = res@;
        let mut i: usize = 0;
        while i < n
            invariant
                i <= n,
                n == self.commitments@.len(),
                res@ == base + enc_pair_list(self.commitments@.take(i as int)),
            decreases n - i,
        {
            let p0 = self.commitments[i].0.to_bytes();
            extend_bytes(&mut res, p0.as_slice());
            let p1 = self.commitments[i].1.to_bytes();
            extend_bytes(&mut res, p1.as_slice());
            proof {
                assert(self.commitments@.take(i + 1).drop_last() =~= self.commitments@.take(
                    i as int,
                ));
                assert(self.commitments@.take(i + 1).last() == self.commitments@[i as int]);
            }
            i += 1;
        }
        proof {
            assert(self.commitments@.take(n as int) =~= self.commitments@);
            assert(res@ =~= self.enc());
        }
        res
    }

    /// Deserialise a list of published commitment pairs; every point must
    /// be a canonical Ristretto encoding.
    pub fn from_bytes(bytes: &[u8]) -> (r: Result<PublicCommitmentShareList, Error>)
        ensures
            r is Ok <==> bytes@.len() >= 8 && {
                let m = spec_u32_from_le_bytes(bytes@.subrange(4, 8)) as int;
                bytes@.len() >= 8 + 64 * m && forall|j: int|
                    0 <= j < 2 * m ==> valid_ristretto_enc(#[trigger] chunk_at(bytes@, 8, 32, j))
            },
            r matches Ok(l) ==> {
                let m = spec_u32_from_le_bytes(bytes@.subrange(4, 8)) as int;
                &&& l.wf()
                &&& l.participant_index == spec_u32_from_le_bytes(bytes@.subrange(0, 4))
                &&& l.commitments@.len() == m
                &&& forall|j: int|
                    0 <= j < m ==> (#[trigger] l.commitments@[j]).0.enc() == chunk_at(
                        bytes@,
                        8,
                        32,
                        2 * j,
                    ) && l.commitments@[j].1.enc() == chunk_at(bytes@, 8, 32, 2 * j + 1)
            },
            r matches Err(e) ==> e == Error::SerialisationError,
    {
        let blen: usize = bytes.len();
        if blen < 8 {
            return Err(Error::SerialisationError);
        }
        let participant_index = read_u32_at(bytes, 0);
        let m_u32 = read_u32_at(bytes, 4);
        let m = m_u32 as usize;
        if m > (usize::MAX - 8) / 64 {
            proof {
                vstd::arithmetic::div_mod::lemma_fundamental_div_mod((usize::MAX - 8) as int, 64);
            }
            return Err(Error::SerialisationError);
        }
        if blen < 8 + 64 * m {
            return Err(Error::SerialisationError);
        }
        let mut commitments: Vec<(RistrettoElement, RistrettoElement)> = Vec::new();
        let mut j: usize = 0;
        while j < m
            invariant
                j <= m,
                blen == bytes@.len(),
                m == spec_u32_from_le_bytes(bytes@.subrange(4, 8)) as usize,
                8 + 64 * m <= blen,
                commitments@.len() == j,
                forall|k: int|
                    0 <= k < commitments@.len() ==> (#[trigger] commitments@[k]).0.wf()
                        && commitments@[k].1.wf() && commitments@[k].0.enc() == chunk_at(
                        bytes@,
                        8,
                        32,
                        2 * k,
                    ) && commitments@[k].1.enc() == chunk_at(bytes@, 8, 32, 2 * k + 1),
            decreases m - j,
        {
            let first = read_bytes32_at(bytes, 8 + 64 * j);
            let second = read_bytes32_at(bytes, 8 + 64 * j + 32);
            proof {
                assert(first@ =~= chunk_at(bytes@, 8, 32, 2 * (j as int)));
                assert(second@ =~= chunk_at(bytes@, 8, 32, 2 * (j as int) + 1));
            }
            let p0 = match RistrettoElement::decode(&first) {
                Ok(p) => p,
                Err(e) => { return Err(e) },
            };
            let p1 = match RistrettoElement::decode(&second) {
                Ok(p) => p,
                Err(e) => { return Err(e) },
            };
            commitments.push((p0, p1));
            j += 1;
        }
        proof {
            assert forall|k: int| 0 <= k < 2 * m implies valid_ristretto_enc(
                #[trigger] chunk_at(bytes@, 8, 32, k),
            ) by {
                let pair = k / 2;
                vstd::arithmetic::div_mod::lemma_fundamental_div_mod(k, 2);
                if k % 2 == 0 {
                    assert(commitments@[pair].0.wf());
                    assert(commitments@[pair].0.bytes@ == ristretto_of(commitments@[pair].0.log@));
                    assert(commitments@[pair].0.enc() == chunk_at(bytes@, 8, 32, k));
                } else {
                    assert(commitments@[pair].1.wf());
                    assert(commitments@[pair].1.bytes@ == ristretto_of(commitments@[pair].1.log@));
                    assert(commitments@[pair].1.enc() == chunk_at(bytes@, 8, 32, k));
                }
            }
        }
        Ok(PublicCommitmentShareList { participant_index, commitments })
    }
}

/// Precompute a list of commitment shares for one-round signing: the
/// published pairs and the matching secret nonces, drawn from the system
/// CSPRNG.
pub fn generate_commitment_share_lists(participant_index: u32, number_of_shares: usize) -> (r: (
    PublicCommitmentShareList,
    SecretCommitmentShareList,
))
    ensures
        r.0.participant_index == participant_index,
        r.0.wf(),
        r.1.wf(),
        r.0.commitments@.len() == number_of_shares,
        r.1.commitments@.len() == number_of_shares,
        forall|k: int|
            0 <= k < number_of_shares ==> (#[trigger] r.0.commitments@[k]).0
                == r.1.commitments@[k].hiding.sealed && r.0.commitments@[k].1
                == r.1.commitments@[k].binding.sealed && r.1.commitments@[k].hiding.sealed.log@
                == r.1.commitments@[k].hiding.nonce@ && r.1.commitments@[k].binding.sealed.log@
                == r.1.commitments@[k].binding.nonce@,
{
    let mut commitments: Vec<CommitmentShare> = Vec::new();
    let mut i: usize = 0;
    while i < number_of_shares
        invariant
            i <= number_of_shares,
            commitments@.len() == i,
            forall|k: int|
                0 <= k < commitments@.len() ==> (#[trigger] commitments@[k]).wf()
                    && commitments@[k].hiding.sealed.log@ == commitments@[k].hiding.nonce@
                    && commitments@[k].binding.sealed.log@ == commitments@[k].binding.nonce@,
        decreases number_of_shares - i,
    {
        commitments.push(NoncePair::new().commit());
        i += 1;
    }
    let mut published: Vec<(RistrettoElement, RistrettoElement)> = Vec::new();
    let mut j: usize = 0;
    while j < number_of_shares
        invariant
            j <= number_of_shares,
            commitments@.len() == number_of_shares,
            published@.len() == j,
            forall|k: int|
                0 <= k < commitments@.len() ==> (#[trigger] commitments@[k]).wf()
                    && commitments@[k].hiding.sealed.log@ == commitments@[k].hiding.nonce@
                    && commitments@[k].binding.sealed.log@ == commitments@[k].binding.nonce@,
            forall|k: int|
                0 <= k < published@.len() ==> (#[trigger] published@[k]).0
                    == commitments@[k].hiding.sealed && published@[k].1
                    == commitments@[k].binding.sealed,
        decreases number_of_shares - j,
    {
        let pair = commitments[j].publish();
        published.push(pair);
        j += 1;
    }
    (
        PublicCommitmentShareList { participant_index, commitments: published },
        SecretCommitmentShareList { commitments },
    )
}

} // verus!
