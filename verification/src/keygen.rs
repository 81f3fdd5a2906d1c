//! The distributed key generation state machine.
//!
//! A variation of Pedersen's distributed key generation: each dealer commits
//! to a secret polynomial and proves knowledge of its constant term; round
//! one checks the peers' proofs and precomputes an encrypted share for every
//! participant; round two decrypts and Feldman-verifies the inbound shares,
//! raising publicly verifiable complaints on failure; `finish` interpolates
//! the long-lived secret key share and the group public key.  The typestate
//! of the rounds is enforced by consuming each state on transition.

use crate::cipher::{decrypt_share, encrypt_share, keystream_of, xor32, EncryptedSecretShare};
use crate::complaint::{complaint_valid, Complaint, ComplaintProof};
use crate::encoding::{chunk_at, extend_bytes, extend_u32, read_bytes32_at, read_u32_at};
use crate::error::Error;
use crate::field::{group_order, le_bytes_val, mul_q, scalar_enc};
use crate::hash::hash_to_scalar;
use crate::keys::{sum_q, DHPrivateKey, DHPublicKey, GroupKey, SecretKey};
use crate::lagrange::{calculate_lagrange_coefficients, index_vals, lagrange_at_zero, lagrange_den};
use crate::nizk::{nizk_valid, NizkOfSecretKey};
use crate::params::Parameters;
use crate::point::{point_of, valid_point_enc, GroupElement};
use crate::scalar::FieldScalar;
use crate::vss::{poly_eval, Coefficients, SecretShare, VerifiableSecretSharingCommitment};
use vstd::bytes::{spec_u32_from_le_bytes, spec_u32_to_le_bytes};
use vstd::pervasive::VecAdditionalExecFns;
use vstd::prelude::*;
use vstd::string::StringSliceAdditionalSpecFns;

verus! {

/// Marker trait sealing the state types of the key-generation state
/// machine.
pub trait Sealed {}

/// Marker trait for the valid rounds of the state machine.
pub trait DkgState: Sealed {}

/// Marker trait for the round-one state.
pub trait Round1: Sealed {}

/// Marker trait for the round-two state.
pub trait Round2: Sealed {}

/// The state after checking the peers' proofs of knowledge and computing
/// the outbound encrypted shares.
#[derive(Clone)]
pub struct RoundOne {}

/// The state after decrypting and verifying the inbound shares.
#[derive(Clone)]
pub struct RoundTwo {}

impl Sealed for RoundOne {

}

impl Sealed for RoundTwo {

}

impl DkgState for RoundOne {

}

impl DkgState for RoundTwo {

}

impl Round1 for RoundOne {

}

impl Round2 for RoundTwo {

}

/// A participant in a threshold signing: the public half of what one party
/// publishes before round one.
#[derive(Clone)]
pub struct Participant {
    /// The index of this participant; nonzero and unique per instance.
    pub index: u32,
    /// The public key used to derive pairwise symmetric keys for share
    /// encryption.
    pub dh_public_key: DHPublicKey,
    /// The commitments to the coefficients of this participant's secret
    /// polynomial; absent for signers that do not deal shares.
    pub commitments: Option<VerifiableSecretSharingCommitment>,
    /// The proof of knowledge of the secret key (the constant coefficient);
    /// absent for signers.
    pub proof_of_secret_key: Option<NizkOfSecretKey>,
    /// The proof of knowledge of the Diffie-Hellman private key.
    pub proof_of_dh_private_key: NizkOfSecretKey,
}

impl Participant {
    pub open spec fn wf(&self) -> bool {
        &&& self.dh_public_key.wf()
        &&& match self.commitments {
            Some(c) => c.wf(),
            None => true,
        }
        &&& match self.proof_of_secret_key {
            Some(p) => p.wf(),
            None => true,
        }
        &&& self.proof_of_dh_private_key.wf()
    }

    /// Construct a new dealer: a participant that contributes a secret
    /// polynomial, commits to it, and proves knowledge of the secret.
    /// Returns the public participant, the secret coefficients, and the
    /// Diffie-Hellman private key, both of which must be kept private.
    pub fn new_dealer(parameters: &Parameters, index: u32, context_string: &str) -> (r: (
        Participant,
        Coefficients,
        DHPrivateKey,
    ))
        requires
            parameters.valid(),
            index >= 1,
        ensures
            r.0.wf(),
            r.0.index == index,
            r.2.wf(),
            r.0.dh_public_key.0@ == r.2.0@,
            nizk_valid(
                context_string.spec_bytes(),
                index,
                r.0.dh_public_key.0,
                r.0.proof_of_dh_private_key,
            ),
            r.1.wf(),
            r.1.0@.len() == parameters.t,
            r.0.commitments matches Some(c) && c.index == index && c.points@.len() == parameters.t
                && (forall|j: int| 0 <= j < c.points@.len() ==> (#[trigger] c.points@[j])@ == r.1.vals()[j]),
            r.0.proof_of_secret_key matches Some(pok) && nizk_valid(
                context_string.spec_bytes(),
                index,
                r.0.commitments.unwrap().points@[0],
                pok,
            ),
    {
        let (dealer, coeff_option, dh_private_key) = Self::new_internal(
            parameters,
            false,
            index,
            None,
            context_string,
        );
        let coefficients = match coeff_option {
            Some(c) => c,
            None => vstd::pervasive::unreached(),
        };
        (dealer, coefficients, dh_private_key)
    }

    /// Construct a new signer: a participant that only combines shares dealt
    /// by others.  Returns the public participant and the Diffie-Hellman
    /// private key, which must be kept private.
    pub fn new_signer(parameters: &Parameters, index: u32, context_string: &str) -> (r: (
        Participant,
        DHPrivateKey,
    ))
        requires
            parameters.valid(),
            index >= 1,
        ensures
            r.0.wf(),
            r.0.index == index,
            r.1.wf(),
            r.0.dh_public_key.0@ == r.1.0@,
            nizk_valid(
                context_string.spec_bytes(),
                index,
                r.0.dh_public_key.0,
                r.0.proof_of_dh_private_key,
            ),
            r.0.commitments is None,
            r.0.proof_of_secret_key is None,
    {
        let (signer, _coeff_option, dh_private_key) = Self::new_internal(
            parameters,
            true,
            index,
            None,
            context_string,
        );
        (signer, dh_private_key)
    }

    fn new_internal(
        parameters: &Parameters,
        is_signer: bool,
        index: u32,
        secret_key: Option<&FieldScalar>,
        context_string: &str,
    ) -> (r: (Participant, Option<Coefficients>, DHPrivateKey))
        requires
            !is_signer ==> parameters.t >= 1,
            secret_key matches Some(s) ==> s.wf(),
        ensures
            r.0.wf(),
            r.0.index == index,
            r.2.wf(),
            r.0.dh_public_key.0@ == r.2.0@,
            nizk_valid(
                context_string.spec_bytes(),
                index,
                r.0.dh_public_key.0,
                r.0.proof_of_dh_private_key,
            ),
            is_signer ==> r.0.commitments is None && r.0.proof_of_secret_key is None && r.1
                is None,
            !is_signer ==> {
                &&& r.1 matches Some(coeffs)
                &&& coeffs.wf()
                &&& coeffs.0@.len() == parameters.t
                &&& (secret_key matches Some(s) ==> coeffs.vals()[0] == s@)
                &&& r.0.commitments matches Some(c) && c.wf() && c.index == index
                    && c.points@.len() == parameters.t && (forall|j: int|
                    0 <= j < c.points@.len() ==> (#[trigger] c.points@[j])@ == coeffs.vals()[j])
                &&& r.0.proof_of_secret_key matches Some(pok) && nizk_valid(
                    context_string.spec_bytes(),
                    index,
                    r.0.commitments.unwrap().points@[0],
                    pok,
                )
            },
    {
        let dh_private_scalar = FieldScalar::random();
        let dh_public_key = DHPublicKey(GroupElement::base_mul(&dh_private_scalar));
        let dh_private_key = DHPrivateKey(dh_private_scalar);
        let proof_of_dh_private_key = NizkOfSecretKey::prove(
            &index,
            &dh_private_scalar,
            &dh_public_key.0,
            context_string,
        );
        if is_signer {
            (
                Participant {
                    index,
                    dh_public_key,
                    commitments: None,
                    proof_of_secret_key: None,
                    proof_of_dh_private_key,
                },
                None,
                dh_private_key,
            )
        } else {
            let t: usize = parameters.t as usize;
            let mut coefficients: Vec<FieldScalar> = Vec::new();
            match secret_key {
                Some(sk) => coefficients.push(*sk),
                None => coefficients.push(FieldScalar::random()),
            }
            let mut j: usize = 1;
            while j < t
                invariant
                    1 <= j <= t || (t == 0 && j == 1),
                    coefficients@.len() == j,
                    forall|k: int| 0 <= k < j ==> (#[trigger] coefficients@[k]).wf(),
                    secret_key matches Some(s) ==> coefficients@[0]@ == s@,
                decreases t - j,
            {
                coefficients.push(FieldScalar::random());
                j += 1;
            }
            let coefficients = Coefficients(coefficients);
            let mut points: Vec<GroupElement> = Vec::new();
            let mut k: usize = 0;
            while k < t
                invariant
                    k <= t,
                    t == coefficients.0@.len(),
                    coefficients.wf(),
                    points@.len() == k,
                    forall|j2: int|
                        0 <= j2 < k ==> (#[trigger] points@[j2]).wf() && points@[j2]@
                            == coefficients.vals()[j2],
                decreases t - k,
            {
                points.push(GroupElement::base_mul(&coefficients.0[k]));
                k += 1;
            }
            let commitments = VerifiableSecretSharingCommitment { index, points };
            let proof_of_secret_key = NizkOfSecretKey::prove(
                &index,
                &coefficients.0[0],
                &commitments.points[0],
                context_string,
            );
            (
                Participant {
                    index,
                    dh_public_key,
                    commitments: Some(commitments),
                    proof_of_secret_key: Some(proof_of_secret_key),
                    proof_of_dh_private_key,
                },
                Some(coefficients),
                dh_private_key,
            )
        }
    }

    /// Retrieve the commitment to the constant coefficient: the dealer's
    /// public key.
    pub fn public_key(&self) -> (r: Option<&GroupElement>)
        ensures
            r is Some <==> (self.commitments matches Some(c) && c.points@.len() > 0),
            r matches Some(p) ==> *p == self.commitments.unwrap().points@[0],
    {
        match &self.commitments {
            Some(c) => c.public_key(),
            None => None,
        }
    }
}

/// The peers a participant accepted and rejected during round one.
#[derive(Clone)]
pub struct DKGParticipantList {
    /// The participants whose proofs of knowledge verified.
    pub valid_participants: Vec<Participant>,
    /// The indices of the participants that were excluded, if any.
    pub misbehaving_participants: Option<Vec<u32>>,
}

/// Whether a peer passes the round-one checks: its proof of its
/// Diffie-Hellman key always, and, when the local role consumes dealt
/// shares, its commitment and its proof of its secret key as well.
pub open spec fn participant_ok(p: Participant, ctx: Seq<u8>, check_dealer: bool) -> bool {
    &&& nizk_valid(ctx, p.index, p.dh_public_key.0, p.proof_of_dh_private_key)
    &&& check_dealer ==> {
        &&& p.commitments matches Some(c) && c.points@.len() > 0
        &&& p.proof_of_secret_key matches Some(pok) && nizk_valid(
            ctx,
            p.index,
            p.commitments.unwrap().points@[0],
            pok,
        )
    }
}

/// All participants in a sequence are well-formed.
pub open spec fn participants_wf(ps: Seq<Participant>) -> bool {
    forall|i: int| 0 <= i < ps.len() ==> (#[trigger] ps[i]).wf()
}

/// The indices of a sequence of participants.
pub open spec fn participant_indices(ps: Seq<Participant>) -> Seq<u32> {
    ps.map_values(|p: Participant| p.index)
}

/// No two entries of the sequence are equal.
pub open spec fn distinct_seq(s: Seq<u32>) -> bool {
    forall|i: int, j: int| 0 <= i < j < s.len() ==> s[i] != s[j]
}

/// The peers that pass the round-one checks, in input order.
pub open spec fn valid_peers(ps: Seq<Participant>, ctx: Seq<u8>, check_dealer: bool) -> Seq<
    Participant,
> {
    ps.filter(|p: Participant| participant_ok(p, ctx, check_dealer))
}

/// The indices of the peers that fail the round-one checks, in input order.
pub open spec fn misbehaving_peer_indices(ps: Seq<Participant>, ctx: Seq<u8>, check_dealer: bool) -> Seq<
    u32,
> {
    ps.filter(|p: Participant| !participant_ok(p, ctx, check_dealer)).map_values(
        |p: Participant| p.index,
    )
}


/// The indices of a list of keyed Diffie-Hellman public keys.
pub open spec fn dh_key_indices(s: Seq<(u32, DHPublicKey)>) -> Seq<u32> {
    s.map_values(|e: (u32, DHPublicKey)| e.0)
}

/// Two commitments with the same dealer index and the same points describe
/// the same data, whichever vector holds the points.
pub open spec fn commitment_eqv(a: VerifiableSecretSharingCommitment, b: VerifiableSecretSharingCommitment) -> bool {
    a.index == b.index && a.points@ == b.points@
}

/// Two participants carrying the same published data.
pub open spec fn participant_eqv(a: Participant, b: Participant) -> bool {
    &&& a.index == b.index
    &&& a.dh_public_key == b.dh_public_key
    &&& match (a.commitments, b.commitments) {
        (Some(x), Some(y)) => commitment_eqv(x, y),
        (None, None) => true,
        _ => false,
    }
    &&& a.proof_of_secret_key == b.proof_of_secret_key
    &&& a.proof_of_dh_private_key == b.proof_of_dh_private_key
}

/// Pointwise equivalence of participant sequences.
pub open spec fn participants_eqv(a: Seq<Participant>, b: Seq<Participant>) -> bool {
    a.len() == b.len() && forall|k: int| 0 <= k < a.len() ==> participant_eqv(#[trigger] a[k], b[k])
}

/// Pointwise equivalence of commitment sequences.
pub open spec fn commitments_eqv(
    a: Seq<VerifiableSecretSharingCommitment>,
    b: Seq<VerifiableSecretSharingCommitment>,
) -> bool {
    a.len() == b.len() && forall|k: int| 0 <= k < a.len() ==> commitment_eqv(#[trigger] a[k], b[k])
}

/// Shared state across the rounds of one key-generation run.
#[derive(Clone)]
pub struct ActualState {
    /// The parameters of this instance.
    pub parameters: Parameters,
    /// The index of this participant.
    pub index: u32,
    /// The Diffie-Hellman private key for pairwise share encryption.
    pub dh_private_key: DHPrivateKey,
    /// The matching Diffie-Hellman public key.
    pub dh_public_key: DHPublicKey,
    /// The accepted peers' commitments, when the local role consumes dealt
    /// shares.
    pub their_commitments: Option<Vec<VerifiableSecretSharingCommitment>>,
    /// The accepted peers' Diffie-Hellman public keys, keyed by index.
    pub their_dh_public_keys: Vec<(u32, DHPublicKey)>,
    /// The encrypted shares this participant dealt, until they are handed
    /// out.
    pub their_encrypted_secret_shares: Option<Vec<EncryptedSecretShare>>,
    /// The decrypted, verified shares received in round two.
    pub my_secret_shares: Option<Vec<SecretShare>>,
}

impl ActualState {
    /// Well-formedness: the own key pair matches, the peers' keys are valid
    /// subgroup elements with distinct indices, and the commitments, when
    /// present, are aligned index-by-index with the peers' keys and
    /// nonempty.
    pub open spec fn wf(&self) -> bool {
        &&& self.dh_private_key.wf()
        &&& self.dh_public_key.wf()
        &&& self.dh_public_key.0@ == self.dh_private_key.0@
        &&& (forall|k: int|
            0 <= k < self.their_dh_public_keys@.len() ==> (
            #[trigger] self.their_dh_public_keys@[k]).1.wf())
        &&& distinct_seq(dh_key_indices(self.their_dh_public_keys@))
        &&& match self.their_commitments {
            Some(cs) => forall|k: int|
                0 <= k < cs@.len() ==> (#[trigger] cs@[k]).wf() && cs@[k].points@.len() > 0,
            None => true,
        }
        &&& match self.my_secret_shares {
            Some(ss) => forall|k: int| 0 <= k < ss@.len() ==> (#[trigger] ss@[k]).wf(),
            None => true,
        }
    }

    /// A state fit to receive dealt shares: well-formed with the dealers'
    /// commitments present.
    pub open spec fn signer_wf(&self) -> bool {
        self.wf() && self.their_commitments is Some
    }
}

/// State machine structure holding the intermediate values of one
/// key-generation run; the type parameter records the round reached, and
/// each transition consumes the previous state.
#[derive(Clone)]
pub struct DistributedKeyGeneration<S: DkgState> {
    /// The shared state.
    pub state: Box<ActualState>,
    /// The round marker.
    pub data: S,
}

impl VerifiableSecretSharingCommitment {
    /// An explicit copy of the published commitment data.
    pub fn duplicate(&self) -> (r: VerifiableSecretSharingCommitment)
        ensures
            commitment_eqv(r, *self),
    {
        let mut points: Vec<GroupElement> = Vec::new();
        let n: usize = self.points.len();
        let mut i: usize = 0;
        while i < n
            invariant
                i <= n,
                n == self.points@.len(),
                points@ =~= self.points@.take(i as int),
            decreases n - i,
        {
            points.push(self.points[i]);
            i += 1;
        }
        proof {
            assert(points@ =~= self.points@);
        }
        VerifiableSecretSharingCommitment { index: self.index, points }
    }
}

impl Participant {
    /// An explicit copy of the published participant data.
    pub fn duplicate(&self) -> (r: Participant)
        ensures
            participant_eqv(r, *self),
    {
        let commitments = match &self.commitments {
            Some(c) => Some(c.duplicate()),
            None => None,
        };
        Participant {
            index: self.index,
            dh_public_key: self.dh_public_key,
            commitments,
            proof_of_secret_key: self.proof_of_secret_key,
            proof_of_dh_private_key: self.proof_of_dh_private_key,
        }
    }
}

/// The encrypted share `es` honestly deals `poly_eval(coeffs)` at the
/// receiver's index, encrypted under the pairwise key of `sender_sk` and
/// the receiver's public key.
pub open spec fn honest_enc_share(
    es: EncryptedSecretShare,
    sender: u32,
    receiver: Participant,
    sender_sk: nat,
    coeffs: Seq<nat>,
) -> bool {
    &&& es.sender_index == sender
    &&& es.receiver_index == receiver.index
    &&& es.encrypted_polynomial_evaluation@ == xor32(
        scalar_enc(poly_eval(coeffs, receiver.index as nat)),
        keystream_of(point_of(mul_q(sender_sk, receiver.dh_public_key.0@)), es.nonce@),
    )
}

/// Every element of a filtered sequence occurs in the original.
proof fn lemma_filter_element_in(
    s: Seq<Participant>,
    pred: spec_fn(Participant) -> bool,
    i: int,
)
    requires
        0 <= i < s.filter(pred).len(),
    ensures
        exists|w: int| 0 <= w < s.len() && s[w] == s.filter(pred)[i],
    decreases s.len(),
{
    reveal(Seq::filter);
    if s.len() > 0 {
        let head = s.drop_last();
        let f = head.filter(pred);
        if pred(s.last()) {
            if i < f.len() {
                lemma_filter_element_in(head, pred, i);
                let w = choose|w: int| 0 <= w < head.len() && head[w] == f[i];
                assert(s[w] == s.filter(pred)[i]);
            } else {
                assert(s[s.len() - 1] == s.filter(pred)[i]);
            }
        } else {
            lemma_filter_element_in(head, pred, i);
            let w = choose|w: int| 0 <= w < head.len() && head[w] == f[i];
            assert(s[w] == s.filter(pred)[i]);
        }
    }
}

/// Filtering keeps participant indices distinct.
proof fn lemma_filter_keeps_indices_distinct(
    ps: Seq<Participant>,
    pred: spec_fn(Participant) -> bool,
)
    requires
        distinct_seq(participant_indices(ps)),
    ensures
        distinct_seq(participant_indices(ps.filter(pred))),
    decreases ps.len(),
{
    reveal(Seq::filter);
    if ps.len() > 0 {
        let head = ps.drop_last();
        assert(participant_indices(head) =~= participant_indices(ps).drop_last());
        assert(distinct_seq(participant_indices(head))) by {
            assert forall|i: int, j: int|
                0 <= i < j < participant_indices(head).len() implies participant_indices(head)[i]
                != participant_indices(head)[j] by {
                assert(participant_indices(ps)[i] != participant_indices(ps)[j]);
            }
        }
        lemma_filter_keeps_indices_distinct(head, pred);
        let f = head.filter(pred);
        if pred(ps.last()) {
            assert(ps.filter(pred) == f.push(ps.last()));
            assert forall|i: int, j: int|
                0 <= i < j < participant_indices(ps.filter(pred)).len()
                implies participant_indices(ps.filter(pred))[i] != participant_indices(
                ps.filter(pred),
            )[j] by {
                if j < f.len() {
                    assert(participant_indices(f)[i] != participant_indices(f)[j]);
                } else {
                    lemma_filter_element_in(head, pred, i);
                    let w = choose|w: int| 0 <= w < head.len() && head[w] == f[i];
                    assert(participant_indices(ps)[w] == f[i].index);
                    assert(participant_indices(ps)[ps.len() - 1] == ps.last().index);
                    assert(participant_indices(ps.filter(pred))[i] == f[i].index);
                    assert(participant_indices(ps.filter(pred))[j] == ps.last().index);
                }
            }
        }
    }
}

/// Every filtered participant is well-formed and passes the checks.
proof fn lemma_filtered_participants_wf(ps: Seq<Participant>, pred: spec_fn(Participant) -> bool)
    requires
        participants_wf(ps),
    ensures
        participants_wf(ps.filter(pred)),
        forall|k: int| 0 <= k < ps.filter(pred).len() ==> pred(#[trigger] ps.filter(pred)[k]),
{
    assert forall|k: int| 0 <= k < ps.filter(pred).len() implies (#[trigger] ps.filter(pred)[k]).wf()
        && pred(ps.filter(pred)[k]) by {
        lemma_filter_element_in(ps, pred, k);
        ps.lemma_filter_pred(pred, k);
        let w = choose|w: int| 0 <= w < ps.len() && ps[w] == ps.filter(pred)[k];
        assert(ps[w].wf());
    }
}

/// What entering round one guarantees, shared by the dealer entry, the
/// signer entry, and resharing.
pub open spec fn new_state_ensures(
    parameters: Parameters,
    dh_private_key: DHPrivateKey,
    my_index: u32,
    my_coefficients: Option<Coefficients>,
    participants: Seq<Participant>,
    ctx: Seq<u8>,
    from_dealer: bool,
    from_signer: bool,
    r: Result<(DistributedKeyGeneration<RoundOne>, DKGParticipantList), Error>,
) -> bool {
    let pred = |p: Participant| participant_ok(p, ctx, from_signer);
    let valid = participants.filter(pred);
    let misbehaving = participants.filter(|p: Participant| !pred(p)).map_values(
        |p: Participant| p.index,
    );
    &&& (participants.len() != parameters.n ==> r == Err::<
        (DistributedKeyGeneration<RoundOne>, DKGParticipantList),
        Error,
    >(Error::InvalidNumberOfParticipants(participants.len() as usize, parameters.n)))
    &&& (participants.len() == parameters.n && valid.len() < parameters.t ==> {
        &&& r matches Err(e)
        &&& e matches Error::TooManyInvalidParticipants(v) && v@ == misbehaving
    })
    &&& (participants.len() == parameters.n && valid.len() >= parameters.t ==> {
        &&& r matches Ok(pair)
        &&& participants_eqv(pair.1.valid_participants@, valid)
        &&& (pair.1.misbehaving_participants matches Some(v) ==> v@ == misbehaving
            && misbehaving.len() > 0)
        &&& (pair.1.misbehaving_participants is None ==> misbehaving.len() == 0)
        &&& {
            let st = *pair.0.state;
            &&& st.parameters == parameters
            &&& st.index == my_index
            &&& st.dh_private_key == dh_private_key
            &&& st.dh_public_key.0@ == dh_private_key.0@
            &&& st.wf()
            &&& st.their_dh_public_keys@ == valid.map_values(
                |p: Participant| (p.index, p.dh_public_key),
            )
            &&& (from_signer ==> (st.their_commitments matches Some(cs) && commitments_eqv(
                cs@,
                valid.map_values(|p: Participant| p.commitments.unwrap()),
            )))
            &&& (!from_signer ==> st.their_commitments is None)
            &&& st.my_secret_shares is None
            &&& (from_dealer ==> (st.their_encrypted_secret_shares matches Some(es) && es@.len()
                == participants.len() && (forall|j: int|
                0 <= j < es@.len() ==> honest_enc_share(
                    #[trigger] es@[j],
                    my_index,
                    participants[j],
                    dh_private_key.0@,
                    my_coefficients.unwrap().vals(),
                ))))
            &&& (!from_dealer ==> st.their_encrypted_secret_shares is None)
        }
    })
}

impl DistributedKeyGeneration<RoundOne> {
    /// Enter round one as both dealer and signer: check every peer's proofs
    /// of knowledge, and precompute an encrypted share of the own
    /// polynomial for every participant.  This is the entry point of a
    /// plain distributed key generation.
    pub fn new_initial(
        parameters: &Parameters,
        dh_private_key: &DHPrivateKey,
        my_index: &u32,
        my_coefficients: &Coefficients,
        participants: &Vec<Participant>,
        context_string: &str,
    ) -> (r: Result<(Self, DKGParticipantList), Error>)
        requires
            dh_private_key.wf(),
            my_coefficients.wf(),
            participants_wf(participants@),
            distinct_seq(participant_indices(participants@)),
        ensures
            new_state_ensures(
                *parameters,
                *dh_private_key,
                *my_index,
                Some(*my_coefficients),
                participants@,
                context_string.spec_bytes(),
                true,
                true,
                r,
            ),
    {
        Self::new_state_internal(
            parameters,
            dh_private_key,
            my_index,
            Some(my_coefficients),
            participants,
            context_string,
            true,
            true,
        )
    }

    /// Enter round one as a signer only: check the dealers' proofs of
    /// knowledge and hold their commitments; no shares are dealt.  This is
    /// the entry point for a new shareholder set during resharing.
    pub fn new(
        parameters: &Parameters,
        dh_private_key: &DHPrivateKey,
        my_index: &u32,
        dealers: &Vec<Participant>,
        context_string: &str,
    ) -> (r: Result<(Self, DKGParticipantList), Error>)
        requires
            dh_private_key.wf(),
            participants_wf(dealers@),
            distinct_seq(participant_indices(dealers@)),
        ensures
            new_state_ensures(
                *parameters,
                *dh_private_key,
                *my_index,
                None,
                dealers@,
                context_string.spec_bytes(),
                false,
                true,
                r,
            ),
    {
        Self::new_state_internal(
            parameters,
            dh_private_key,
            my_index,
            None,
            dealers,
            context_string,
            false,
            true,
        )
    }

    pub(crate) fn new_state_internal(
        parameters: &Parameters,
        dh_private_key: &DHPrivateKey,
        my_index: &u32,
        my_coefficients: Option<&Coefficients>,
        participants: &Vec<Participant>,
        context_string: &str,
        from_dealer: bool,
        from_signer: bool,
    ) -> (r: Result<(Self, DKGParticipantList), Error>)
        requires
            dh_private_key.wf(),
            from_dealer || from_signer,
            from_dealer ==> (my_coefficients matches Some(c) && c.wf()),
            participants_wf(participants@),
            distinct_seq(participant_indices(participants@)),
        ensures
            new_state_ensures(
                *parameters,
                *dh_private_key,
                *my_index,
                match my_coefficients {
                    Some(c) => Some(*c),
                    None => None,
                },
                participants@,
                context_string.spec_bytes(),
                from_dealer,
                from_signer,
                r,
            ),
    {
        let ghost ctx = context_string.spec_bytes();
        let ghost pred = |p: Participant| participant_ok(p, ctx, from_signer);
        let n_given: usize = participants.len();
        if n_given != parameters.n as usize {
            return Err(Error::InvalidNumberOfParticipants(n_given, parameters.n));
        }
        let dh_public_key = DHPublicKey(GroupElement::base_mul(&dh_private_key.0));
        let mut their_commitments: Vec<VerifiableSecretSharingCommitment> = Vec::new();
        let mut their_dh_public_keys: Vec<(u32, DHPublicKey)> = Vec::new();
        let mut valid_participants: Vec<Participant> = Vec::new();
        let mut misbehaving_participants: Vec<u32> = Vec::new();
        let mut i: usize = 0;
        proof {
            reveal(Seq::filter);
            assert(participants@.take(0) =~= Seq::<Participant>::empty());
        }
        while i < n_given
            invariant
                i <= n_given,
                n_given == participants@.len(),
                participants_wf(participants@),
                ctx == context_string.spec_bytes(),
                pred == (|p: Participant| participant_ok(p, ctx, from_signer)),
                participants_eqv(valid_participants@, participants@.take(i as int).filter(pred)),
                misbehaving_participants@ =~= participants@.take(i as int).filter(
                    |p: Participant| !pred(p),
                ).map_values(|p: Participant| p.index),
                their_dh_public_keys@ =~= participants@.take(i as int).filter(pred).map_values(
                    |p: Participant| (p.index, p.dh_public_key),
                ),
                from_signer ==> commitments_eqv(
                    their_commitments@,
                    participants@.take(i as int).filter(pred).map_values(
                        |p: Participant| p.commitments.unwrap(),
                    ),
                ),
                !from_signer ==> their_commitments@.len() == 0,
            decreases n_given - i,
        {
            let p = &participants[i];
            let dh_ok = p.proof_of_dh_private_key.verify(
                &p.index,
                &p.dh_public_key.0,
                context_string,
            ).is_ok();
            let ok: bool = if !dh_ok {
                false
            } else if from_signer {
                match (&p.commitments, &p.proof_of_secret_key) {
                    (Some(c), Some(pok)) => {
                        if c.points.len() > 0 {
                            pok.verify(&p.index, &c.points[0], context_string).is_ok()
                        } else {
                            false
                        }
                    },
                    _ => false,
                }
            } else {
                true
            };
            proof {
                assert(ok == pred(participants@[i as int]));
            }
            if ok {
                valid_participants.push(p.duplicate());
                if from_signer {
                    let c = match &p.commitments {
                        Some(c) => c.duplicate(),
                        None => vstd::pervasive::unreached(),
                    };
                    their_commitments.push(c);
                }
                their_dh_public_keys.push((p.index, p.dh_public_key));
            } else {
                misbehaving_participants.push(p.index);
            }
            proof {
                reveal(Seq::filter);
                assert(participants@.take(i + 1).drop_last() =~= participants@.take(i as int));
                assert(participants@.take(i + 1).last() == participants@[i as int]);
                if ok {
                    assert(participants@.take(i + 1).filter(pred) == participants@.take(
                        i as int,
                    ).filter(pred).push(participants@[i as int]));
                } else {
                    assert(participants@.take(i + 1).filter(pred) == participants@.take(
                        i as int,
                    ).filter(pred));
                    assert(misbehaving_participants@ =~= participants@.take(i + 1).filter(
                        |p2: Participant| !pred(p2),
                    ).map_values(|p2: Participant| p2.index));
                }
            }
            i += 1;
        }
        proof {
            assert(participants@.take(n_given as int) =~= participants@);
        }
        if valid_participants.len() < parameters.t as usize {
            return Err(Error::TooManyInvalidParticipants(misbehaving_participants));
        }
        proof {
            lemma_filter_keeps_indices_distinct(participants@, pred);
            assert(dh_key_indices(their_dh_public_keys@) =~= participant_indices(
                participants@.filter(pred),
            ));
        }
        let misbehaving_list = if misbehaving_participants.len() == 0 {
            None
        } else {
            Some(misbehaving_participants)
        };
        proof {
            lemma_filtered_participants_wf(participants@, pred);
            let valid = participants@.filter(pred);
            assert(their_dh_public_keys@ == valid.map_values(
                |p: Participant| (p.index, p.dh_public_key),
            ));
            assert forall|k2: int|
                0 <= k2 < their_dh_public_keys@.len() implies (
            #[trigger] their_dh_public_keys@[k2]).1.wf() by {
                assert(their_dh_public_keys@[k2] == (valid[k2].index, valid[k2].dh_public_key));
                assert(valid[k2].wf());
            }
            if from_signer {
                assert forall|k2: int|
                    0 <= k2 < their_commitments@.len() implies (
                #[trigger] their_commitments@[k2]).wf() && their_commitments@[k2].points@.len()
                    > 0 by {
                    let mapped = valid.map_values(|p: Participant| p.commitments.unwrap());
                    assert(commitment_eqv(their_commitments@[k2], mapped[k2]));
                    assert(mapped[k2] == valid[k2].commitments.unwrap());
                    assert(participant_ok(valid[k2], ctx, from_signer));
                    assert(valid[k2].wf());
                }
            }
        }
        if !from_dealer && from_signer {
            let state = ActualState {
                parameters: *parameters,
                index: *my_index,
                dh_private_key: *dh_private_key,
                dh_public_key,
                their_commitments: Some(their_commitments),
                their_dh_public_keys,
                their_encrypted_secret_shares: None,
                my_secret_shares: None,
            };
            return Ok(
                (
                    DistributedKeyGeneration::<RoundOne> {
                        state: Box::new(state),
                        data: RoundOne {  },
                    },
                    DKGParticipantList {
                        valid_participants,
                        misbehaving_participants: misbehaving_list,
                    },
                ),
            );
        }
        let coefficients = match my_coefficients {
            Some(c) => c,
            None => vstd::pervasive::unreached(),
        };
        let mut their_encrypted_secret_shares: Vec<EncryptedSecretShare> = Vec::new();
        let mut k: usize = 0;
        while k < n_given
            invariant
                k <= n_given,
                n_given == participants@.len(),
                participants_wf(participants@),
                dh_private_key.wf(),
                coefficients.wf(),
                their_encrypted_secret_shares@.len() == k,
                forall|j: int|
                    0 <= j < k ==> honest_enc_share(
                        #[trigger] their_encrypted_secret_shares@[j],
                        *my_index,
                        participants@[j],
                        dh_private_key.0@,
                        coefficients.vals(),
                    ),
            decreases n_given - k,
        {
            let p = &participants[k];
            let share = SecretShare::evaluate_polynomial(my_index, &p.index, coefficients);
            let dh_key_elem = p.dh_public_key.0.scalar_mul(&dh_private_key.0);
            let ikm = dh_key_elem.to_bytes();
            let es = encrypt_share(&share, &ikm);
            proof {
                crate::field::lemma_scalar_enc_of_canonical(share.polynomial_evaluation.bytes@);
            }
            their_encrypted_secret_shares.push(es);
            k += 1;
        }
        let state = ActualState {
            parameters: *parameters,
            index: *my_index,
            dh_private_key: *dh_private_key,
            dh_public_key,
            their_commitments: if !from_signer {
                None
            } else {
                Some(their_commitments)
            },
            their_dh_public_keys,
            their_encrypted_secret_shares: Some(their_encrypted_secret_shares),
            my_secret_shares: None,
        };
        Ok(
            (
                DistributedKeyGeneration::<RoundOne> { state: Box::new(state), data: RoundOne {  } },
                DKGParticipantList { valid_participants, misbehaving_participants: misbehaving_list },
            ),
        )
    }

    /// Retrieve the encrypted shares this participant dealt, one per
    /// participant, to be handed to their receivers.  Signer-only callers
    /// hold none.
    pub fn their_encrypted_secret_shares(&self) -> (r: Result<&Vec<EncryptedSecretShare>, Error>)
        ensures
            r is Ok <==> self.state.their_encrypted_secret_shares is Some,
            r matches Ok(v) ==> v@ == self.state.their_encrypted_secret_shares.unwrap()@,
            r matches Err(e) ==> e == Error::NoEncryptedShares,
    {
        match &self.state.their_encrypted_secret_shares {
            Some(v) => Ok(v),
            None => Err(Error::NoEncryptedShares),
        }
    }
}

/// Whether the peers' key list holds a key for the given index.
pub open spec fn has_dh_key(keys: Seq<(u32, DHPublicKey)>, idx: u32) -> bool {
    exists|k: int| 0 <= k < keys.len() && (#[trigger] keys[k]).0 == idx
}

/// The position of the key registered under the given index.
pub open spec fn dh_key_slot(keys: Seq<(u32, DHPublicKey)>, idx: u32) -> int {
    choose|k: int| 0 <= k < keys.len() && (#[trigger] keys[k]).0 == idx
}

/// The peer key registered under the given index.
pub open spec fn dh_key_of(keys: Seq<(u32, DHPublicKey)>, idx: u32) -> DHPublicKey {
    keys[dh_key_slot(keys, idx)].1
}

/// The first commitment in the list published under the given dealer
/// index.
pub open spec fn first_commitment(
    cs: Seq<VerifiableSecretSharingCommitment>,
    idx: u32,
) -> Option<VerifiableSecretSharingCommitment>
    decreases cs.len(),
{
    if cs.len() == 0 {
        None
    } else if cs[0].index == idx {
        Some(cs[0])
    } else {
        first_commitment(cs.drop_first(), idx)
    }
}

/// A found first commitment is an element of the list.
proof fn lemma_first_commitment_in(cs: Seq<VerifiableSecretSharingCommitment>, idx: u32)
    requires
        first_commitment(cs, idx) is Some,
    ensures
        exists|k: int| 0 <= k < cs.len() && cs[k] == first_commitment(cs, idx).unwrap(),
    decreases cs.len(),
{
    if cs.len() > 0 && cs[0].index != idx {
        lemma_first_commitment_in(cs.drop_first(), idx);
        let k = choose|k: int|
            0 <= k < cs.drop_first().len() && cs.drop_first()[k] == first_commitment(
                cs.drop_first(),
                idx,
            ).unwrap();
        assert(cs[k + 1] == first_commitment(cs, idx).unwrap());
    }
}

/// Looking past a prefix without matches does not change the first match.
proof fn lemma_first_commitment_skip(cs: Seq<VerifiableSecretSharingCommitment>, idx: u32, k: int)
    requires
        0 <= k <= cs.len(),
        forall|j: int| 0 <= j < k ==> (#[trigger] cs[j]).index != idx,
    ensures
        first_commitment(cs, idx) == first_commitment(cs.skip(k), idx),
    decreases k,
{
    if k > 0 {
        assert(cs.drop_first() =~= cs.skip(1));
        lemma_first_commitment_skip(cs.skip(1), idx, k - 1);
        assert(cs.skip(1).skip(k - 1) =~= cs.skip(k));
    } else {
        assert(cs.skip(0) =~= cs);
    }
}

/// The first match found by the commitment lookup.
fn lookup_commitment<'a>(cs: &'a Vec<VerifiableSecretSharingCommitment>, idx: u32) -> (r: Option<
    &'a VerifiableSecretSharingCommitment,
>)
    ensures
        r is Some <==> first_commitment(cs@, idx) is Some,
        r matches Some(c) ==> Some(*c) == first_commitment(cs@, idx),
{
    let n: usize = cs.len();
    let mut k: usize = 0;
    while k < n
        invariant
            k <= n,
            n == cs@.len(),
            forall|j: int| 0 <= j < k ==> (#[trigger] cs@[j]).index != idx,
        decreases n - k,
    {
        if cs[k].index == idx {
            proof {
                lemma_first_commitment_skip(cs@, idx, k as int);
                assert(cs@.skip(k as int)[0] == cs@[k as int]);
            }
            return Some(&cs[k]);
        }
        k += 1;
    }
    proof {
        lemma_first_commitment_skip(cs@, idx, n as int);
        assert(cs@.skip(n as int).len() == 0);
    }
    None
}

/// The key registered under the given index, when the indices are
/// distinct.
fn lookup_dh_key(keys: &Vec<(u32, DHPublicKey)>, idx: u32) -> (r: Option<DHPublicKey>)
    requires
        distinct_seq(dh_key_indices(keys@)),
    ensures
        r is Some <==> has_dh_key(keys@, idx),
        r matches Some(pk) ==> pk == dh_key_of(keys@, idx),
{
    let n: usize = keys.len();
    let mut k: usize = 0;
    while k < n
        invariant
            k <= n,
            n == keys@.len(),
            distinct_seq(dh_key_indices(keys@)),
            forall|j: int| 0 <= j < k ==> (#[trigger] keys@[j]).0 != idx,
        decreases n - k,
    {
        if keys[k].0 == idx {
            proof {
                assert(has_dh_key(keys@, idx));
                let w = dh_key_slot(keys@, idx);
                assert(0 <= w < keys@.len() && keys@[w].0 == idx);
                assert(dh_key_indices(keys@)[w] == idx && dh_key_indices(keys@)[k as int] == idx);
                if w != k as int {
                    assert(false);
                }
                assert(dh_key_of(keys@, idx) == keys@[w].1);
            }
            return Some(keys[k].1);
        }
        k += 1;
    }
    proof {
        if has_dh_key(keys@, idx) {
            let w = choose|w: int| 0 <= w < keys@.len() && (#[trigger] keys@[w]).0 == idx;
            assert(false);
        }
    }
    None
}

/// The symmetric key material this participant derives for an inbound
/// share: the compressed pairwise Diffie-Hellman key with the sender.
pub open spec fn share_ikm(st: ActualState, es: EncryptedSecretShare) -> Seq<u8> {
    point_of(
        mul_q(st.dh_private_key.0@, dh_key_of(st.their_dh_public_keys@, es.sender_index).0@),
    )
}

/// The plaintext an inbound share decrypts to.
pub open spec fn share_plaintext(st: ActualState, es: EncryptedSecretShare) -> Seq<u8> {
    xor32(es.encrypted_polynomial_evaluation@, keystream_of(share_ikm(st, es), es.nonce@))
}

/// The sender of the share is a peer this participant holds a key for.
pub open spec fn share_matched(st: ActualState, es: EncryptedSecretShare) -> bool {
    has_dh_key(st.their_dh_public_keys@, es.sender_index)
}

/// The share decrypts to a canonical scalar.
pub open spec fn share_decrypts(st: ActualState, es: EncryptedSecretShare) -> bool {
    le_bytes_val(share_plaintext(st, es)) < group_order()
}

/// The decrypted share passes the Feldman check against the sender's
/// commitment.
pub open spec fn share_vss_ok(st: ActualState, es: EncryptedSecretShare) -> bool {
    match first_commitment(st.their_commitments.unwrap()@, es.sender_index) {
        Some(c) => point_of(le_bytes_val(share_plaintext(st, es))) == point_of(
            poly_eval(c.logs(), es.receiver_index as nat),
        ),
        None => true,
    }
}

/// An inbound share that triggers a complaint: its sender is known with a
/// commitment, and it fails decryption or the Feldman check.
pub open spec fn share_bad(st: ActualState, es: EncryptedSecretShare) -> bool {
    &&& share_matched(st, es)
    &&& first_commitment(st.their_commitments.unwrap()@, es.sender_index) is Some
    &&& !(share_decrypts(st, es) && share_vss_ok(st, es))
}

/// An inbound share whose decryption is kept.
pub open spec fn share_kept(st: ActualState, es: EncryptedSecretShare) -> bool {
    share_matched(st, es) && share_decrypts(st, es)
}

/// The stored share is the decryption of the inbound share.
pub open spec fn share_decrypted_to(
    st: ActualState,
    es: EncryptedSecretShare,
    s: SecretShare,
) -> bool {
    &&& s.sender_index == es.sender_index
    &&& s.receiver_index == es.receiver_index
    &&& s.polynomial_evaluation.bytes@ == share_plaintext(st, es)
}

/// The complaint this participant raises about a bad inbound share: it
/// names the receiver as maker and the sender as accused, carries the true
/// pairwise key, and verifies against the two public keys.
pub open spec fn complaint_about(st: ActualState, es: EncryptedSecretShare, c: Complaint) -> bool {
    &&& c.maker_index == es.receiver_index
    &&& c.accused_index == es.sender_index
    &&& c.wf()
    &&& c.dh_key@ == mul_q(st.dh_private_key.0@, dh_key_of(st.their_dh_public_keys@, es.sender_index).0@)
    &&& complaint_valid(c, st.dh_public_key.0, dh_key_of(st.their_dh_public_keys@, es.sender_index).0)
}

/// Build a complaint about a bad share: a fresh Chaum-Pedersen proof that
/// the named pairwise key is the true shared key of maker and accused.
fn build_complaint(
    my_sk: &DHPrivateKey,
    my_pk: &DHPublicKey,
    accused_pk: &DHPublicKey,
    maker_index: u32,
    accused_index: u32,
) -> (c: Complaint)
    requires
        my_sk.wf(),
        my_pk.wf(),
        accused_pk.wf(),
        my_pk.0@ == my_sk.0@,
    ensures
        c.maker_index == maker_index,
        c.accused_index == accused_index,
        c.wf(),
        c.dh_key@ == mul_q(my_sk.0@, accused_pk.0@),
        complaint_valid(c, my_pk.0, accused_pk.0),
{
    let r = FieldScalar::random();
    let a1 = GroupElement::base_mul(&r);
    let a2 = accused_pk.0.scalar_mul(&r);
    let dh_key = accused_pk.0.scalar_mul(&my_sk.0);
    let mut transcript: Vec<u8> = Vec::new();
    let pkm = my_pk.0.to_bytes();
    crate::encoding::extend_bytes(&mut transcript, pkm.as_slice());
    let pka = accused_pk.0.to_bytes();
    crate::encoding::extend_bytes(&mut transcript, pka.as_slice());
    let dhk = dh_key.to_bytes();
    crate::encoding::extend_bytes(&mut transcript, dhk.as_slice());
    let a1b = a1.to_bytes();
    crate::encoding::extend_bytes(&mut transcript, a1b.as_slice());
    let a2b = a2.to_bytes();
    crate::encoding::extend_bytes(&mut transcript, a2b.as_slice());
    let h = hash_to_scalar(&transcript);
    let z = r.add(&h.mul(&my_sk.0));
    let c = Complaint {
        maker_index,
        accused_index,
        dh_key,
        proof: ComplaintProof { a1, a2, z },
    };
    proof {
        assert(transcript@ == my_pk.0.enc() + accused_pk.0.enc() + c.dh_key.enc() + c.proof.a1.enc()
            + c.proof.a2.enc());
        crate::field::lemma_mul_distributes_q(r@, h@, my_sk.0@, accused_pk.0@);
    }
    c
}

impl DistributedKeyGeneration<RoundOne> {
    /// Progress to round two once the encrypted shares addressed to this
    /// participant have been collected.  The outbound shares are scrubbed;
    /// every inbound share from a known sender is decrypted and checked
    /// against the sender's commitment, and any failure produces a
    /// publicly verifiable complaint instead of a state.
    pub fn to_round_two(self, my_encrypted_secret_shares: Vec<EncryptedSecretShare>) -> (r: Result<
        DistributedKeyGeneration<RoundTwo>,
        Error,
    >)
        requires
            self.state.signer_wf(),
        ensures
            to_round_two_ensures(*self.state, my_encrypted_secret_shares@, r),
    {
        let ghost st = *self.state;
        let mut state = *self.state;
        let mut old_shares = match state.their_encrypted_secret_shares {
            Some(v) => v,
            None => Vec::new(),
        };
        let mut w: usize = 0;
        let outlen: usize = old_shares.len();
        while w < outlen
            invariant
                w <= outlen,
                outlen == old_shares@.len(),
            decreases outlen - w,
        {
            let mut es = old_shares[w];
            es.zeroize();
            old_shares.set(w, es);
            w += 1;
        }
        state.their_encrypted_secret_shares = None;
        if my_encrypted_secret_shares.len() != state.parameters.n as usize {
            return Err(Error::MissingShares);
        }
        let commitments = match &state.their_commitments {
            Some(cs) => cs,
            None => vstd::pervasive::unreached(),
        };
        let mut complaints: Vec<Complaint> = Vec::new();
        let mut my_secret_shares: Vec<SecretShare> = Vec::new();
        let n_in: usize = my_encrypted_secret_shares.len();
        let ghost inbound = my_encrypted_secret_shares@;
        let ghost bad_pred = |es: EncryptedSecretShare| share_bad(st, es);
        let ghost kept_pred = |es: EncryptedSecretShare| share_kept(st, es);
        let mut i: usize = 0;
        proof {
            reveal(Seq::filter);
            assert(inbound.take(0) =~= Seq::<EncryptedSecretShare>::empty());
        }
        while i < n_in
            invariant
                i <= n_in,
                n_in == inbound.len(),
                inbound == my_encrypted_secret_shares@,
                st.signer_wf(),
                state.dh_private_key == st.dh_private_key,
                state.dh_public_key == st.dh_public_key,
                state.their_dh_public_keys@ == st.their_dh_public_keys@,
                state.their_commitments matches Some(cs2) && cs2@ == st.their_commitments.unwrap()@,
                commitments@ == st.their_commitments.unwrap()@,
                bad_pred == (|es: EncryptedSecretShare| share_bad(st, es)),
                kept_pred == (|es: EncryptedSecretShare| share_kept(st, es)),
                complaints@.len() == inbound.take(i as int).filter(bad_pred).len(),
                forall|k: int|
                    0 <= k < complaints@.len() ==> complaint_about(
                        st,
                        inbound.take(i as int).filter(bad_pred)[k],
                        #[trigger] complaints@[k],
                    ),
                my_secret_shares@.len() == inbound.take(i as int).filter(kept_pred).len(),
                forall|k: int|
                    0 <= k < my_secret_shares@.len() ==> share_decrypted_to(
                        st,
                        inbound.take(i as int).filter(kept_pred)[k],
                        #[trigger] my_secret_shares@[k],
                    ) && (#[trigger] my_secret_shares@[k]).wf(),
            decreases n_in - i,
        {
            let es = &my_encrypted_secret_shares[i];
            match lookup_dh_key(&state.their_dh_public_keys, es.sender_index) {
                None => {
                },
                Some(sender_pk) => {
                    let k_elem = sender_pk.0.scalar_mul(&state.dh_private_key.0);
                    let ikm = k_elem.to_bytes();
                    let decrypted = decrypt_share(es, &ikm);
                    match lookup_commitment(commitments, es.sender_index) {
                        None => {
                        },
                        Some(commitment) => {
                            proof {
                                lemma_first_commitment_in(commitments@, es.sender_index);
                                let w = choose|w: int|
                                    0 <= w < commitments@.len() && commitments@[w]
                                        == first_commitment(commitments@, es.sender_index).unwrap();
                                assert(commitments@[w].wf());
                            }
                            let ok = match &decrypted {
                                Ok(sh) => sh.verify(commitment).is_ok(),
                                Err(_) => false,
                            };
                            if !ok {
                                let c = build_complaint(
                                    &state.dh_private_key,
                                    &state.dh_public_key,
                                    &sender_pk,
                                    es.receiver_index,
                                    es.sender_index,
                                );
                                complaints.push(c);
                            }
                        },
                    }
                    match decrypted {
                        Ok(sh) => {
                            my_secret_shares.push(sh);
                        },
                        Err(_) => {
                        },
                    }
                },
            }
            proof {
                reveal(Seq::filter);
                assert(inbound.take(i + 1).drop_last() =~= inbound.take(i as int));
                assert(inbound.take(i + 1).last() == inbound[i as int]);
            }
            i += 1;
        }
        proof {
            assert(inbound.take(n_in as int) =~= inbound);
        }
        if complaints.len() > 0 {
            return Err(Error::Complaint(complaints));
        }
        state.my_secret_shares = Some(my_secret_shares);
        Ok(DistributedKeyGeneration::<RoundTwo> { state: Box::new(state), data: RoundTwo {  } })
    }
}

/// What the transition to round two guarantees.
pub open spec fn to_round_two_ensures(
    st: ActualState,
    inbound: Seq<EncryptedSecretShare>,
    r: Result<DistributedKeyGeneration<RoundTwo>, Error>,
) -> bool {
    let bad = inbound.filter(|es: EncryptedSecretShare| share_bad(st, es));
    let kept = inbound.filter(|es: EncryptedSecretShare| share_kept(st, es));
    &&& (inbound.len() != st.parameters.n ==> r == Err::<
        DistributedKeyGeneration<RoundTwo>,
        Error,
    >(Error::MissingShares))
    &&& (inbound.len() == st.parameters.n && bad.len() == 0 ==> {
        &&& r matches Ok(r2)
        &&& {
            let st2 = *r2.state;
            &&& st2.parameters == st.parameters
            &&& st2.index == st.index
            &&& st2.dh_private_key == st.dh_private_key
            &&& st2.dh_public_key == st.dh_public_key
            &&& (st2.their_commitments matches Some(cs2) && cs2@ == st.their_commitments.unwrap()@)
            &&& st2.their_dh_public_keys@ == st.their_dh_public_keys@
            &&& st2.their_encrypted_secret_shares is None
            &&& st2.signer_wf()
            &&& (st2.my_secret_shares matches Some(ss) && ss@.len() == kept.len() && (forall|
                k: int,
            |
                0 <= k < ss@.len() ==> share_decrypted_to(st, kept[k], #[trigger] ss@[k])))
        }
    })
    &&& (inbound.len() == st.parameters.n && bad.len() > 0 ==> {
        &&& r matches Err(e)
        &&& e matches Error::Complaint(cs)
        &&& cs@.len() == bad.len()
        &&& forall|k: int|
            0 <= k < cs@.len() ==> complaint_about(st, bad[k], #[trigger] cs@[k])
    })
}

/// A share held by a well-formed state is well-formed.
proof fn lemma_state_share_wf(st: ActualState, k: int)
    requires
        st.wf(),
        st.my_secret_shares is Some,
        0 <= k < st.my_secret_shares.unwrap()@.len(),
    ensures
        st.my_secret_shares.unwrap()@[k].wf(),
{
    match st.my_secret_shares {
        Some(ss) => {
            assert(ss@[k].wf());
        },
        None => {
        },
    }
}

/// The interpolation terms of the signing key: for each received share,
/// the Lagrange coefficient of its sender (within the set of senders)
/// times the share value.
pub open spec fn key_sum_terms(ss: Seq<SecretShare>) -> Seq<nat> {
    let senders = ss.map_values(|s: SecretShare| s.sender_index as nat);
    Seq::new(
        ss.len(),
        |k: int| mul_q(lagrange_at_zero(senders[k], senders), ss[k].polynomial_evaluation@),
    )
}

/// All Lagrange denominators over the senders of the shares are nonzero.
pub open spec fn key_dens_ok(ss: Seq<SecretShare>) -> bool {
    let senders = ss.map_values(|s: SecretShare| s.sender_index as nat);
    forall|k: int| 0 <= k < senders.len() ==> lagrange_den(#[trigger] senders[k], senders) != 0
}

/// The interpolation terms of the group key: for each dealer commitment,
/// the Lagrange coefficient of its dealer times the committed constant
/// term.
pub open spec fn group_key_terms(cs: Seq<VerifiableSecretSharingCommitment>) -> Seq<nat> {
    let ids = cs.map_values(|c: VerifiableSecretSharingCommitment| c.index as nat);
    Seq::new(cs.len(), |k: int| mul_q(lagrange_at_zero(ids[k], ids), cs[k].logs()[0]))
}

/// All Lagrange denominators over the dealer indices are nonzero.
pub open spec fn group_key_dens_ok(cs: Seq<VerifiableSecretSharingCommitment>) -> bool {
    let ids = cs.map_values(|c: VerifiableSecretSharingCommitment| c.index as nat);
    forall|k: int| 0 <= k < ids.len() ==> lagrange_den(#[trigger] ids[k], ids) != 0
}

impl DistributedKeyGeneration<RoundTwo> {
    /// Calculate this participant's long-lived secret signing key share by
    /// interpolating the received shares at zero.
    pub(crate) fn calculate_signing_key(&self) -> (r: Result<SecretKey, Error>)
        requires
            self.state.signer_wf(),
            self.state.my_secret_shares is Some,
        ensures
            r is Ok <==> key_dens_ok(self.state.my_secret_shares.unwrap()@),
            r matches Ok(sk) ==> sk.wf() && sk.index == self.state.index && sk.key@ == sum_q(
                key_sum_terms(self.state.my_secret_shares.unwrap()@),
            ),
            r matches Err(e) ==> e matches Error::Custom(_),
    {
        let my_secret_shares = match &self.state.my_secret_shares {
            Some(ss) => ss,
            None => vstd::pervasive::unreached(),
        };
        let ghost ss = my_secret_shares@;
        let ghost senders = ss.map_values(|s: SecretShare| s.sender_index as nat);
        let ghost terms = key_sum_terms(ss);
        let n: usize = my_secret_shares.len();
        let mut index_vector: Vec<u32> = Vec::new();
        let mut i: usize = 0;
        while i < n
            invariant
                i <= n,
                n == ss.len(),
                ss == self.state.my_secret_shares.unwrap()@,
                my_secret_shares@ == ss,
                index_vector@.len() == i,
                forall|k: int| 0 <= k < i ==> index_vector@[k] == ss[k].sender_index,
            decreases n - i,
        {
            index_vector.push(my_secret_shares[i].sender_index);
            i += 1;
        }
        proof {
            assert(index_vals(index_vector@) =~= senders);
        }
        let mut key = FieldScalar::zero();
        let mut k: usize = 0;
        proof {
            assert(terms.take(0) =~= Seq::<nat>::empty());
        }
        while k < n
            invariant
                k <= n,
                n == ss.len(),
                ss == self.state.my_secret_shares.unwrap()@,
                my_secret_shares@ == ss,
                self.state.signer_wf(),
                self.state.my_secret_shares is Some,
                senders == ss.map_values(|s: SecretShare| s.sender_index as nat),
                terms == key_sum_terms(ss),
                index_vals(index_vector@) == senders,
                index_vector@.len() == n,
                key.wf(),
                key@ == sum_q(terms.take(k as int)),
                forall|j: int| 0 <= j < k ==> lagrange_den(#[trigger] senders[j], senders) != 0,
            decreases n - k,
        {
            let share = &my_secret_shares[k];
            let coeff = match calculate_lagrange_coefficients(
                &share.sender_index,
                index_vector.as_slice(),
            ) {
                Ok(c) => c,
                Err(_) => {
                    proof {
                        assert(lagrange_den(senders[k as int], senders) != 0 ==> false);
                    }
                    return Err(
                        Error::Custom("could not compute the Lagrange coefficient".to_owned()),
                    );
                },
            };
            proof {
                lemma_state_share_wf(*self.state, k as int);
            }
            key = key.add(&share.polynomial_evaluation.mul(&coeff));
            proof {
                assert(terms.take(k + 1).drop_last() =~= terms.take(k as int));
                assert(terms.take(k + 1).last() == terms[k as int]);
                crate::field::lemma_mul_q_commutes(
                    ss[k as int].polynomial_evaluation@,
                    lagrange_at_zero(senders[k as int], senders),
                );
            }
            k += 1;
        }
        proof {
            assert(terms.take(n as int) =~= terms);
        }
        Ok(SecretKey { index: self.state.index, key })
    }

    /// Calculate the group public key: the interpolation at zero of the
    /// dealers' committed constant terms.
    pub(crate) fn calculate_group_key(&self) -> (r: Result<GroupKey, Error>)
        requires
            self.state.signer_wf(),
        ensures
            r is Ok <==> group_key_dens_ok(self.state.their_commitments.unwrap()@),
            r matches Ok(gk) ==> gk.wf() && gk.0@ == sum_q(
                group_key_terms(self.state.their_commitments.unwrap()@),
            ),
            r matches Err(e) ==> e matches Error::Custom(_),
    {
        let commitments = match &self.state.their_commitments {
            Some(cs) => cs,
            None => vstd::pervasive::unreached(),
        };
        let ghost cs = commitments@;
        let ghost ids = cs.map_values(|c: VerifiableSecretSharingCommitment| c.index as nat);
        let ghost terms = group_key_terms(cs);
        let n: usize = commitments.len();
        let mut index_vector: Vec<u32> = Vec::new();
        let mut i: usize = 0;
        while i < n
            invariant
                i <= n,
                n == cs.len(),
                cs == self.state.their_commitments.unwrap()@,
                commitments@ == cs,
                index_vector@.len() == i,
                forall|k: int| 0 <= k < i ==> index_vector@[k] == cs[k].index,
            decreases n - i,
        {
            index_vector.push(commitments[i].index);
            i += 1;
        }
        proof {
            assert(index_vals(index_vector@) =~= ids);
        }
        let mut group_key = GroupElement::identity();
        let mut k: usize = 0;
        proof {
            assert(terms.take(0) =~= Seq::<nat>::empty());
        }
        while k < n
            invariant
                k <= n,
                n == cs.len(),
                cs == self.state.their_commitments.unwrap()@,
                commitments@ == cs,
                self.state.signer_wf(),
                ids == cs.map_values(|c: VerifiableSecretSharingCommitment| c.index as nat),
                terms == group_key_terms(cs),
                index_vals(index_vector@) == ids,
                index_vector@.len() == n,
                group_key.wf(),
                group_key@ == sum_q(terms.take(k as int)),
                forall|j: int| 0 <= j < k ==> lagrange_den(#[trigger] ids[j], ids) != 0,
            decreases n - k,
        {
            let commitment = &commitments[k];
            let coeff = match calculate_lagrange_coefficients(
                &commitment.index,
                index_vector.as_slice(),
            ) {
                Ok(c) => c,
                Err(_) => {
                    proof {
                        assert(ids[k as int] == cs[k as int].index as nat);
                        assert(lagrange_den(ids[k as int], ids) == 0);
                    }
                    return Err(
                        Error::Custom("could not compute the Lagrange coefficient".to_owned()),
                    );
                },
            };
            let pk = match commitment.public_key() {
                Some(p) => *p,
                None => vstd::pervasive::unreached(),
            };
            group_key = group_key.add(&pk.scalar_mul(&coeff));
            proof {
                assert(terms.take(k + 1).drop_last() =~= terms.take(k as int));
                assert(terms.take(k + 1).last() == terms[k as int]);
            }
            k += 1;
        }
        proof {
            assert(terms.take(n as int) =~= terms);
        }
        Ok(GroupKey(group_key))
    }

    /// Calculate this participant's long-lived secret key share and the
    /// group's public key, consuming the state; the held shares are
    /// scrubbed before release.
    pub fn finish(self) -> (r: Result<(GroupKey, SecretKey), Error>)
        requires
            self.state.signer_wf(),
            self.state.my_secret_shares is Some,
        ensures
            r is Ok <==> key_dens_ok(self.state.my_secret_shares.unwrap()@) && group_key_dens_ok(
                self.state.their_commitments.unwrap()@,
            ),
            r matches Ok(pair) ==> {
                &&& pair.1.wf()
                &&& pair.1.index == self.state.index
                &&& pair.1.key@ == sum_q(key_sum_terms(self.state.my_secret_shares.unwrap()@))
                &&& pair.0.wf()
                &&& pair.0.0@ == sum_q(group_key_terms(self.state.their_commitments.unwrap()@))
            },
            r matches Err(e) ==> e matches Error::Custom(_),
    {
        let secret_key = self.calculate_signing_key();
        let group_key = self.calculate_group_key();
        let mut state = *self.state;
        let mut shares = match state.my_secret_shares {
            Some(ss) => ss,
            None => Vec::new(),
        };
        let slen: usize = shares.len();
        let mut w: usize = 0;
        while w < slen
            invariant
                w <= slen,
                slen == shares@.len(),
            decreases slen - w,
        {
            let mut sh = shares[w];
            sh.zeroize();
            shares.set(w, sh);
            w += 1;
        }
        state.my_secret_shares = None;
        match (secret_key, group_key) {
            (Ok(sk), Ok(gk)) => Ok((gk, sk)),
            (Err(e), _) => Err(e),
            (_, Err(e)) => Err(e),
        }
    }

    /// Adjudicate a complaint: any third party holding the round-two state
    /// can determine from the published encrypted share and the complaint
    /// which of the maker and the accused misbehaved.
    pub fn blame(&self, encrypted_share: &EncryptedSecretShare, complaint: &Complaint) -> (r: u32)
        requires
            self.state.signer_wf(),
            complaint.wf(),
        ensures
            r == blame_spec(*self.state, *encrypted_share, *complaint),
    {
        let commitments = match &self.state.their_commitments {
            Some(cs) => cs,
            None => vstd::pervasive::unreached(),
        };
        let commitment_accused = match lookup_commitment(commitments, complaint.accused_index) {
            Some(c) => c,
            None => {
                return complaint.maker_index;
            },
        };
        proof {
            lemma_first_commitment_in(commitments@, complaint.accused_index);
            let w = choose|w: int|
                0 <= w < commitments@.len() && commitments@[w] == first_commitment(
                    commitments@,
                    complaint.accused_index,
                ).unwrap();
            assert(commitments@[w].wf());
        }
        let pk_maker = match lookup_dh_key(&self.state.their_dh_public_keys, complaint.maker_index) {
            Some(pk) => pk,
            None => {
                return complaint.maker_index;
            },
        };
        let pk_accused = match lookup_dh_key(
            &self.state.their_dh_public_keys,
            complaint.accused_index,
        ) {
            Some(pk) => pk,
            None => {
                return complaint.maker_index;
            },
        };
        if complaint.verify(&pk_maker.0, &pk_accused.0).is_err() {
            return complaint.maker_index;
        }
        let key_bytes = complaint.dh_key.to_bytes();
        let share = match decrypt_share(encrypted_share, &key_bytes) {
            Ok(s) => s,
            Err(_) => {
                return complaint.accused_index;
            },
        };
        match share.verify(commitment_accused) {
            Ok(_) => complaint.maker_index,
            Err(_) => complaint.accused_index,
        }
    }
}

/// The adjudication of a complaint, step by step: a missing commitment or
/// key or an invalid proof convicts the maker; an undecryptable share
/// convicts the accused; otherwise the Feldman check on the decrypted
/// share decides.
pub open spec fn blame_spec(st: ActualState, es: EncryptedSecretShare, c: Complaint) -> u32 {
    let keys = st.their_dh_public_keys@;
    let pt = xor32(es.encrypted_polynomial_evaluation@, keystream_of(c.dh_key.enc(), es.nonce@));
    if first_commitment(st.their_commitments.unwrap()@, c.accused_index) is None {
        c.maker_index
    } else if !has_dh_key(keys, c.maker_index) || !has_dh_key(keys, c.accused_index) {
        c.maker_index
    } else if !complaint_valid(c, dh_key_of(keys, c.maker_index).0, dh_key_of(keys, c.accused_index).0) {
        c.maker_index
    } else if !(le_bytes_val(pt) < group_order()) {
        c.accused_index
    } else if point_of(le_bytes_val(pt)) == point_of(
        poly_eval(
            first_commitment(st.their_commitments.unwrap()@, c.accused_index).unwrap().logs(),
            es.receiver_index as nat,
        ),
    ) {
        c.maker_index
    } else {
        c.accused_index
    }
}

/// What resharing guarantees: the errors of the round-one entry are
/// propagated, and on success the dealer republishes a commitment whose
/// constant term is the old secret key share, along with shares of a
/// polynomial with that constant term for every new signer.
pub open spec fn reshare_ensures(
    parameters: Parameters,
    secret_key: SecretKey,
    signers: Seq<Participant>,
    ctx: Seq<u8>,
    r: Result<(Participant, Vec<EncryptedSecretShare>, DKGParticipantList), Error>,
) -> bool {
    let pred = |p: Participant| participant_ok(p, ctx, false);
    let valid = signers.filter(pred);
    let misbehaving = signers.filter(|p: Participant| !pred(p)).map_values(
        |p: Participant| p.index,
    );
    &&& (signers.len() != parameters.n ==> r == Err::<
        (Participant, Vec<EncryptedSecretShare>, DKGParticipantList),
        Error,
    >(Error::InvalidNumberOfParticipants(signers.len() as usize, parameters.n)))
    &&& (signers.len() == parameters.n && valid.len() < parameters.t ==> {
        &&& r matches Err(e)
        &&& e matches Error::TooManyInvalidParticipants(v) && v@ == misbehaving
    })
    &&& (signers.len() == parameters.n && valid.len() >= parameters.t ==> {
        &&& r matches Ok(tri)
        &&& tri.0.wf()
        &&& tri.0.index == secret_key.index
        &&& (tri.0.commitments matches Some(c) && c.index == secret_key.index && c.points@.len()
            == parameters.t && c.points@[0]@ == secret_key.key@)
        &&& nizk_valid(ctx, secret_key.index, tri.0.dh_public_key.0, tri.0.proof_of_dh_private_key)
        &&& participants_eqv(tri.2.valid_participants@, valid)
        &&& tri.1@.len() == signers.len()
        &&& exists|coeffs: Seq<nat>|
            {
                &&& #[trigger] coeffs.len() == parameters.t
                &&& coeffs[0] == secret_key.key@
                &&& (forall|j: int|
                    0 <= j < coeffs.len() ==> (#[trigger] tri.0.commitments.unwrap().points@[j])@
                        == coeffs[j])
                &&& forall|j: int|
                    0 <= j < tri.1@.len() ==> honest_enc_share(
                        #[trigger] tri.1@[j],
                        secret_key.index,
                        signers[j],
                        tri.0.dh_public_key.0@,
                        coeffs,
                    )
            }
    })
}

impl Participant {
    /// Reshare this dealer's secret key share to a new set of signers: a
    /// fresh polynomial with the old key as constant term is dealt to the
    /// new set, so that the new shares reconstruct the same group key
    /// under the new parameters.
    pub fn reshare(
        parameters: &Parameters,
        secret_key: SecretKey,
        signers: &Vec<Participant>,
        context_string: &str,
    ) -> (r: Result<(Participant, Vec<EncryptedSecretShare>, DKGParticipantList), Error>)
        requires
            parameters.valid(),
            secret_key.wf(),
            participants_wf(signers@),
            distinct_seq(participant_indices(signers@)),
        ensures
            reshare_ensures(
                *parameters,
                secret_key,
                signers@,
                context_string.spec_bytes(),
                r,
            ),
    {
        let (dealer, coeff_option, dh_private_key) = Self::new_internal(
            parameters,
            false,
            secret_key.index,
            Some(&secret_key.key),
            context_string,
        );
        let coefficients = match coeff_option {
            Some(c) => c,
            None => vstd::pervasive::unreached(),
        };
        let result = DistributedKeyGeneration::<RoundOne>::new_state_internal(
            parameters,
            &dh_private_key,
            &secret_key.index,
            Some(&coefficients),
            signers,
            context_string,
            true,
            false,
        );
        match result {
            Ok((state, participant_lists)) => {
                let shares: Vec<EncryptedSecretShare> = match &state.state.their_encrypted_secret_shares {
                    Some(v) => {
                        let n: usize = v.len();
                        let mut out: Vec<EncryptedSecretShare> = Vec::new();
                        let mut i: usize = 0;
                        while i < n
                            invariant
                                i <= n,
                                n == v@.len(),
                                out@ =~= v@.take(i as int),
                            decreases n - i,
                        {
                            out.push(v[i]);
                            i += 1;
                        }
                        proof {
                            assert(out@ =~= v@);
                        }
                        out
                    },
                    None => vstd::pervasive::unreached(),
                };
                proof {
                    let ghost coeffs = coefficients.vals();
                    assert(coeffs.len() == parameters.t);
                    assert(coeffs[0] == secret_key.key@);
                    assert(dealer.dh_public_key.0@ == dh_private_key.0@);
                }
                Ok((dealer, shares, participant_lists))
            },
            Err(e) => Err(e),
        }
    }
}

/// The concatenated encodings of a list of commitments.
pub open spec fn enc_commitment_list(cs: Seq<VerifiableSecretSharingCommitment>) -> Seq<u8>
    decreases cs.len(),
{
    if cs.len() == 0 {
        Seq::empty()
    } else {
        enc_commitment_list(cs.drop_last()) + cs.last().enc()
    }
}

/// The concatenated encodings of a list of keyed public keys.
pub open spec fn enc_key_list(keys: Seq<(u32, DHPublicKey)>) -> Seq<u8>
    decreases keys.len(),
{
    if keys.len() == 0 {
        Seq::empty()
    } else {
        enc_key_list(keys.drop_last()) + spec_u32_to_le_bytes(keys.last().0)
            + keys.last().1.0.enc()
    }
}

/// The concatenated encodings of a list of encrypted shares.
pub open spec fn enc_es_list(es: Seq<EncryptedSecretShare>) -> Seq<u8>
    decreases es.len(),
{
    if es.len() == 0 {
        Seq::empty()
    } else {
        enc_es_list(es.drop_last()) + es.last().enc()
    }
}

/// The concatenated encodings of a list of secret shares.
pub open spec fn enc_ss_list(ss: Seq<SecretShare>) -> Seq<u8>
    decreases ss.len(),
{
    if ss.len() == 0 {
        Seq::empty()
    } else {
        enc_ss_list(ss.drop_last()) + ss.last().enc()
    }
}

/// Whether a byte string begins with a commitment record: the layout of
/// `VerifiableSecretSharingCommitment::from_bytes`.
pub open spec fn commitment_segment_ok(b: Seq<u8>) -> bool {
    b.len() >= 8 && {
        let m = spec_u32_from_le_bytes(b.subrange(4, 8)) as int;
        b.len() >= 8 + 32 * m && forall|j: int|
            0 <= j < m ==> crate::point::valid_point_enc(
                #[trigger] crate::encoding::chunk32(b, 8, j),
            )
    }
}

/// The number of bytes the commitment record at the head of `b` occupies.
pub open spec fn commitment_segment_len(b: Seq<u8>) -> int {
    8 + 32 * (spec_u32_from_le_bytes(b.subrange(4, 8)) as int)
}

/// Whether a byte string begins with a proof-of-knowledge record: two
/// canonical scalars.
pub open spec fn nizk_segment_ok(b: Seq<u8>) -> bool {
    b.len() >= 64 && crate::field::le_bytes_val(b.subrange(0, 32)) < group_order()
        && crate::field::le_bytes_val(b.subrange(32, 64)) < group_order()
}

/// Whether the bytes from position `off` parse as the tail of a
/// participant record: the option-tagged proof of the secret key followed
/// by the proof of the Diffie-Hellman key.
pub open spec fn participant_tail_ok(bytes: Seq<u8>, off: int) -> bool {
    &&& 0 <= off < bytes.len()
    &&& (bytes[off] == 0 || bytes[off] == 1)
    &&& (bytes[off] == 1 ==> nizk_segment_ok(bytes.skip(off + 1)) && nizk_segment_ok(
        bytes.skip(off + 65),
    ))
    &&& (bytes[off] == 0 ==> nizk_segment_ok(bytes.skip(off + 1)))
}

/// The position where the tail of a participant record begins: just after
/// the optional commitment segment.
pub open spec fn participant_tail_off(bytes: Seq<u8>) -> int {
    if bytes[36] == 1 {
        37 + commitment_segment_len(bytes.skip(37))
    } else {
        37
    }
}

/// Whether the bytes parse as a participant record.
pub open spec fn participant_parses(bytes: Seq<u8>) -> bool {
    &&& bytes.len() >= 37
    &&& crate::point::valid_point_enc(bytes.subrange(4, 36))
    &&& (bytes[36] == 0 || bytes[36] == 1)
    &&& (bytes[36] == 1 ==> commitment_segment_ok(bytes.skip(37)) && participant_tail_ok(
        bytes,
        37 + commitment_segment_len(bytes.skip(37)),
    ))
    &&& (bytes[36] == 0 ==> participant_tail_ok(bytes, 37))
}

impl Participant {
    /// The layout: `index(4) || dh_pk(32) || tag || [commitment] || tag ||
    /// [pok_sk(64)] || pok_dh(64)`, with one-byte option tags.
    pub open spec fn enc(&self) -> Seq<u8> {
        spec_u32_to_le_bytes(self.index) + self.dh_public_key.0.enc() + (match self.commitments {
            Some(c) => seq![1u8] + c.enc(),
            None => seq![0u8],
        }) + (match self.proof_of_secret_key {
            Some(p) => seq![1u8] + p.enc(),
            None => seq![0u8],
        }) + self.proof_of_dh_private_key.enc()
    }

    /// Serialise this participant.
    pub fn to_bytes(&self) -> (r: Vec<u8>)
        requires
            self.commitments matches Some(c) ==> c.points@.len() <= 0xffffffff,
        ensures
            r@ == self.enc(),
    {
        let mut res: Vec<u8> = Vec::new();
        extend_u32(&mut res, self.index);
        let pk = self.dh_public_key.to_bytes();
        extend_bytes(&mut res, pk.as_slice());
        match &self.commitments {
            Some(c) => {
                res.push(1u8);
                let cb = c.to_bytes();
                extend_bytes(&mut res, cb.as_slice());
            },
            None => {
                res.push(0u8);
            },
        }
        match &self.proof_of_secret_key {
            Some(p) => {
                res.push(1u8);
                let pb = p.to_bytes();
                extend_bytes(&mut res, pb.as_slice());
            },
            None => {
                res.push(0u8);
            },
        }
        let dhb = self.proof_of_dh_private_key.to_bytes();
        extend_bytes(&mut res, dhb.as_slice());
        proof {
            assert(res@ =~= self.enc());
        }
        res
    }

    /// Deserialise a participant; accepted exactly when the bytes parse as
    /// the participant layout, with every embedded point a canonical
    /// subgroup encoding and every scalar canonical.
    pub fn from_bytes(bytes: &[u8]) -> (r: Result<Participant, Error>)
        ensures
            r is Ok <==> participant_parses(bytes@),
            r matches Ok(p) ==> {
                let toff = participant_tail_off(bytes@);
                let doff = if bytes@[toff] == 1 {
                    toff + 65
                } else {
                    toff + 1
                };
                &&& p.wf()
                &&& p.index == spec_u32_from_le_bytes(bytes@.subrange(0, 4))
                &&& p.dh_public_key.0.enc() == bytes@.subrange(4, 36)
                &&& (p.commitments is Some <==> bytes@[36] == 1)
                &&& (p.commitments matches Some(c) ==> c.enc() == bytes@.skip(37).subrange(
                    0,
                    commitment_segment_len(bytes@.skip(37)),
                ))
                &&& (p.proof_of_secret_key is Some <==> bytes@[toff] == 1)
                &&& (p.proof_of_secret_key matches Some(pk) ==> pk.s.bytes@ == bytes@.skip(
                    toff + 1,
                ).subrange(0, 32) && pk.r.bytes@ == bytes@.skip(toff + 1).subrange(32, 64))
                &&& p.proof_of_dh_private_key.s.bytes@ == bytes@.skip(doff).subrange(0, 32)
                &&& p.proof_of_dh_private_key.r.bytes@ == bytes@.skip(doff).subrange(32, 64)
            },
            r matches Err(e) ==> e == Error::SerialisationError || e == Error::InvalidPoint,
    {
        let blen: usize = bytes.len();
        if blen < 37 {
            return Err(Error::SerialisationError);
        }
        let index = read_u32_at(bytes, 0);
        let dh_bytes = read_bytes32_at(bytes, 4);
        let dh_public_key = match GroupElement::decode(&dh_bytes) {
            Ok(p) => DHPublicKey(p),
            Err(e) => {
                return Err(e);
            },
        };
        let mut offset: usize = 36;
        let commitments: Option<VerifiableSecretSharingCommitment> = match bytes[offset] {
            1u8 => {
                offset = offset + 1;
                let rest = vstd::slice::slice_subrange(bytes, offset, blen);
                proof {
                    assert(rest@ =~= bytes@.skip(37));
                }
                let com = match VerifiableSecretSharingCommitment::from_bytes(rest) {
                    Ok(c) => c,
                    Err(e) => {
                        return Err(e);
                    },
                };
                let npts: usize = com.points.len();
                if npts > (usize::MAX - offset - 8) / 32 {
                    proof {
                        vstd::arithmetic::div_mod::lemma_fundamental_div_mod(
                            (usize::MAX - 45) as int,
                            32,
                        );
                    }
                    return vstd::pervasive::unreached();
                }
                offset = offset + 8 + npts * 32;
                proof {
                    assert(offset == 37 + commitment_segment_len(bytes@.skip(37)));
                    crate::vss::lemma_commitment_enc_matches(com, bytes@.skip(37));
                }
                Some(com)
            },
            0u8 => {
                offset = offset + 1;
                None
            },
            _ => {
                return Err(Error::SerialisationError);
            },
        };
        let ghost tail_off = offset as int;
        if offset >= blen {
            return Err(Error::SerialisationError);
        }
        let proof_of_secret_key: Option<NizkOfSecretKey> = match bytes[offset] {
            1u8 => {
                offset = offset + 1;
                if blen < offset || blen - offset < 64 {
                    proof {
                        assert(bytes@.skip(tail_off + 1).len() < 64);
                    }
                    return Err(Error::SerialisationError);
                }
                let rest = vstd::slice::slice_subrange(bytes, offset, blen);
                proof {
                    assert(rest@ =~= bytes@.skip(tail_off + 1));
                    assert(rest@.subrange(0, 32) =~= bytes@.skip(tail_off + 1).subrange(0, 32));
                    assert(rest@.subrange(32, 64) =~= bytes@.skip(tail_off + 1).subrange(32, 64));
                }
                let p = match NizkOfSecretKey::from_bytes(rest) {
                    Ok(p) => p,
                    Err(e) => {
                        return Err(e);
                    },
                };
                offset = offset + 64;
                Some(p)
            },
            0u8 => {
                offset = offset + 1;
                None
            },
            _ => {
                return Err(Error::SerialisationError);
            },
        };
        let ghost dh_off = offset as int;
        if blen < offset || blen - offset < 64 {
            proof {
                assert(bytes@.skip(dh_off).len() < 64);
            }
            return Err(Error::SerialisationError);
        }
        let rest = vstd::slice::slice_subrange(bytes, offset, blen);
        proof {
            assert(rest@ =~= bytes@.skip(dh_off));
            assert(rest@.subrange(0, 32) =~= bytes@.skip(dh_off).subrange(0, 32));
            assert(rest@.subrange(32, 64) =~= bytes@.skip(dh_off).subrange(32, 64));
        }
        let proof_of_dh_private_key = match NizkOfSecretKey::from_bytes(rest) {
            Ok(p) => p,
            Err(e) => {
                return Err(e);
            },
        };
        Ok(
            Participant {
                index,
                dh_public_key,
                commitments,
                proof_of_secret_key,
                proof_of_dh_private_key,
            },
        )
    }
}

/// Check that the indices of the peers' key list are pairwise distinct.
fn check_distinct_indices(keys: &Vec<(u32, DHPublicKey)>) -> (r: bool)
    ensures
        r == distinct_seq(dh_key_indices(keys@)),
{
    let n: usize = keys.len();
    let mut i: usize = 0;
    while i < n
        invariant
            i <= n,
            n == keys@.len(),
            forall|a: int, b: int|
                0 <= a < b < i ==> dh_key_indices(keys@)[a] != dh_key_indices(keys@)[b],
        decreases n - i,
    {
        let mut j: usize = 0;
        while j < i
            invariant
                j <= i < n,
                n == keys@.len(),
                forall|b: int| 0 <= b < j ==> dh_key_indices(keys@)[b] != dh_key_indices(keys@)[i as int],
            decreases i - j,
        {
            if keys[j].0 == keys[i].0 {
                proof {
                    assert(dh_key_indices(keys@)[j as int] == dh_key_indices(keys@)[i as int]);
                }
                return false;
            }
            j += 1;
        }
        i += 1;
    }
    true
}

/// A commitment record as the state dump stores it: the commitment layout
/// with at least one point.
pub open spec fn state_commitment_seg_ok(b: Seq<u8>) -> bool {
    commitment_segment_ok(b) && spec_u32_from_le_bytes(b.subrange(4, 8)) >= 1
}

/// `count` consecutive state commitment records head `b`.
pub open spec fn commitment_list_ok(b: Seq<u8>, count: int) -> bool
    decreases count,
{
    count <= 0 || (state_commitment_seg_ok(b) && commitment_list_ok(
        b.skip(commitment_segment_len(b)),
        count - 1,
    ))
}

/// The total length of `count` commitment records heading `b`.
pub open spec fn commitment_list_len(b: Seq<u8>, count: int) -> int
    decreases count,
{
    if count <= 0 {
        0
    } else {
        commitment_segment_len(b) + commitment_list_len(
            b.skip(commitment_segment_len(b)),
            count - 1,
        )
    }
}

/// The commitments `cs` are exactly the records heading `b`, in order.
pub open spec fn commitment_list_decodes(
    b: Seq<u8>,
    cs: Seq<VerifiableSecretSharingCommitment>,
) -> bool
    decreases cs.len(),
{
    cs.len() == 0 || {
        &&& state_commitment_seg_ok(b)
        &&& cs[0].enc() == b.subrange(0, commitment_segment_len(b))
        &&& commitment_list_decodes(b.skip(commitment_segment_len(b)), cs.drop_first())
    }
}

/// The combined length of the encodings of `cs`.
pub open spec fn commitment_encs_len(cs: Seq<VerifiableSecretSharingCommitment>) -> int
    decreases cs.len(),
{
    if cs.len() == 0 {
        0
    } else {
        cs[0].enc().len() + commitment_encs_len(cs.drop_first())
    }
}

proof fn lemma_commitment_encs_len_nonneg(cs: Seq<VerifiableSecretSharingCommitment>)
    ensures
        commitment_encs_len(cs) >= 0,
    decreases cs.len(),
{
    if cs.len() > 0 {
        lemma_commitment_encs_len_nonneg(cs.drop_first());
    }
}

/// Appending one more record to a decoded prefix.
proof fn lemma_commitment_list_snoc(
    b: Seq<u8>,
    cs: Seq<VerifiableSecretSharingCommitment>,
    c: VerifiableSecretSharingCommitment,
)
    requires
        commitment_list_decodes(b, cs),
        0 <= commitment_encs_len(cs) <= b.len(),
        state_commitment_seg_ok(b.skip(commitment_encs_len(cs))),
        c.enc() == b.skip(commitment_encs_len(cs)).subrange(
            0,
            commitment_segment_len(b.skip(commitment_encs_len(cs))),
        ),
    ensures
        commitment_list_decodes(b, cs.push(c)),
        commitment_encs_len(cs.push(c)) == commitment_encs_len(cs) + c.enc().len(),
    decreases cs.len(),
{
    if cs.len() == 0 {
        assert(commitment_encs_len(cs) == 0);
        assert(b.skip(0) =~= b);
        assert(state_commitment_seg_ok(b));
        assert(c.enc() == b.subrange(0, commitment_segment_len(b)));
        let one = cs.push(c);
        assert(one[0] == c);
        assert(one.drop_first() =~= Seq::<VerifiableSecretSharingCommitment>::empty());
        assert(commitment_list_decodes(b.skip(commitment_segment_len(b)), one.drop_first()));
        assert(commitment_list_decodes(b, one));
        assert(commitment_encs_len(one.drop_first()) == 0);
        assert(commitment_encs_len(one) == c.enc().len());
    } else {
        let l0 = commitment_segment_len(b);
        let rest = cs.drop_first();
        assert(state_commitment_seg_ok(b));
        assert(0 <= l0 <= b.len());
        assert(cs[0].enc().len() == l0);
        lemma_commitment_encs_len_nonneg(rest);
        assert(commitment_encs_len(cs) == l0 + commitment_encs_len(rest));
        vstd::seq_lib::lemma_seq_skip_of_skip(b, l0, commitment_encs_len(rest));
        assert(b.skip(l0).skip(commitment_encs_len(rest)) =~= b.skip(commitment_encs_len(cs)));
        assert(state_commitment_seg_ok(b.skip(l0).skip(commitment_encs_len(rest))));
        assert(c.enc() == b.skip(l0).skip(commitment_encs_len(rest)).subrange(
            0,
            commitment_segment_len(b.skip(l0).skip(commitment_encs_len(rest))),
        ));
        lemma_commitment_list_snoc(b.skip(l0), rest, c);
        let snoc = cs.push(c);
        assert(snoc[0] == cs[0]);
        assert(snoc.drop_first() =~= rest.push(c));
        assert(commitment_list_decodes(b.skip(l0), snoc.drop_first()));
        assert(commitment_list_decodes(b, snoc));
        assert(commitment_encs_len(snoc) == snoc[0].enc().len() + commitment_encs_len(
            snoc.drop_first(),
        ));
    }
}

/// Walking a decoded prefix down the pure parse condition: what remains to
/// parse after the prefix is the remaining count.
proof fn lemma_commitment_list_descend(
    b: Seq<u8>,
    cs: Seq<VerifiableSecretSharingCommitment>,
    count: int,
)
    requires
        commitment_list_decodes(b, cs),
        cs.len() <= count,
        commitment_list_ok(b, count),
    ensures
        commitment_list_ok(b.skip(commitment_encs_len(cs)), count - cs.len()),
    decreases cs.len(),
{
    if cs.len() == 0 {
        assert(commitment_encs_len(cs) == 0);
        assert(b.skip(0) =~= b);
    } else {
        let l0 = commitment_segment_len(b);
        let rest = cs.drop_first();
        assert(state_commitment_seg_ok(b));
        assert(0 <= l0 <= b.len());
        assert(cs[0].enc().len() == l0);
        lemma_commitment_encs_len_nonneg(rest);
        lemma_commitment_list_complete(b, cs);
        assert(commitment_list_ok(b.skip(l0), count - 1));
        lemma_commitment_list_descend(b.skip(l0), rest, count - 1);
        assert(commitment_encs_len(cs) == l0 + commitment_encs_len(rest));
        vstd::seq_lib::lemma_seq_skip_of_skip(b, l0, commitment_encs_len(rest));
        assert(b.skip(l0).skip(commitment_encs_len(rest)) =~= b.skip(commitment_encs_len(cs)));
    }
}

/// A fully decoded list satisfies the pure parse condition with its length
/// and pins the section length.
proof fn lemma_commitment_list_complete(b: Seq<u8>, cs: Seq<VerifiableSecretSharingCommitment>)
    requires
        commitment_list_decodes(b, cs),
    ensures
        commitment_list_ok(b, cs.len() as int),
        commitment_list_len(b, cs.len() as int) == commitment_encs_len(cs),
        0 <= commitment_encs_len(cs) <= b.len(),
    decreases cs.len(),
{
    if cs.len() > 0 {
        let l0 = commitment_segment_len(b);
        assert(state_commitment_seg_ok(b));
        assert(0 <= l0 <= b.len());
        assert(cs[0].enc().len() == l0);
        lemma_commitment_list_complete(b.skip(l0), cs.drop_first());
        assert(commitment_encs_len(cs) == l0 + commitment_encs_len(cs.drop_first()));
    }
}

/// A decoded commitment list satisfies the pure parse condition; public
/// face of the completeness step for callers outside this module.
pub proof fn lemma_commitment_list_complete_pub(
    b: Seq<u8>,
    cs: Seq<VerifiableSecretSharingCommitment>,
)
    requires
        commitment_list_decodes(b, cs),
    ensures
        commitment_list_ok(b, cs.len() as int),
        commitment_list_len(b, cs.len() as int) == commitment_encs_len(cs),
        0 <= commitment_encs_len(cs) <= b.len(),
{
    lemma_commitment_list_complete(b, cs);
}

/// The peers'-key section at `off`: a count and 36-byte entries whose
/// points are valid and whose indices are pairwise distinct, followed by
/// the two share sections.
pub open spec fn state_keys_from(bytes: Seq<u8>, off: int) -> bool {
    &&& 0 <= off && off + 4 <= bytes.len()
    &&& {
        let kc = spec_u32_from_le_bytes(bytes.subrange(off, off + 4)) as int;
        &&& off + 4 + 36 * kc <= bytes.len()
        &&& (forall|k: int|
            0 <= k < kc ==> valid_point_enc(
                #[trigger] chunk_at(bytes, off + 4, 36, k).subrange(4, 36),
            ))
        &&& distinct_seq(parsed_key_indices(bytes, off + 4, kc))
        &&& state_es_from(bytes, off + 4 + 36 * kc)
    }
}

/// The indices stored in a run of 36-byte key entries.
pub open spec fn parsed_key_indices(bytes: Seq<u8>, base: int, kc: int) -> Seq<u32> {
    Seq::new(
        kc as nat,
        |k: int| spec_u32_from_le_bytes(chunk_at(bytes, base, 36, k).subrange(0, 4)),
    )
}

/// The outbound-share section at `off`: an option tag and, when present, a
/// count of 56-byte records, followed by the inbound-share section.
pub open spec fn state_es_from(bytes: Seq<u8>, off: int) -> bool {
    &&& 0 <= off < bytes.len()
    &&& (bytes[off] == 0 || bytes[off] == 1)
    &&& (bytes[off] == 1 ==> off + 5 <= bytes.len() && {
        let c = spec_u32_from_le_bytes(bytes.subrange(off + 1, off + 5)) as int;
        off + 5 + 56 * c <= bytes.len() && state_ss_from(bytes, off + 5 + 56 * c)
    })
    &&& (bytes[off] == 0 ==> state_ss_from(bytes, off + 1))
}

/// The inbound-share section at `off`: an option tag and, when present, a
/// count of 40-byte records with canonical share scalars.
pub open spec fn state_ss_from(bytes: Seq<u8>, off: int) -> bool {
    &&& 0 <= off < bytes.len()
    &&& (bytes[off] == 0 || bytes[off] == 1)
    &&& (bytes[off] == 1 ==> off + 5 <= bytes.len() && {
        let c = spec_u32_from_le_bytes(bytes.subrange(off + 1, off + 5)) as int;
        off + 5 + 40 * c <= bytes.len() && (forall|k: int|
            0 <= k < c ==> crate::field::le_bytes_val(
                #[trigger] chunk_at(bytes, off + 5, 40, k).subrange(8, 40),
            ) < group_order())
    })
}

/// Whether the bytes parse as a state dump: an 8-byte parameter record,
/// the index, a canonical private key whose public key follows it, the
/// option-tagged commitment section, the keyed public keys, and the two
/// option-tagged share sections.
pub open spec fn state_parses(bytes: Seq<u8>) -> bool {
    &&& bytes.len() >= 77
    &&& crate::field::le_bytes_val(bytes.subrange(12, 44)) < group_order()
    &&& bytes.subrange(44, 76) == point_of(crate::field::le_bytes_val(bytes.subrange(12, 44)))
    &&& (bytes[76] == 0 || bytes[76] == 1)
    &&& (bytes[76] == 1 ==> bytes.len() >= 81 && {
        let cc = spec_u32_from_le_bytes(bytes.subrange(77, 81)) as int;
        commitment_list_ok(bytes.skip(81), cc) && state_keys_from(
            bytes,
            81 + commitment_list_len(bytes.skip(81), cc),
        )
    })
    &&& (bytes[76] == 0 ==> state_keys_from(bytes, 77))
}

/// The position of the peers'-key section of a parsing state dump.
pub open spec fn state_keys_off(bytes: Seq<u8>) -> int {
    if bytes[76] == 1 {
        81 + commitment_list_len(
            bytes.skip(81),
            spec_u32_from_le_bytes(bytes.subrange(77, 81)) as int,
        )
    } else {
        77
    }
}

/// The position of the outbound-share section of a parsing state dump.
pub open spec fn state_es_off(bytes: Seq<u8>) -> int {
    state_keys_off(bytes) + 4 + 36 * (spec_u32_from_le_bytes(
        bytes.subrange(state_keys_off(bytes), state_keys_off(bytes) + 4),
    ) as int)
}

/// The position of the inbound-share section of a parsing state dump.
pub open spec fn state_ss_off(bytes: Seq<u8>) -> int {
    if bytes[state_es_off(bytes)] == 1 {
        state_es_off(bytes) + 5 + 56 * (spec_u32_from_le_bytes(
            bytes.subrange(state_es_off(bytes) + 1, state_es_off(bytes) + 5),
        ) as int)
    } else {
        state_es_off(bytes) + 1
    }
}

/// What a decoded state holds, section by section, in terms of the bytes
/// it was read from.
pub open spec fn state_decoded_matches(bytes: Seq<u8>, st: ActualState) -> bool {
    &&& st.wf()
    &&& st.parameters.t == spec_u32_from_le_bytes(bytes.subrange(0, 4))
    &&& st.parameters.n == spec_u32_from_le_bytes(bytes.subrange(4, 8))
    &&& st.index == spec_u32_from_le_bytes(bytes.subrange(8, 12))
    &&& st.dh_private_key.0.bytes@ == bytes.subrange(12, 44)
    &&& st.dh_public_key.0.enc() == bytes.subrange(44, 76)
    &&& (st.their_commitments is Some <==> bytes[76] == 1)
    &&& (st.their_commitments matches Some(cs) ==> cs@.len() == spec_u32_from_le_bytes(
        bytes.subrange(77, 81),
    ) && commitment_list_decodes(bytes.skip(81), cs@))
    &&& {
        let ko = state_keys_off(bytes);
        let kc = spec_u32_from_le_bytes(bytes.subrange(ko, ko + 4)) as int;
        &&& st.their_dh_public_keys@.len() == kc
        &&& (forall|k: int|
            0 <= k < kc ==> (#[trigger] st.their_dh_public_keys@[k]).0 == spec_u32_from_le_bytes(
                chunk_at(bytes, ko + 4, 36, k).subrange(0, 4),
            ) && st.their_dh_public_keys@[k].1.0.enc() == chunk_at(bytes, ko + 4, 36, k).subrange(
                4,
                36,
            ))
    }
    &&& {
        let eo = state_es_off(bytes);
        &&& (st.their_encrypted_secret_shares is Some <==> bytes[eo] == 1)
        &&& (st.their_encrypted_secret_shares matches Some(es) ==> {
            let c = spec_u32_from_le_bytes(bytes.subrange(eo + 1, eo + 5)) as int;
            es@.len() == c && (forall|k: int|
                0 <= k < c ==> (#[trigger] es@[k]).enc() == chunk_at(bytes, eo + 5, 56, k))
        })
    }
    &&& {
        let so = state_ss_off(bytes);
        &&& (st.my_secret_shares is Some <==> bytes[so] == 1)
        &&& (st.my_secret_shares matches Some(ss) ==> {
            let c = spec_u32_from_le_bytes(bytes.subrange(so + 1, so + 5)) as int;
            ss@.len() == c && (forall|k: int|
                0 <= k < c ==> (#[trigger] ss@[k]).enc() == chunk_at(bytes, so + 5, 40, k))
        })
    }
}

impl ActualState {
    /// The structured dump: parameters, own index and key pair, the
    /// option-tagged commitment list, the peers' keys, and the two
    /// option-tagged share lists.
    pub open spec fn enc(&self) -> Seq<u8> {
        self.parameters.enc() + spec_u32_to_le_bytes(self.index) + self.dh_private_key.0.bytes@
            + self.dh_public_key.0.enc() + (match self.their_commitments {
            Some(cs) => seq![1u8] + spec_u32_to_le_bytes(cs@.len() as u32) + enc_commitment_list(
                cs@,
            ),
            None => seq![0u8],
        }) + spec_u32_to_le_bytes(self.their_dh_public_keys@.len() as u32) + enc_key_list(
            self.their_dh_public_keys@,
        ) + (match self.their_encrypted_secret_shares {
            Some(es) => seq![1u8] + spec_u32_to_le_bytes(es@.len() as u32) + enc_es_list(es@),
            None => seq![0u8],
        }) + (match self.my_secret_shares {
            Some(ss) => seq![1u8] + spec_u32_to_le_bytes(ss@.len() as u32) + enc_ss_list(ss@),
            None => seq![0u8],
        })
    }

    /// Serialise this state.
    #[verifier::rlimit(100)]
    pub fn to_bytes(&self) -> (r: Vec<u8>)
        requires
            self.their_commitments matches Some(cs) ==> cs@.len() <= 0xffffffff && (forall|k: int|
                0 <= k < cs@.len() ==> (#[trigger] cs@[k]).points@.len() <= 0xffffffff),
            self.their_dh_public_keys@.len() <= 0xffffffff,
            self.their_encrypted_secret_shares matches Some(es) ==> es@.len() <= 0xffffffff,
            self.my_secret_shares matches Some(ss) ==> ss@.len() <= 0xffffffff,
        ensures
            r@ == self.enc(),
    {
        let mut res: Vec<u8> = Vec::new();
        let pb = self.parameters.to_bytes();
        extend_bytes(&mut res, pb.as_slice());
        extend_u32(&mut res, self.index);
        let skb = self.dh_private_key.to_bytes();
        extend_bytes(&mut res, skb.as_slice());
        let pkb = self.dh_public_key.to_bytes();
        extend_bytes(&mut res, pkb.as_slice());
        match &self.their_commitments {
            Some(cs) => {
                res.push(1u8);
                let n: usize = cs.len();
                extend_u32(&mut res, n as u32);
                let ghost base = res@;
                let mut i: usize = 0;
                while i < n
                    invariant
                        i <= n,
                        n == cs@.len(),
                        forall|k: int|
                            0 <= k < cs@.len() ==> (#[trigger] cs@[k]).points@.len() <= 0xffffffff,
                        res@ == base + enc_commitment_list(cs@.take(i as int)),
                    decreases n - i,
                {
                    let cb = cs[i].to_bytes();
                    extend_bytes(&mut res, cb.as_slice());
                    proof {
                        assert(cs@.take(i + 1).drop_last() =~= cs@.take(i as int));
                        assert(cs@.take(i + 1).last() == cs@[i as int]);
                    }
                    i += 1;
                }
                proof {
                    assert(cs@.take(n as int) =~= cs@);
                }
            },
            None => {
                res.push(0u8);
            },
        }
        let nk: usize = self.their_dh_public_keys.len();
        extend_u32(&mut res, nk as u32);
        let ghost base2 = res@;
        let mut i: usize = 0;
        while i < nk
            invariant
                i <= nk,
                nk == self.their_dh_public_keys@.len(),
                res@ == base2 + enc_key_list(self.their_dh_public_keys@.take(i as int)),
            decreases nk - i,
        {
            extend_u32(&mut res, self.their_dh_public_keys[i].0);
            let kb = self.their_dh_public_keys[i].1.to_bytes();
            extend_bytes(&mut res, kb.as_slice());
            proof {
                assert(self.their_dh_public_keys@.take(i + 1).drop_last()
                    =~= self.their_dh_public_keys@.take(i as int));
                assert(self.their_dh_public_keys@.take(i + 1).last()
                    == self.their_dh_public_keys@[i as int]);
            }
            i += 1;
        }
        proof {
            assert(self.their_dh_public_keys@.take(nk as int) =~= self.their_dh_public_keys@);
        }
        match &self.their_encrypted_secret_shares {
            Some(es) => {
                res.push(1u8);
                let n: usize = es.len();
                extend_u32(&mut res, n as u32);
                let ghost base3 = res@;
                let mut i2: usize = 0;
                while i2 < n
                    invariant
                        i2 <= n,
                        n == es@.len(),
                        res@ == base3 + enc_es_list(es@.take(i2 as int)),
                    decreases n - i2,
                {
                    let eb = es[i2].to_bytes();
                    extend_bytes(&mut res, eb.as_slice());
                    proof {
                        assert(es@.take(i2 + 1).drop_last() =~= es@.take(i2 as int));
                        assert(es@.take(i2 + 1).last() == es@[i2 as int]);
                    }
                    i2 += 1;
                }
                proof {
                    assert(es@.take(n as int) =~= es@);
                }
            },
            None => {
                res.push(0u8);
            },
        }
        match &self.my_secret_shares {
            Some(ss) => {
                res.push(1u8);
                let n: usize = ss.len();
                extend_u32(&mut res, n as u32);
                let ghost base4 = res@;
                let mut i3: usize = 0;
                while i3 < n
                    invariant
                        i3 <= n,
                        n == ss@.len(),
                        res@ == base4 + enc_ss_list(ss@.take(i3 as int)),
                    decreases n - i3,
                {
                    let sb = ss[i3].to_bytes();
                    extend_bytes(&mut res, sb.as_slice());
                    proof {
                        assert(ss@.take(i3 + 1).drop_last() =~= ss@.take(i3 as int));
                        assert(ss@.take(i3 + 1).last() == ss@[i3 as int]);
                    }
                    i3 += 1;
                }
                proof {
                    assert(ss@.take(n as int) =~= ss@);
                }
            },
            None => {
                res.push(0u8);
            },
        }
        proof {
            assert(res@ =~= self.enc());
        }
        res
    }

    /// Deserialise a state; accepted exactly when the bytes parse as the
    /// state dump.  Beyond the syntactic checks, the own key pair must
    /// match and the peers' indices must be distinct, so that a
    /// deserialised state is as trustworthy as a freshly built one.
    #[verifier::rlimit(100)]
    pub fn from_bytes(bytes: &[u8]) -> (r: Result<ActualState, Error>)
        ensures
            r is Ok <==> state_parses(bytes@),
            r matches Ok(st) ==> state_decoded_matches(bytes@, st),
            r matches Err(e) ==> e == Error::SerialisationError || e == Error::InvalidPoint,
    {
        let blen: usize = bytes.len();
        if blen < 77 {
            return Err(Error::SerialisationError);
        }
        let parameters = match Parameters::from_bytes(bytes) {
            Ok(p) => p,
            Err(_) => {
                return vstd::pervasive::unreached();
            },
        };
        let index = read_u32_at(bytes, 8);
        let dh_private_key = match FieldScalar::from_bytes(&read_bytes32_at(bytes, 12)) {
            Some(sk) => DHPrivateKey(sk),
            None => {
                return Err(Error::SerialisationError);
            },
        };
        let pk_bytes = read_bytes32_at(bytes, 44);
        let expected_pk = GroupElement::base_mul(&dh_private_key.0);
        // reject a dump whose public key does not match its private key, so
        // that a deserialised state upholds the state invariant
        if !crate::scalar::ct_eq_bytes32(&expected_pk.bytes, &pk_bytes) {
            return Err(Error::SerialisationError);
        }
        let dh_public_key = DHPublicKey(expected_pk);
        let tag_c = bytes[76];
        let mut offset: usize = 77;
        let ghost cc = spec_u32_from_le_bytes(bytes@.subrange(77, 81)) as int;
        let their_commitments: Option<Vec<VerifiableSecretSharingCommitment>> = if tag_c == 1 {
            if blen < 81 {
                return Err(Error::SerialisationError);
            }
            let commit_len = read_u32_at(bytes, 77);
            let m = commit_len as usize;
            offset = 81;
            let mut coms: Vec<VerifiableSecretSharingCommitment> = Vec::new();
            let mut c2: usize = 0;
            proof {
                assert(commitment_list_decodes(bytes@.skip(81), coms@));
            }
            while c2 < m
                invariant
                    c2 <= m,
                    blen == bytes@.len(),
                    77 <= blen,
                    81 <= offset <= blen,
                    bytes@[76] == 1,
                    m == cc,
                    cc == spec_u32_from_le_bytes(bytes@.subrange(77, 81)) as int,
                    coms@.len() == c2,
                    commitment_list_decodes(bytes@.skip(81), coms@),
                    commitment_encs_len(coms@) == offset - 81,
                    forall|k: int|
                        0 <= k < coms@.len() ==> (#[trigger] coms@[k]).wf()
                            && coms@[k].points@.len() > 0,
                decreases m - c2,
            {
                let rest = vstd::slice::slice_subrange(bytes, offset, blen);
                proof {
                    assert(rest@ =~= bytes@.skip(offset as int));
                    vstd::seq_lib::lemma_seq_skip_of_skip(bytes@, 81, offset - 81);
                    assert(bytes@.skip(81).skip(offset - 81) =~= bytes@.skip(offset as int));
                }
                let com = match VerifiableSecretSharingCommitment::from_bytes(rest) {
                    Ok(c) => c,
                    Err(e) => {
                        proof {
                            assert(!commitment_segment_ok(bytes@.skip(offset as int)));
                            if commitment_list_ok(bytes@.skip(81), cc) {
                                lemma_commitment_list_descend(bytes@.skip(81), coms@, cc);
                                assert(state_commitment_seg_ok(bytes@.skip(offset as int)));
                            }
                            assert(!state_parses(bytes@));
                        }
                        return Err(e);
                    },
                };
                let npts: usize = com.points.len();
                if npts == 0 {
                    proof {
                        assert(spec_u32_from_le_bytes(bytes@.skip(offset as int).subrange(4, 8))
                            == 0);
                        if commitment_list_ok(bytes@.skip(81), cc) {
                            lemma_commitment_list_descend(bytes@.skip(81), coms@, cc);
                            assert(state_commitment_seg_ok(bytes@.skip(offset as int)));
                        }
                        assert(!state_parses(bytes@));
                    }
                    return Err(Error::SerialisationError);
                }
                proof {
                    assert(rest@.len() >= 8 + 32 * (npts as int));
                    assert(offset + 8 + 32 * npts <= blen);
                    crate::vss::lemma_commitment_enc_matches(com, rest@);
                    assert(state_commitment_seg_ok(bytes@.skip(offset as int)));
                    assert(commitment_segment_len(bytes@.skip(offset as int)) == 8 + 32 * (
                    npts as int));
                    lemma_commitment_list_snoc(bytes@.skip(81), coms@, com);
                }
                offset = offset + 8 + npts * 32;
                coms.push(com);
                c2 += 1;
            }
            proof {
                lemma_commitment_list_complete(bytes@.skip(81), coms@);
                assert(commitment_list_ok(bytes@.skip(81), cc));
                assert(commitment_list_len(bytes@.skip(81), cc) == offset - 81);
            }
            Some(coms)
        } else if tag_c == 0 {
            offset = 77;
            None
        } else {
            return Err(Error::SerialisationError);
        };
        let ghost ko = offset as int;
        proof {
            assert(ko == state_keys_off(bytes@));
        }
        if blen < offset || blen - offset < 4 {
            proof {
                assert(!state_keys_from(bytes@, ko));
                assert(!state_parses(bytes@));
            }
            return Err(Error::SerialisationError);
        }
        let key_len = read_u32_at(bytes, offset);
        let mk = key_len as usize;
        offset = offset + 4;
        let ghost kbase = offset as int;
        let mut their_dh_public_keys: Vec<(u32, DHPublicKey)> = Vec::new();
        let mut k2: usize = 0;
        while k2 < mk
            invariant
                k2 <= mk,
                blen == bytes@.len(),
                kbase == ko + 4,
                0 <= ko,
                ko + 4 <= blen,
                ko == state_keys_off(bytes@),
                mk == spec_u32_from_le_bytes(bytes@.subrange(ko, ko + 4)) as usize,
                offset == kbase + 36 * k2,
                offset <= blen,
                their_dh_public_keys@.len() == k2,
                forall|k: int|
                    0 <= k < k2 ==> ((#[trigger] their_dh_public_keys@[k]).0
                        == spec_u32_from_le_bytes(chunk_at(bytes@, kbase, 36, k).subrange(0, 4))
                        && their_dh_public_keys@[k].1.0.enc() == chunk_at(
                        bytes@,
                        kbase,
                        36,
                        k,
                    ).subrange(4, 36) && their_dh_public_keys@[k].1.wf()),
            decreases mk - k2,
        {
            if blen < offset || blen - offset < 36 {
                proof {
                    assert(ko + 4 + 36 * (mk as int) > blen);
                    assert(!state_keys_from(bytes@, ko));
                    assert(!state_parses(bytes@));
                }
                return Err(Error::SerialisationError);
            }
            let idx = read_u32_at(bytes, offset);
            let keyb = read_bytes32_at(bytes, offset + 4);
            proof {
                assert(chunk_at(bytes@, kbase, 36, k2 as int).subrange(0, 4) =~= bytes@.subrange(
                    offset as int,
                    offset + 4,
                ));
                assert(chunk_at(bytes@, kbase, 36, k2 as int).subrange(4, 36) =~= keyb@);
            }
            let key = match GroupElement::decode(&keyb) {
                Ok(p) => DHPublicKey(p),
                Err(e) => {
                    proof {
                        assert(!valid_point_enc(
                            chunk_at(bytes@, kbase, 36, k2 as int).subrange(4, 36),
                        ));
                        assert(!state_keys_from(bytes@, ko));
                        assert(!state_parses(bytes@));
                    }
                    return Err(e);
                },
            };
            their_dh_public_keys.push((idx, key));
            offset = offset + 36;
            k2 += 1;
        }
        proof {
            assert(dh_key_indices(their_dh_public_keys@) =~= parsed_key_indices(
                bytes@,
                kbase,
                mk as int,
            ));
        }
        if !check_distinct_indices(&their_dh_public_keys) {
            proof {
                assert(!state_keys_from(bytes@, ko));
                assert(!state_parses(bytes@));
            }
            return Err(Error::SerialisationError);
        }
        let ghost eo = offset as int;
        proof {
            assert(eo == ko + 4 + 36 * (mk as int));
            assert(eo == state_es_off(bytes@));
        }
        if blen < offset || blen - offset < 1 {
            proof {
                assert(!state_es_from(bytes@, eo));
                assert(!state_keys_from(bytes@, ko));
                assert(!state_parses(bytes@));
            }
            return Err(Error::SerialisationError);
        }
        let tag_es = bytes[offset];
        let their_encrypted_secret_shares: Option<Vec<EncryptedSecretShare>> = if tag_es == 1 {
            offset = offset + 1;
            if blen < offset || blen - offset < 4 {
                proof {
                    assert(!state_es_from(bytes@, eo));
                    assert(!state_keys_from(bytes@, ko));
                    assert(!state_parses(bytes@));
                }
                return Err(Error::SerialisationError);
            }
            let shares_len = read_u32_at(bytes, offset);
            offset = offset + 4;
            let ms = shares_len as usize;
            let ghost ebase = offset as int;
            let mut shares: Vec<EncryptedSecretShare> = Vec::new();
            let mut s2: usize = 0;
            while s2 < ms
                invariant
                    s2 <= ms,
                    blen == bytes@.len(),
                    0 <= eo < blen,
                    bytes@[eo] == 1,
                    ebase == eo + 5,
                    eo + 5 <= blen,
                    eo == state_es_off(bytes@),
                    ms == spec_u32_from_le_bytes(bytes@.subrange(eo + 1, eo + 5)) as usize,
                    offset == ebase + 56 * s2,
                    offset <= blen,
                    shares@.len() == s2,
                    forall|k: int|
                        0 <= k < s2 ==> (#[trigger] shares@[k]).enc() == chunk_at(
                            bytes@,
                            ebase,
                            56,
                            k,
                        ),
                decreases ms - s2,
            {
                if blen < offset || blen - offset < 56 {
                    proof {
                        assert(eo + 5 + 56 * (ms as int) > blen);
                        assert(!state_es_from(bytes@, eo));
                        assert(!state_parses(bytes@));
                    }
                    return Err(Error::SerialisationError);
                }
                let rest = vstd::slice::slice_subrange(bytes, offset, blen);
                proof {
                    assert(rest@ =~= bytes@.skip(offset as int));
                }
                let share = match EncryptedSecretShare::from_bytes(rest) {
                    Ok(sh) => sh,
                    Err(_) => {
                        return vstd::pervasive::unreached();
                    },
                };
                proof {
                    vstd::bytes::lemma_auto_spec_u32_to_from_le_bytes();
                    let chunk = chunk_at(bytes@, ebase, 56, s2 as int);
                    assert(rest@.subrange(0, 4) =~= chunk.subrange(0, 4));
                    assert(rest@.subrange(4, 8) =~= chunk.subrange(4, 8));
                    assert(rest@.subrange(8, 24) =~= chunk.subrange(8, 24));
                    assert(rest@.subrange(24, 56) =~= chunk.subrange(24, 56));
                    assert(spec_u32_to_le_bytes(share.sender_index) =~= chunk.subrange(0, 4));
                    assert(spec_u32_to_le_bytes(share.receiver_index) =~= chunk.subrange(4, 8));
                    assert(share.enc() =~= chunk);
                }
                shares.push(share);
                offset = offset + 56;
                s2 += 1;
            }
            Some(shares)
        } else if tag_es == 0 {
            offset = offset + 1;
            None
        } else {
            proof {
                assert(!state_es_from(bytes@, eo));
                assert(!state_keys_from(bytes@, ko));
                assert(!state_parses(bytes@));
            }
            return Err(Error::SerialisationError);
        };
        let ghost so = offset as int;
        proof {
            assert(so == state_ss_off(bytes@));
        }
        if blen < offset || blen - offset < 1 {
            proof {
                assert(!state_ss_from(bytes@, so));
                assert(!state_es_from(bytes@, eo));
                assert(!state_keys_from(bytes@, ko));
                assert(!state_parses(bytes@));
            }
            return Err(Error::SerialisationError);
        }
        let tag_ss = bytes[offset];
        let my_secret_shares: Option<Vec<SecretShare>> = if tag_ss == 1 {
            offset = offset + 1;
            if blen < offset || blen - offset < 4 {
                proof {
                    assert(!state_ss_from(bytes@, so));
                    assert(!state_es_from(bytes@, eo));
                    assert(!state_keys_from(bytes@, ko));
                    assert(!state_parses(bytes@));
                }
                return Err(Error::SerialisationError);
            }
            let shares_len = read_u32_at(bytes, offset);
            offset = offset + 4;
            let ms = shares_len as usize;
            let ghost sbase = offset as int;
            let mut shares: Vec<SecretShare> = Vec::new();
            let mut s3: usize = 0;
            while s3 < ms
                invariant
                    s3 <= ms,
                    blen == bytes@.len(),
                    0 <= so < blen,
                    bytes@[so] == 1,
                    sbase == so + 5,
                    so + 5 <= blen,
                    so == state_ss_off(bytes@),
                    ms == spec_u32_from_le_bytes(bytes@.subrange(so + 1, so + 5)) as usize,
                    offset == sbase + 40 * s3,
                    offset <= blen,
                    shares@.len() == s3,
                    forall|k: int|
                        0 <= k < s3 ==> (#[trigger] shares@[k]).enc() == chunk_at(
                            bytes@,
                            sbase,
                            40,
                            k,
                        ) && shares@[k].wf(),
                decreases ms - s3,
            {
                if blen < offset || blen - offset < 40 {
                    proof {
                        assert(so + 5 + 40 * (ms as int) > blen);
                        assert(!state_ss_from(bytes@, so));
                        assert(!state_parses(bytes@));
                    }
                    return Err(Error::SerialisationError);
                }
                let rest = vstd::slice::slice_subrange(bytes, offset, blen);
                proof {
                    assert(rest@ =~= bytes@.skip(offset as int));
                    assert(rest@.subrange(8, 40) =~= chunk_at(bytes@, sbase, 40, s3 as int).subrange(
                        8,
                        40,
                    ));
                }
                let share = match SecretShare::from_bytes(rest) {
                    Ok(sh) => sh,
                    Err(_) => {
                        proof {
                            assert(crate::field::le_bytes_val(
                                chunk_at(bytes@, sbase, 40, s3 as int).subrange(8, 40),
                            ) >= group_order());
                            assert(!state_ss_from(bytes@, so));
                            assert(!state_parses(bytes@));
                        }
                        return Err(Error::SerialisationError);
                    },
                };
                proof {
                    vstd::bytes::lemma_auto_spec_u32_to_from_le_bytes();
                    let chunk = chunk_at(bytes@, sbase, 40, s3 as int);
                    assert(rest@.subrange(0, 4) =~= chunk.subrange(0, 4));
                    assert(rest@.subrange(4, 8) =~= chunk.subrange(4, 8));
                    assert(spec_u32_to_le_bytes(share.sender_index) =~= chunk.subrange(0, 4));
                    assert(spec_u32_to_le_bytes(share.receiver_index) =~= chunk.subrange(4, 8));
                    assert(share.polynomial_evaluation.bytes@ =~= chunk.subrange(8, 40));
                    assert(share.enc() =~= chunk);
                }
                shares.push(share);
                offset = offset + 40;
                s3 += 1;
            }
            Some(shares)
        } else if tag_ss == 0 {
            None
        } else {
            proof {
                assert(!state_ss_from(bytes@, so));
                assert(!state_es_from(bytes@, eo));
                assert(!state_keys_from(bytes@, ko));
                assert(!state_parses(bytes@));
            }
            return Err(Error::SerialisationError);
        };
        let st = ActualState {
            parameters,
            index,
            dh_private_key,
            dh_public_key,
            their_commitments,
            their_dh_public_keys,
            their_encrypted_secret_shares,
            my_secret_shares,
        };
        proof {
            if tag_ss == 1 {
                let c = spec_u32_from_le_bytes(bytes@.subrange(so + 1, so + 5)) as int;
                assert forall|k: int| 0 <= k < c implies crate::field::le_bytes_val(
                    #[trigger] chunk_at(bytes@, so + 5, 40, k).subrange(8, 40),
                ) < group_order() by {
                    let sh = st.my_secret_shares.unwrap()@[k];
                    assert(sh.enc() == chunk_at(bytes@, so + 5, 40, k));
                    assert(sh.enc().subrange(8, 40) =~= sh.polynomial_evaluation.bytes@);
                    assert(sh.wf());
                }
                assert(state_ss_from(bytes@, so));
            } else {
                assert(bytes@[so] == 0);
                assert(state_ss_from(bytes@, so));
            }
            assert(state_es_from(bytes@, eo));
            assert forall|k: int|
                0 <= k < spec_u32_from_le_bytes(bytes@.subrange(ko, ko + 4)) as int
                implies valid_point_enc(
                #[trigger] chunk_at(bytes@, ko + 4, 36, k).subrange(4, 36),
            ) by {
                let pk = st.their_dh_public_keys@[k].1;
                assert(pk.0.enc() == chunk_at(bytes@, ko + 4, 36, k).subrange(4, 36));
                assert(pk.wf());
                assert(pk.0.bytes@ == point_of(pk.0.log@));
            }
            assert(state_keys_from(bytes@, ko));
            assert(state_parses(bytes@));
            assert(state_decoded_matches(bytes@, st));
        }
        Ok(st)
    }
}

impl DistributedKeyGeneration<RoundOne> {
    /// Serialise this round-one state: the state dump followed by the
    /// round tag `1`.
    pub fn to_bytes(&self) -> (r: Vec<u8>)
        requires
            self.state.their_commitments matches Some(cs) ==> cs@.len() <= 0xffffffff && (forall|
                k: int,
            |
                0 <= k < cs@.len() ==> (#[trigger] cs@[k]).points@.len() <= 0xffffffff),
            self.state.their_dh_public_keys@.len() <= 0xffffffff,
            self.state.their_encrypted_secret_shares matches Some(es) ==> es@.len() <= 0xffffffff,
            self.state.my_secret_shares matches Some(ss) ==> ss@.len() <= 0xffffffff,
        ensures
            r@ == self.state.enc() + seq![1u8],
    {
        let mut res = self.state.to_bytes();
        res.push(1u8);
        res
    }

    /// Deserialise a round-one state: the dump must parse, end in the
    /// round tag `1`, and carry the dealers' commitments, so that the
    /// decoded state is fit to enter round two.
    pub fn from_bytes(bytes: &[u8]) -> (r: Result<DistributedKeyGeneration<RoundOne>, Error>)
        ensures
            r is Ok <==> state_parses(bytes@) && bytes@[bytes@.len() - 1] == 1 && bytes@[76] == 1,
            r matches Ok(dkg) ==> state_decoded_matches(bytes@, *dkg.state)
                && dkg.state.signer_wf(),
            r matches Err(e) ==> e == Error::SerialisationError || e == Error::InvalidPoint,
    {
        let state = match ActualState::from_bytes(bytes) {
            Ok(st) => st,
            Err(e) => { return Err(e) },
        };
        if bytes[bytes.len() - 1] != 1u8 {
            return Err(Error::SerialisationError);
        }
        if state.their_commitments.is_none() {
            return Err(Error::SerialisationError);
        }
        Ok(DistributedKeyGeneration::<RoundOne> { state: Box::new(state), data: RoundOne {  } })
    }
}

impl DistributedKeyGeneration<RoundTwo> {
    /// Serialise this round-two state: the state dump followed by the
    /// round tag `2`.
    pub fn to_bytes(&self) -> (r: Vec<u8>)
        requires
            self.state.their_commitments matches Some(cs) ==> cs@.len() <= 0xffffffff && (forall|
                k: int,
            |
                0 <= k < cs@.len() ==> (#[trigger] cs@[k]).points@.len() <= 0xffffffff),
            self.state.their_dh_public_keys@.len() <= 0xffffffff,
            self.state.their_encrypted_secret_shares matches Some(es) ==> es@.len() <= 0xffffffff,
            self.state.my_secret_shares matches Some(ss) ==> ss@.len() <= 0xffffffff,
        ensures
            r@ == self.state.enc() + seq![2u8],
    {
        let mut res = self.state.to_bytes();
        res.push(2u8);
        res
    }

    /// Deserialise a round-two state: the dump must parse, end in the
    /// round tag `2`, and carry both the dealers' commitments and the
    /// decrypted inbound shares, so that the decoded state is fit for
    /// `finish`.
    pub fn from_bytes(bytes: &[u8]) -> (r: Result<DistributedKeyGeneration<RoundTwo>, Error>)
        ensures
            r is Ok <==> state_parses(bytes@) && bytes@[bytes@.len() - 1] == 2 && bytes@[76] == 1
                && bytes@[state_ss_off(bytes@)] == 1,
            r matches Ok(dkg) ==> state_decoded_matches(bytes@, *dkg.state)
                && dkg.state.signer_wf() && dkg.state.my_secret_shares is Some,
            r matches Err(e) ==> e == Error::SerialisationError || e == Error::InvalidPoint,
    {
        let state = match ActualState::from_bytes(bytes) {
            Ok(st) => st,
            Err(e) => { return Err(e) },
        };
        if bytes[bytes.len() - 1] != 2u8 {
            return Err(Error::SerialisationError);
        }
        if state.their_commitments.is_none() {
            return Err(Error::SerialisationError);
        }
        if state.my_secret_shares.is_none() {
            return Err(Error::SerialisationError);
        }
        Ok(DistributedKeyGeneration::<RoundTwo> { state: Box::new(state), data: RoundTwo {  } })
    }
}

} // verus!
