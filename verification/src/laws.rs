//! The global guarantees of the protocol, stated and proved over the
//! contracts of the operations: agreement on the group key, consistency of
//! secret and public key shares, symmetry of the pairwise keys, validity
//! of honest complaints, soundness of blame adjudication, and preservation
//! of the committed group secret across resharing.

use crate::cipher::{keystream_of, lemma_xor32_involutive, xor32};
use crate::complaint::{complaint_valid, Complaint};
use crate::field::{
    group_order, le_bytes_val, lemma_mul_q_commutes, lemma_nat_to_le_bytes_val, mul_q, scalar_enc,
};
use crate::keygen::{
    blame_spec, commitment_eqv, commitments_eqv, complaint_about, dh_key_of, first_commitment,
    group_key_terms, has_dh_key, key_sum_terms, ActualState,
};
use crate::keys::{ipk_terms, sum_q, GroupKey, IndividualPublicKey, SecretKey};
use crate::lagrange::lagrange_at_zero;
use crate::cipher::EncryptedSecretShare;
use crate::point::point_of;
use crate::scalar::FieldScalar;
use crate::vss::{poly_eval, SecretShare, VerifiableSecretSharingCommitment};
use vstd::prelude::*;

verus! {

/// `256^32` is `2^256`, so every scalar residue fits in 32 bytes.
proof fn lemma_pow256_32()
    ensures
        vstd::arithmetic::power::pow(256, 32) > group_order(),
{
    vstd::arithmetic::power::lemma_pow1(256);
    vstd::arithmetic::power::lemma_pow_adds(256, 1, 1);
    assert(vstd::arithmetic::power::pow(256, 2) == 0x10000);
    vstd::arithmetic::power::lemma_pow_adds(256, 2, 2);
    assert(vstd::arithmetic::power::pow(256, 4) == 0x100000000);
    vstd::arithmetic::power::lemma_pow_adds(256, 4, 4);
    assert(vstd::arithmetic::power::pow(256, 8) == 0x10000000000000000);
    vstd::arithmetic::power::lemma_pow_adds(256, 8, 8);
    assert(vstd::arithmetic::power::pow(256, 16) == 0x100000000000000000000000000000000);
    vstd::arithmetic::power::lemma_pow_adds(256, 16, 16);
    assert(vstd::arithmetic::power::pow(256, 32)
        == 0x10000000000000000000000000000000000000000000000000000000000000000);
}

/// The value of the canonical encoding of a scalar residue is the residue
/// itself.
pub proof fn lemma_scalar_enc_val(x: nat)
    requires
        x < group_order(),
    ensures
        le_bytes_val(scalar_enc(x)) == x,
        scalar_enc(x).len() == 32,
{
    lemma_pow256_32();
    lemma_nat_to_le_bytes_val(x, 32);
    crate::field::lemma_nat_to_le_bytes_len(x, 32);
}

/// Agreement on the group key: the group key is a function of the
/// dealers' commitments alone, so any two participants holding the same
/// commitment data compute group keys with identical encodings.  Every
/// honest run hands every participant the same commitment list, so every
/// `finish` yields the identical group key.
pub proof fn lemma_group_key_agreement(
    cs1: Seq<VerifiableSecretSharingCommitment>,
    cs2: Seq<VerifiableSecretSharingCommitment>,
    gk1: GroupKey,
    gk2: GroupKey,
)
    requires
        commitments_eqv(cs1, cs2),
        gk1.wf(),
        gk2.wf(),
        gk1.0@ == sum_q(group_key_terms(cs1)),
        gk2.0@ == sum_q(group_key_terms(cs2)),
    ensures
        gk1.0.enc() == gk2.0.enc(),
{
    assert(cs1.map_values(|c: VerifiableSecretSharingCommitment| c.index as nat)
        =~= cs2.map_values(|c: VerifiableSecretSharingCommitment| c.index as nat));
    assert forall|k: int| 0 <= k < cs1.len() implies #[trigger] group_key_terms(cs1)[k]
        == group_key_terms(cs2)[k] by {
        assert(commitment_eqv(cs1[k], cs2[k]));
        assert(cs1[k].logs() =~= cs2[k].logs());
    }
    assert(group_key_terms(cs1) =~= group_key_terms(cs2));
}

/// Consistency of secret and public key shares: in an honest run, the
/// shares a participant receives are exactly the dealers' polynomials
/// evaluated at its index, so its interpolated secret key share matches
/// the public verification share recomputed from the commitments alone.
/// With `SecretKey::to_public`, `key * B` therefore encodes equally with
/// `IndividualPublicKey::generate_from_commitments`.
pub proof fn lemma_secret_key_matches_public_share(
    ss: Seq<SecretShare>,
    cs: Seq<VerifiableSecretSharingCommitment>,
    l: u32,
    sk: SecretKey,
    ipk: IndividualPublicKey,
)
    requires
        ss.len() == cs.len(),
        forall|k: int| 0 <= k < ss.len() ==> (#[trigger] ss[k]).sender_index == cs[k].index,
        forall|k: int|
            0 <= k < ss.len() ==> (#[trigger] ss[k]).polynomial_evaluation@ == poly_eval(
                cs[k].logs(),
                l as nat,
            ),
        sk.wf(),
        ipk.wf(),
        sk.key@ == sum_q(key_sum_terms(ss)),
        ipk.share@ == sum_q(ipk_terms(cs, l as nat)),
    ensures
        sk.key@ == ipk.share@,
        point_of(sk.key@) == point_of(ipk.share@),
{
    assert(ss.map_values(|s: SecretShare| s.sender_index as nat) =~= cs.map(
        |k: int, c: VerifiableSecretSharingCommitment| c.index as nat,
    ));
    assert forall|k: int| 0 <= k < ss.len() implies #[trigger] key_sum_terms(ss)[k] == ipk_terms(
        cs,
        l as nat,
    )[k] by {
        assert(ss[k].polynomial_evaluation@ == poly_eval(cs[k].logs(), l as nat));
    }
    assert(key_sum_terms(ss) =~= ipk_terms(cs, l as nat));
}

/// Symmetry of the pairwise keys: both ends derive the same shared key,
/// and hence the same keystream for any nonce.
pub proof fn lemma_dh_symmetry(sk_i: FieldScalar, sk_l: FieldScalar, nonce: Seq<u8>)
    ensures
        mul_q(sk_i@, sk_l@) == mul_q(sk_l@, sk_i@),
        point_of(mul_q(sk_i@, sk_l@)) == point_of(mul_q(sk_l@, sk_i@)),
        keystream_of(point_of(mul_q(sk_i@, sk_l@)), nonce) == keystream_of(
            point_of(mul_q(sk_l@, sk_i@)),
            nonce,
        ),
{
    lemma_mul_q_commutes(sk_i@, sk_l@);
}

/// Validity of honest complaints: every complaint a participant raises in
/// round two carries the true pairwise key and satisfies the
/// Chaum-Pedersen equations, so `Complaint::verify` accepts it.
pub proof fn lemma_honest_complaint_verifies(
    st: ActualState,
    es: EncryptedSecretShare,
    c: Complaint,
)
    requires
        complaint_about(st, es, c),
    ensures
        complaint_valid(c, st.dh_public_key.0, dh_key_of(st.their_dh_public_keys@, es.sender_index).0),
{
}

/// Blame soundness, first half: no complaint about an honestly encrypted,
/// honestly dealt share can blame the sender.  If the named pairwise key
/// is the one the share was encrypted under and the plaintext evaluates
/// the accused's committed polynomial, adjudication convicts the maker.
pub proof fn lemma_blame_clears_honest_sender(
    st: ActualState,
    es: EncryptedSecretShare,
    c: Complaint,
)
    requires
        st.signer_wf(),
        first_commitment(st.their_commitments.unwrap()@, c.accused_index) is Some,
        es.encrypted_polynomial_evaluation@ == xor32(
            scalar_enc(
                poly_eval(
                    first_commitment(st.their_commitments.unwrap()@, c.accused_index).unwrap().logs(),
                    es.receiver_index as nat,
                ),
            ),
            keystream_of(c.dh_key.enc(), es.nonce@),
        ),
    ensures
        blame_spec(st, es, c) == c.maker_index,
{
    let com = first_commitment(st.their_commitments.unwrap()@, c.accused_index).unwrap();
    let v = poly_eval(com.logs(), es.receiver_index as nat);
    assert(v < group_order()) by {
        if com.logs().len() == 0 {
        } else {
            crate::field::lemma_add_q_noop(
                com.logs()[0],
                mul_q(es.receiver_index as nat, poly_eval(com.logs().drop_first(), es.receiver_index as nat)),
            );
        }
    }
    lemma_scalar_enc_val(v);
    let ks = keystream_of(c.dh_key.enc(), es.nonce@);
    lemma_xor32_involutive(scalar_enc(v), ks);
    assert(xor32(es.encrypted_polynomial_evaluation@, ks) =~= scalar_enc(v));
}

/// Blame soundness, second half: a share whose decryption under the
/// complaint's verified key fails or contradicts the accused's commitment
/// convicts the accused.
pub proof fn lemma_blame_convicts_bad_sender(
    st: ActualState,
    es: EncryptedSecretShare,
    c: Complaint,
)
    requires
        st.signer_wf(),
        first_commitment(st.their_commitments.unwrap()@, c.accused_index) is Some,
        has_dh_key(st.their_dh_public_keys@, c.maker_index),
        has_dh_key(st.their_dh_public_keys@, c.accused_index),
        complaint_valid(
            c,
            dh_key_of(st.their_dh_public_keys@, c.maker_index).0,
            dh_key_of(st.their_dh_public_keys@, c.accused_index).0,
        ),
        ({
            let pt = xor32(
                es.encrypted_polynomial_evaluation@,
                keystream_of(c.dh_key.enc(), es.nonce@),
            );
            !(le_bytes_val(pt) < group_order()) || point_of(le_bytes_val(pt)) != point_of(
                poly_eval(
                    first_commitment(st.their_commitments.unwrap()@, c.accused_index).unwrap().logs(),
                    es.receiver_index as nat,
                ),
            )
        }),
    ensures
        blame_spec(st, es, c) == c.accused_index,
{
}

/// Preservation of the committed group secret across resharing: every
/// resharing dealer commits to a polynomial whose constant term is its
/// old key share, so the group key the new signers compute is the
/// Lagrange interpolation at zero of the old key shares — the same value
/// every subset of old shareholders of sufficient size determines.
pub proof fn lemma_reshare_group_key(
    cs: Seq<VerifiableSecretSharingCommitment>,
    old_keys: Seq<SecretKey>,
    gk: GroupKey,
)
    requires
        cs.len() == old_keys.len(),
        forall|k: int|
            0 <= k < cs.len() ==> (#[trigger] cs[k]).index == old_keys[k].index
                && cs[k].points@.len() > 0 && cs[k].logs()[0] == old_keys[k].key@,
        gk.wf(),
        gk.0@ == sum_q(group_key_terms(cs)),
    ensures
        gk.0@ == sum_q(
            Seq::new(
                old_keys.len(),
                |k: int|
                    mul_q(
                        lagrange_at_zero(
                            old_keys[k].index as nat,
                            old_keys.map_values(|s: SecretKey| s.index as nat),
                        ),
                        old_keys[k].key@,
                    ),
            ),
        ),
{
    let ids = cs.map_values(|c: VerifiableSecretSharingCommitment| c.index as nat);
    let kids = old_keys.map_values(|s: SecretKey| s.index as nat);
    assert(ids =~= kids);
    assert(group_key_terms(cs) =~= Seq::new(
        old_keys.len(),
        |k: int| mul_q(lagrange_at_zero(old_keys[k].index as nat, kids), old_keys[k].key@),
    ));
}

/// The bridge between the two rounds of an honest run: a share dealt as the
/// evaluation of the sender's polynomial and decrypted by its receiver
/// under the matching pairwise key yields exactly that evaluation.  With
/// the round-one and round-two contracts, every share kept by an honest
/// participant is its dealer's polynomial evaluated at the participant's
/// index.
pub proof fn lemma_honest_share_decrypts_to_evaluation(
    st: ActualState,
    es: EncryptedSecretShare,
    s: SecretShare,
    receiver: crate::keygen::Participant,
    sender_sk: nat,
    coeffs: Seq<nat>,
)
    requires
        crate::keygen::honest_enc_share(es, es.sender_index, receiver, sender_sk, coeffs),
        poly_eval(coeffs, receiver.index as nat) < group_order(),
        crate::keygen::share_decrypted_to(st, es, s),
        // the receiver is the holder of the state and knows the sender
        st.dh_private_key.0@ == receiver.dh_public_key.0@,
        dh_key_of(st.their_dh_public_keys@, es.sender_index).0@ == sender_sk,
    ensures
        s.sender_index == es.sender_index,
        s.receiver_index == receiver.index,
        le_bytes_val(s.polynomial_evaluation.bytes@) == poly_eval(coeffs, receiver.index as nat),
{
    let v = poly_eval(coeffs, receiver.index as nat);
    lemma_mul_q_commutes(sender_sk, receiver.dh_public_key.0@);
    let ks = keystream_of(
        point_of(mul_q(st.dh_private_key.0@, sender_sk)),
        es.nonce@,
    );
    lemma_scalar_enc_val(v);
    lemma_xor32_involutive(scalar_enc(v), ks);
    assert(crate::keygen::share_plaintext(st, es) =~= scalar_enc(v));
}

/// Agreement out of round one: two participants that accept the same peers
/// hold equivalent commitment lists, so by the group-key agreement their
/// `finish` results encode identically.  The round-one contract gives each
/// state's list as the commitments of the accepted peers, which depend on
/// the published participant data alone.
pub proof fn lemma_round_one_commitment_agreement(
    st1: ActualState,
    st2: ActualState,
    valid: Seq<crate::keygen::Participant>,
)
    requires
        st1.their_commitments matches Some(cs1) && crate::keygen::commitments_eqv(
            cs1@,
            valid.map_values(|p: crate::keygen::Participant| p.commitments.unwrap()),
        ),
        st2.their_commitments matches Some(cs2) && crate::keygen::commitments_eqv(
            cs2@,
            valid.map_values(|p: crate::keygen::Participant| p.commitments.unwrap()),
        ),
    ensures
        crate::keygen::commitments_eqv(
            st1.their_commitments.unwrap()@,
            st2.their_commitments.unwrap()@,
        ),
{
    let mapped = valid.map_values(|p: crate::keygen::Participant| p.commitments.unwrap());
    let cs1 = st1.their_commitments.unwrap()@;
    let cs2 = st2.their_commitments.unwrap()@;
    assert forall|k: int| 0 <= k < cs1.len() implies commitment_eqv(#[trigger] cs1[k], cs2[k]) by {
        assert(commitment_eqv(cs1[k], mapped[k]));
        assert(commitment_eqv(cs2[k], mapped[k]));
    }
}

/// Round trip of the parameters record: the encoding of `x` parses back to
/// `x`, with any trailing bytes ignored.
pub proof fn lemma_parameters_roundtrip(x: crate::params::Parameters, tail: Seq<u8>)
    ensures
        ({
            let bytes = x.enc() + tail;
            &&& bytes.len() >= 8
            &&& vstd::bytes::spec_u32_from_le_bytes(bytes.subrange(0, 4)) == x.t
            &&& vstd::bytes::spec_u32_from_le_bytes(bytes.subrange(4, 8)) == x.n
        }),
{
    vstd::bytes::lemma_auto_spec_u32_to_from_le_bytes();
    let bytes = x.enc() + tail;
    assert(bytes.subrange(0, 4) =~= vstd::bytes::spec_u32_to_le_bytes(x.t));
    assert(bytes.subrange(4, 8) =~= vstd::bytes::spec_u32_to_le_bytes(x.n));
}

/// Round trip of a proof of knowledge: the encoding of a well-formed proof
/// parses back to the same scalars.
pub proof fn lemma_nizk_roundtrip(x: crate::nizk::NizkOfSecretKey, tail: Seq<u8>)
    requires
        x.wf(),
    ensures
        ({
            let bytes = x.enc() + tail;
            &&& bytes.len() >= 64
            &&& le_bytes_val(bytes.subrange(0, 32)) < group_order()
            &&& le_bytes_val(bytes.subrange(32, 64)) < group_order()
            &&& bytes.subrange(0, 32) == x.s.bytes@
            &&& bytes.subrange(32, 64) == x.r.bytes@
        }),
{
    let bytes = x.enc() + tail;
    assert(bytes.subrange(0, 32) =~= x.s.bytes@);
    assert(bytes.subrange(32, 64) =~= x.r.bytes@);
}

/// Round trip of a secret share record.
pub proof fn lemma_secret_share_roundtrip(x: SecretShare, tail: Seq<u8>)
    requires
        x.wf(),
    ensures
        ({
            let bytes = x.enc() + tail;
            &&& bytes.len() >= 40
            &&& le_bytes_val(bytes.subrange(8, 40)) < group_order()
            &&& vstd::bytes::spec_u32_from_le_bytes(bytes.subrange(0, 4)) == x.sender_index
            &&& vstd::bytes::spec_u32_from_le_bytes(bytes.subrange(4, 8)) == x.receiver_index
            &&& bytes.subrange(8, 40) == x.polynomial_evaluation.bytes@
        }),
{
    vstd::bytes::lemma_auto_spec_u32_to_from_le_bytes();
    let bytes = x.enc() + tail;
    assert(bytes.subrange(0, 4) =~= vstd::bytes::spec_u32_to_le_bytes(x.sender_index));
    assert(bytes.subrange(4, 8) =~= vstd::bytes::spec_u32_to_le_bytes(x.receiver_index));
    assert(bytes.subrange(8, 40) =~= x.polynomial_evaluation.bytes@);
}

/// Round trip of an encrypted share record.
pub proof fn lemma_encrypted_share_roundtrip(x: EncryptedSecretShare, tail: Seq<u8>)
    ensures
        ({
            let bytes = x.enc() + tail;
            &&& bytes.len() >= 56
            &&& vstd::bytes::spec_u32_from_le_bytes(bytes.subrange(0, 4)) == x.sender_index
            &&& vstd::bytes::spec_u32_from_le_bytes(bytes.subrange(4, 8)) == x.receiver_index
            &&& bytes.subrange(8, 24) == x.nonce@
            &&& bytes.subrange(24, 56) == x.encrypted_polynomial_evaluation@
        }),
{
    vstd::bytes::lemma_auto_spec_u32_to_from_le_bytes();
    let bytes = x.enc() + tail;
    assert(bytes.subrange(0, 4) =~= vstd::bytes::spec_u32_to_le_bytes(x.sender_index));
    assert(bytes.subrange(4, 8) =~= vstd::bytes::spec_u32_to_le_bytes(x.receiver_index));
    assert(bytes.subrange(8, 24) =~= x.nonce@);
    assert(bytes.subrange(24, 56) =~= x.encrypted_polynomial_evaluation@);
}

/// Round trip of a complaint proof record: the encoding of a well-formed
/// proof parses back to the same commitments and response.
pub proof fn lemma_complaint_proof_roundtrip(x: crate::complaint::ComplaintProof, tail: Seq<u8>)
    requires
        x.wf(),
    ensures
        ({
            let bytes = x.enc() + tail;
            &&& bytes.len() >= 96
            &&& crate::point::valid_point_enc(bytes.subrange(0, 32))
            &&& crate::point::valid_point_enc(bytes.subrange(32, 64))
            &&& le_bytes_val(bytes.subrange(64, 96)) < group_order()
            &&& bytes.subrange(0, 32) == x.a1.enc()
            &&& bytes.subrange(32, 64) == x.a2.enc()
            &&& bytes.subrange(64, 96) == x.z.bytes@
        }),
{
    let bytes = x.enc() + tail;
    assert(bytes.subrange(0, 32) =~= x.a1.enc());
    assert(bytes.subrange(32, 64) =~= x.a2.enc());
    assert(bytes.subrange(64, 96) =~= x.z.bytes@);
}

/// Round trip of a complaint record.
pub proof fn lemma_complaint_roundtrip(x: Complaint, tail: Seq<u8>)
    requires
        x.wf(),
    ensures
        ({
            let bytes = x.enc() + tail;
            &&& bytes.len() >= 136
            &&& vstd::bytes::spec_u32_from_le_bytes(bytes.subrange(0, 4)) == x.maker_index
            &&& vstd::bytes::spec_u32_from_le_bytes(bytes.subrange(4, 8)) == x.accused_index
            &&& crate::point::valid_point_enc(bytes.subrange(8, 40))
            &&& bytes.subrange(8, 40) == x.dh_key.enc()
            &&& crate::point::valid_point_enc(bytes.subrange(40, 72))
            &&& bytes.subrange(40, 72) == x.proof.a1.enc()
            &&& crate::point::valid_point_enc(bytes.subrange(72, 104))
            &&& bytes.subrange(72, 104) == x.proof.a2.enc()
            &&& le_bytes_val(bytes.subrange(104, 136)) < group_order()
            &&& bytes.subrange(104, 136) == x.proof.z.bytes@
        }),
{
    vstd::bytes::lemma_auto_spec_u32_to_from_le_bytes();
    let bytes = x.enc() + tail;
    assert(bytes.subrange(0, 4) =~= vstd::bytes::spec_u32_to_le_bytes(x.maker_index));
    assert(bytes.subrange(4, 8) =~= vstd::bytes::spec_u32_to_le_bytes(x.accused_index));
    assert(bytes.subrange(8, 40) =~= x.dh_key.enc());
    assert(bytes.subrange(40, 72) =~= x.proof.a1.enc());
    assert(bytes.subrange(72, 104) =~= x.proof.a2.enc());
    assert(bytes.subrange(104, 136) =~= x.proof.z.bytes@);
}

/// Round trip of a secret key record.
pub proof fn lemma_secret_key_roundtrip(x: SecretKey, tail: Seq<u8>)
    requires
        x.wf(),
    ensures
        ({
            let bytes = x.enc() + tail;
            &&& bytes.len() >= 36
            &&& vstd::bytes::spec_u32_from_le_bytes(bytes.subrange(0, 4)) == x.index
            &&& le_bytes_val(bytes.subrange(4, 36)) < group_order()
            &&& bytes.subrange(4, 36) == x.key.bytes@
        }),
{
    vstd::bytes::lemma_auto_spec_u32_to_from_le_bytes();
    let bytes = x.enc() + tail;
    assert(bytes.subrange(0, 4) =~= vstd::bytes::spec_u32_to_le_bytes(x.index));
    assert(bytes.subrange(4, 36) =~= x.key.bytes@);
}

/// Round trip of a public verification share record.
pub proof fn lemma_individual_public_key_roundtrip(x: IndividualPublicKey, tail: Seq<u8>)
    requires
        x.wf(),
    ensures
        ({
            let bytes = x.enc() + tail;
            &&& bytes.len() >= 36
            &&& vstd::bytes::spec_u32_from_le_bytes(bytes.subrange(0, 4)) == x.index
            &&& crate::point::valid_point_enc(bytes.subrange(4, 36))
            &&& bytes.subrange(4, 36) == x.share.enc()
        }),
{
    vstd::bytes::lemma_auto_spec_u32_to_from_le_bytes();
    let bytes = x.enc() + tail;
    assert(bytes.subrange(0, 4) =~= vstd::bytes::spec_u32_to_le_bytes(x.index));
    assert(bytes.subrange(4, 36) =~= x.share.enc());
}

/// Round trip of the coefficients record: the encoding of a well-formed
/// polynomial parses back to the same scalars.
pub proof fn lemma_coefficients_roundtrip(x: crate::vss::Coefficients)
    requires
        x.wf(),
        x.0@.len() <= 0xffffffff,
    ensures
        ({
            let bytes = x.enc();
            &&& bytes.len() == 4 + 32 * x.0@.len()
            &&& vstd::bytes::spec_u32_from_le_bytes(bytes.subrange(0, 4)) == x.0@.len()
            &&& forall|j: int|
                0 <= j < x.0@.len() ==> #[trigger] crate::encoding::chunk32(bytes, 4, j)
                    == x.0@[j].bytes@ && le_bytes_val(crate::encoding::chunk32(bytes, 4, j))
                    < group_order()
        }),
{
    vstd::bytes::lemma_auto_spec_u32_to_from_le_bytes();
    let bytes = x.enc();
    assert(bytes.subrange(0, 4) =~= vstd::bytes::spec_u32_to_le_bytes(x.0@.len() as u32));
    assert forall|j: int| 0 <= j < x.0@.len() implies #[trigger] crate::encoding::chunk32(
        bytes,
        4,
        j,
    ) =~= x.0@[j].bytes@ by {
        assert forall|b: int| 0 <= b < 32 implies crate::encoding::chunk32(bytes, 4, j)[b]
            == x.0@[j].bytes@[b] by {
            assert((32 * j + b) / 32 == j && (32 * j + b) % 32 == b) by (nonlinear_arith)
                requires
                    0 <= b < 32,
                    0 <= j,
            ;
            assert(bytes[4 + 32 * j + b] == x.0@[(32 * j + b) / 32].bytes@[(32 * j + b) % 32]);
        }
    }
}

/// Round trip of the commitment record: the encoding of a well-formed
/// commitment parses back to the same dealer index and points.
pub proof fn lemma_commitment_roundtrip(x: VerifiableSecretSharingCommitment)
    requires
        x.wf(),
        x.points@.len() <= 0xffffffff,
    ensures
        ({
            let bytes = x.enc();
            &&& bytes.len() == 8 + 32 * x.points@.len()
            &&& vstd::bytes::spec_u32_from_le_bytes(bytes.subrange(0, 4)) == x.index
            &&& vstd::bytes::spec_u32_from_le_bytes(bytes.subrange(4, 8)) == x.points@.len()
            &&& forall|j: int|
                0 <= j < x.points@.len() ==> #[trigger] crate::encoding::chunk32(bytes, 8, j)
                    == x.points@[j].bytes@ && crate::point::valid_point_enc(
                    crate::encoding::chunk32(bytes, 8, j),
                )
        }),
{
    vstd::bytes::lemma_auto_spec_u32_to_from_le_bytes();
    let bytes = x.enc();
    assert(bytes.subrange(0, 4) =~= vstd::bytes::spec_u32_to_le_bytes(x.index));
    assert(bytes.subrange(4, 8) =~= vstd::bytes::spec_u32_to_le_bytes(x.points@.len() as u32));
    assert forall|j: int| 0 <= j < x.points@.len() implies #[trigger] crate::encoding::chunk32(
        bytes,
        8,
        j,
    ) =~= x.points@[j].bytes@ by {
        assert forall|b: int| 0 <= b < 32 implies crate::encoding::chunk32(bytes, 8, j)[b]
            == x.points@[j].bytes@[b] by {
            assert((32 * j + b) / 32 == j && (32 * j + b) % 32 == b) by (nonlinear_arith)
                requires
                    0 <= b < 32,
                    0 <= j,
            ;
            assert(bytes[8 + 32 * j + b] == x.points@[(32 * j + b) / 32].bytes@[(32 * j + b)
                % 32]);
        }
    }
    assert forall|j: int| 0 <= j < x.points@.len() implies crate::point::valid_point_enc(
        crate::encoding::chunk32(bytes, 8, j),
    ) by {
        assert(x.points@[j].wf());
        assert(x.points@[j].bytes@ == point_of(x.points@[j].log@));
    }
}

/// Round trip of the participant record: the encoding of a well-formed
/// participant parses, with any trailing bytes ignored, and the decoder's
/// value clauses then pin every decoded field to this participant's own
/// encodings.
pub proof fn lemma_participant_roundtrip(x: crate::keygen::Participant, tail: Seq<u8>)
    requires
        x.wf(),
        x.commitments matches Some(c) ==> c.points@.len() <= 0xffffffff,
    ensures
        crate::keygen::participant_parses(x.enc() + tail),
        ({
            let bytes = x.enc() + tail;
            let toff = crate::keygen::participant_tail_off(bytes);
            let doff = if bytes[toff] == 1 {
                toff + 65
            } else {
                toff + 1
            };
            &&& vstd::bytes::spec_u32_from_le_bytes(bytes.subrange(0, 4)) == x.index
            &&& bytes.subrange(4, 36) == x.dh_public_key.0.enc()
            &&& (bytes[36] == 1 <==> x.commitments is Some)
            &&& (x.commitments matches Some(c) ==> bytes.skip(37).subrange(
                0,
                crate::keygen::commitment_segment_len(bytes.skip(37)),
            ) == c.enc())
            &&& (bytes[toff] == 1 <==> x.proof_of_secret_key is Some)
            &&& (x.proof_of_secret_key matches Some(pk) ==> bytes.skip(toff + 1).subrange(0, 32)
                == pk.s.bytes@ && bytes.skip(toff + 1).subrange(32, 64) == pk.r.bytes@)
            &&& bytes.skip(doff).subrange(0, 32) == x.proof_of_dh_private_key.s.bytes@
            &&& bytes.skip(doff).subrange(32, 64) == x.proof_of_dh_private_key.r.bytes@
        }),
{
    vstd::bytes::lemma_auto_spec_u32_to_from_le_bytes();
    let bytes = x.enc() + tail;
    assert(bytes.subrange(4, 36) =~= x.dh_public_key.0.enc());
    assert(crate::point::valid_point_enc(bytes.subrange(4, 36))) by {
        assert(x.dh_public_key.0.bytes@ == point_of(x.dh_public_key.0.log@));
    }
    assert(bytes.subrange(0, 4) =~= vstd::bytes::spec_u32_to_le_bytes(x.index));
    match x.commitments {
        Some(c) => {
            assert(bytes[36] == 1);
            let seg = bytes.skip(37);
            let m = c.points@.len() as int;
            lemma_commitment_roundtrip(c);
            assert(seg.subrange(0, c.enc().len() as int) =~= c.enc());
            assert(seg.subrange(4, 8) =~= c.enc().subrange(4, 8));
            assert(vstd::bytes::spec_u32_from_le_bytes(seg.subrange(4, 8)) == m);
            assert forall|j: int| 0 <= j < m implies crate::point::valid_point_enc(
                #[trigger] crate::encoding::chunk32(seg, 8, j),
            ) by {
                assert(crate::encoding::chunk32(seg, 8, j) =~= crate::encoding::chunk32(
                    c.enc(),
                    8,
                    j,
                ));
            }
            assert(crate::keygen::commitment_segment_ok(seg));
            assert(crate::keygen::commitment_segment_len(seg) == c.enc().len());
            lemma_participant_tail(x, tail, 37 + c.enc().len() as int);
            assert(crate::keygen::participant_tail_off(bytes) == 37 + c.enc().len());
        },
        None => {
            assert(bytes[36] == 0);
            lemma_participant_tail(x, tail, 37);
            assert(crate::keygen::participant_tail_off(bytes) == 37);
        },
    }
}

/// The tail of an encoded participant record parses from the position just
/// after the commitment segment.
proof fn lemma_participant_tail(x: crate::keygen::Participant, tail: Seq<u8>, off: int)
    requires
        x.wf(),
        0 <= off,
        ({
            let bytes = x.enc() + tail;
            off + 1 <= bytes.len() && bytes.skip(off) =~= (match x.proof_of_secret_key {
                Some(p) => seq![1u8] + p.enc(),
                None => seq![0u8],
            }) + x.proof_of_dh_private_key.enc() + tail
        }),
    ensures
        crate::keygen::participant_tail_ok(x.enc() + tail, off),
        ({
            let bytes = x.enc() + tail;
            let doff = if bytes[off] == 1 {
                off + 65
            } else {
                off + 1
            };
            &&& (bytes[off] == 1 <==> x.proof_of_secret_key is Some)
            &&& (x.proof_of_secret_key matches Some(pk) ==> bytes.skip(off + 1).subrange(0, 32)
                == pk.s.bytes@ && bytes.skip(off + 1).subrange(32, 64) == pk.r.bytes@)
            &&& bytes.skip(doff).subrange(0, 32) == x.proof_of_dh_private_key.s.bytes@
            &&& bytes.skip(doff).subrange(32, 64) == x.proof_of_dh_private_key.r.bytes@
        }),
{
    let bytes = x.enc() + tail;
    let s0 = bytes.skip(off);
    assert(bytes[off] == s0[0]);
    assert(bytes.skip(off + 1) =~= s0.skip(1));
    match x.proof_of_secret_key {
        Some(p) => {
            assert(s0 == seq![1u8] + p.enc() + x.proof_of_dh_private_key.enc() + tail);
            assert(s0[0] == 1u8);
            assert(s0.skip(1) =~= p.enc() + x.proof_of_dh_private_key.enc() + tail);
            assert(bytes.skip(off + 1).subrange(0, 32) =~= p.s.bytes@);
            assert(bytes.skip(off + 1).subrange(32, 64) =~= p.r.bytes@);
            assert(bytes.skip(off + 65) =~= s0.skip(65));
            assert(s0.skip(65) =~= x.proof_of_dh_private_key.enc() + tail);
            assert(bytes.skip(off + 65).subrange(0, 32) =~= x.proof_of_dh_private_key.s.bytes@);
            assert(bytes.skip(off + 65).subrange(32, 64) =~= x.proof_of_dh_private_key.r.bytes@);
        },
        None => {
            assert(s0 == seq![0u8] + x.proof_of_dh_private_key.enc() + tail);
            assert(s0[0] == 0u8);
            assert(s0.skip(1) =~= x.proof_of_dh_private_key.enc() + tail);
            assert(bytes.skip(off + 1).subrange(0, 32) =~= x.proof_of_dh_private_key.s.bytes@);
            assert(bytes.skip(off + 1).subrange(32, 64) =~= x.proof_of_dh_private_key.r.bytes@);
        },
    }
}

/// The length of an encoded key list: 36 bytes per entry.
proof fn lemma_enc_key_list_len(keys: Seq<(u32, crate::keys::DHPublicKey)>)
    ensures
        crate::keygen::enc_key_list(keys).len() == 36 * keys.len(),
    decreases keys.len(),
{
    vstd::bytes::lemma_auto_spec_u32_to_from_le_bytes();
    if keys.len() > 0 {
        lemma_enc_key_list_len(keys.drop_last());
    }
}

/// Each 36-byte chunk of an encoded key list is its entry's index and key.
proof fn lemma_enc_key_list_chunk(keys: Seq<(u32, crate::keys::DHPublicKey)>, k: int)
    requires
        0 <= k < keys.len(),
    ensures
        crate::keygen::enc_key_list(keys).subrange(36 * k, 36 * k + 4)
            == vstd::bytes::spec_u32_to_le_bytes(keys[k].0),
        crate::keygen::enc_key_list(keys).subrange(36 * k + 4, 36 * k + 36) == keys[k].1.0.enc(),
    decreases keys.len(),
{
    vstd::bytes::lemma_auto_spec_u32_to_from_le_bytes();
    lemma_enc_key_list_len(keys.drop_last());
    let e = crate::keygen::enc_key_list(keys);
    if k == keys.len() - 1 {
        assert(e.subrange(36 * k, 36 * k + 4) =~= vstd::bytes::spec_u32_to_le_bytes(keys[k].0));
        assert(e.subrange(36 * k + 4, 36 * k + 36) =~= keys[k].1.0.enc());
    } else {
        lemma_enc_key_list_chunk(keys.drop_last(), k);
        assert(e.subrange(36 * k, 36 * k + 4) =~= crate::keygen::enc_key_list(
            keys.drop_last(),
        ).subrange(36 * k, 36 * k + 4));
        assert(e.subrange(36 * k + 4, 36 * k + 36) =~= crate::keygen::enc_key_list(
            keys.drop_last(),
        ).subrange(36 * k + 4, 36 * k + 36));
    }
}

/// The length of an encoded outbound-share list: 56 bytes per entry.
proof fn lemma_enc_es_list_len(es: Seq<EncryptedSecretShare>)
    ensures
        crate::keygen::enc_es_list(es).len() == 56 * es.len(),
    decreases es.len(),
{
    vstd::bytes::lemma_auto_spec_u32_to_from_le_bytes();
    if es.len() > 0 {
        lemma_enc_es_list_len(es.drop_last());
    }
}

/// Each 56-byte chunk of an encoded outbound-share list is its entry's
/// encoding.
proof fn lemma_enc_es_list_chunk(es: Seq<EncryptedSecretShare>, k: int)
    requires
        0 <= k < es.len(),
    ensures
        crate::keygen::enc_es_list(es).subrange(56 * k, 56 * k + 56) == es[k].enc(),
    decreases es.len(),
{
    vstd::bytes::lemma_auto_spec_u32_to_from_le_bytes();
    lemma_enc_es_list_len(es.drop_last());
    let e = crate::keygen::enc_es_list(es);
    if k == es.len() - 1 {
        assert(e.subrange(56 * k, 56 * k + 56) =~= es[k].enc());
    } else {
        lemma_enc_es_list_chunk(es.drop_last(), k);
        assert(e.subrange(56 * k, 56 * k + 56) =~= crate::keygen::enc_es_list(
            es.drop_last(),
        ).subrange(56 * k, 56 * k + 56));
    }
}

/// The length of an encoded inbound-share list: 40 bytes per entry.
proof fn lemma_enc_ss_list_len(ss: Seq<SecretShare>)
    ensures
        crate::keygen::enc_ss_list(ss).len() == 40 * ss.len(),
    decreases ss.len(),
{
    vstd::bytes::lemma_auto_spec_u32_to_from_le_bytes();
    if ss.len() > 0 {
        lemma_enc_ss_list_len(ss.drop_last());
    }
}

/// Each 40-byte chunk of an encoded inbound-share list is its entry's
/// encoding.
proof fn lemma_enc_ss_list_chunk(ss: Seq<SecretShare>, k: int)
    requires
        0 <= k < ss.len(),
    ensures
        crate::keygen::enc_ss_list(ss).subrange(40 * k, 40 * k + 40) == ss[k].enc(),
    decreases ss.len(),
{
    vstd::bytes::lemma_auto_spec_u32_to_from_le_bytes();
    lemma_enc_ss_list_len(ss.drop_last());
    let e = crate::keygen::enc_ss_list(ss);
    if k == ss.len() - 1 {
        assert(e.subrange(40 * k, 40 * k + 40) =~= ss[k].enc());
    } else {
        lemma_enc_ss_list_chunk(ss.drop_last(), k);
        assert(e.subrange(40 * k, 40 * k + 40) =~= crate::keygen::enc_ss_list(
            ss.drop_last(),
        ).subrange(40 * k, 40 * k + 40));
    }
}

/// The encoded commitment list decomposes at its head.
proof fn lemma_enc_commitment_list_head(cs: Seq<VerifiableSecretSharingCommitment>)
    requires
        cs.len() > 0,
    ensures
        crate::keygen::enc_commitment_list(cs) == cs[0].enc() + crate::keygen::enc_commitment_list(
            cs.drop_first(),
        ),
    decreases cs.len(),
{
    if cs.len() == 1 {
        assert(cs.drop_last() =~= Seq::<VerifiableSecretSharingCommitment>::empty());
        assert(cs.drop_first() =~= Seq::<VerifiableSecretSharingCommitment>::empty());
        assert(cs.last() == cs[0]);
        assert(crate::keygen::enc_commitment_list(cs) =~= cs[0].enc()
            + crate::keygen::enc_commitment_list(cs.drop_first()));
    } else {
        lemma_enc_commitment_list_head(cs.drop_last());
        assert(cs.drop_last()[0] == cs[0]);
        assert(cs.drop_last().drop_first() =~= cs.drop_first().drop_last());
        assert(cs.drop_first().last() == cs.last());
        assert(crate::keygen::enc_commitment_list(cs.drop_first())
            == crate::keygen::enc_commitment_list(cs.drop_first().drop_last())
            + cs.last().enc());
        assert(crate::keygen::enc_commitment_list(cs) =~= cs[0].enc()
            + crate::keygen::enc_commitment_list(cs.drop_first()));
    }
}

/// An encoded commitment list, followed by anything, decodes back to the
/// same commitments.
proof fn lemma_commitment_list_enc_decodes(
    cs: Seq<VerifiableSecretSharingCommitment>,
    tail: Seq<u8>,
)
    requires
        forall|k: int|
            0 <= k < cs.len() ==> (#[trigger] cs[k]).wf() && 0 < cs[k].points@.len() <= 0xffffffff,
    ensures
        crate::keygen::commitment_list_decodes(crate::keygen::enc_commitment_list(cs) + tail, cs),
        crate::keygen::commitment_encs_len(cs) == crate::keygen::enc_commitment_list(cs).len(),
    decreases cs.len(),
{
    vstd::bytes::lemma_auto_spec_u32_to_from_le_bytes();
    if cs.len() > 0 {
        let head = cs[0];
        let m = head.points@.len() as int;
        lemma_enc_commitment_list_head(cs);
        let b = crate::keygen::enc_commitment_list(cs) + tail;
        lemma_commitment_roundtrip(head);
        assert(head.enc().len() == 8 + 32 * m);
        assert(b.subrange(0, head.enc().len() as int) =~= head.enc());
        assert(b.subrange(4, 8) =~= head.enc().subrange(4, 8));
        assert(vstd::bytes::spec_u32_from_le_bytes(b.subrange(4, 8)) == m);
        assert(crate::keygen::commitment_segment_len(b) == 8 + 32 * m);
        assert forall|j: int| 0 <= j < m implies crate::point::valid_point_enc(
            #[trigger] crate::encoding::chunk32(b, 8, j),
        ) by {
            assert(crate::encoding::chunk32(b, 8, j) =~= crate::encoding::chunk32(
                head.enc(),
                8,
                j,
            ));
        }
        assert(crate::keygen::state_commitment_seg_ok(b));
        let rest_tail = crate::keygen::enc_commitment_list(cs.drop_first()) + tail;
        assert(b.skip(crate::keygen::commitment_segment_len(b)) =~= rest_tail);
        lemma_commitment_list_enc_decodes(cs.drop_first(), tail);
        assert(crate::keygen::commitment_list_decodes(b.skip(
            crate::keygen::commitment_segment_len(b),
        ), cs.drop_first()));
        assert(crate::keygen::commitment_list_decodes(b, cs));
        assert(crate::keygen::commitment_encs_len(cs) == head.enc().len()
            + crate::keygen::commitment_encs_len(cs.drop_first()));
    }
}

/// Round trip of the state dump: the encoding of a well-formed state
/// parses, with any trailing bytes ignored, and the state itself satisfies
/// the decoder's content predicate on its own encoding — so the decoder's
/// contract pins the decoded state to this one, section by section.
#[verifier::rlimit(100)]
pub proof fn lemma_state_roundtrip(st: ActualState, tail: Seq<u8>)
    requires
        st.wf(),
        st.their_commitments matches Some(cs) ==> cs@.len() <= 0xffffffff && (forall|k: int|
            0 <= k < cs@.len() ==> (#[trigger] cs@[k]).points@.len() <= 0xffffffff),
        st.their_dh_public_keys@.len() <= 0xffffffff,
        st.their_encrypted_secret_shares matches Some(es) ==> es@.len() <= 0xffffffff,
        st.my_secret_shares matches Some(ss) ==> ss@.len() <= 0xffffffff,
    ensures
        crate::keygen::state_parses(st.enc() + tail),
        crate::keygen::state_decoded_matches(st.enc() + tail, st),
{
    vstd::bytes::lemma_auto_spec_u32_to_from_le_bytes();
    let b = st.enc() + tail;
    let keys = st.their_dh_public_keys@;
    let kc = keys.len() as int;
    let sec_keys = vstd::bytes::spec_u32_to_le_bytes(keys.len() as u32)
        + crate::keygen::enc_key_list(keys);
    let sec_es = match st.their_encrypted_secret_shares {
        Some(es) => seq![1u8] + vstd::bytes::spec_u32_to_le_bytes(es@.len() as u32)
            + crate::keygen::enc_es_list(es@),
        None => seq![0u8],
    };
    let sec_ss = match st.my_secret_shares {
        Some(ss) => seq![1u8] + vstd::bytes::spec_u32_to_le_bytes(ss@.len() as u32)
            + crate::keygen::enc_ss_list(ss@),
        None => seq![0u8],
    };
    lemma_enc_key_list_len(keys);
    // the fixed 76-byte prefix
    assert(b.subrange(0, 4) =~= vstd::bytes::spec_u32_to_le_bytes(st.parameters.t));
    assert(b.subrange(4, 8) =~= vstd::bytes::spec_u32_to_le_bytes(st.parameters.n));
    assert(b.subrange(8, 12) =~= vstd::bytes::spec_u32_to_le_bytes(st.index));
    assert(b.subrange(12, 44) =~= st.dh_private_key.0.bytes@);
    assert(b.subrange(44, 76) =~= st.dh_public_key.0.enc());
    assert(b.subrange(44, 76) == point_of(le_bytes_val(b.subrange(12, 44))));
    // the commitment section fixes the keys offset
    let ko: int = match st.their_commitments {
        Some(cs) => {
            let clist = crate::keygen::enc_commitment_list(cs@);
            assert(b[76] == 1);
            assert(b.subrange(77, 81) =~= vstd::bytes::spec_u32_to_le_bytes(cs@.len() as u32));
            assert forall|k: int|
                0 <= k < cs@.len() implies (#[trigger] cs@[k]).wf() && 0 < cs@[k].points@.len()
                <= 0xffffffff by {}
            lemma_commitment_list_enc_decodes(cs@, sec_keys + sec_es + sec_ss + tail);
            assert(b.skip(81) =~= clist + (sec_keys + sec_es + sec_ss + tail));
            assert(crate::keygen::commitment_list_decodes(b.skip(81), cs@));
            crate::keygen::lemma_commitment_list_complete_pub(b.skip(81), cs@);
            assert(crate::keygen::commitment_list_ok(b.skip(81), cs@.len() as int));
            assert(crate::keygen::commitment_list_len(b.skip(81), cs@.len() as int)
                == clist.len());
            81 + clist.len() as int
        },
        None => {
            assert(b[76] == 0);
            77
        },
    };
    assert(ko == crate::keygen::state_keys_off(b));
    // the peers'-key section
    assert(b.subrange(ko, ko + 4) =~= vstd::bytes::spec_u32_to_le_bytes(keys.len() as u32));
    let eo: int = ko + 4 + 36 * kc;
    assert forall|k: int| 0 <= k < kc implies (#[trigger] crate::encoding::chunk_at(
        b,
        ko + 4,
        36,
        k,
    )).subrange(0, 4) == vstd::bytes::spec_u32_to_le_bytes(keys[k].0) && crate::encoding::chunk_at(
        b,
        ko + 4,
        36,
        k,
    ).subrange(4, 36) == keys[k].1.0.enc() by {
        lemma_enc_key_list_chunk(keys, k);
        assert(crate::encoding::chunk_at(b, ko + 4, 36, k).subrange(0, 4)
            =~= crate::keygen::enc_key_list(keys).subrange(36 * k, 36 * k + 4));
        assert(crate::encoding::chunk_at(b, ko + 4, 36, k).subrange(4, 36)
            =~= crate::keygen::enc_key_list(keys).subrange(36 * k + 4, 36 * k + 36));
    }
    assert forall|k: int| 0 <= k < kc implies crate::point::valid_point_enc(
        #[trigger] crate::encoding::chunk_at(b, ko + 4, 36, k).subrange(4, 36),
    ) by {
        assert(keys[k].1.wf());
        assert(keys[k].1.0.bytes@ == point_of(keys[k].1.0.log@));
    }
    assert forall|k: int| 0 <= k < kc implies #[trigger] keys[k].0 == vstd::bytes::spec_u32_from_le_bytes(
        crate::encoding::chunk_at(b, ko + 4, 36, k).subrange(0, 4),
    ) by {
        assert(crate::encoding::chunk_at(b, ko + 4, 36, k).subrange(0, 4)
            == vstd::bytes::spec_u32_to_le_bytes(keys[k].0));
    }
    assert forall|k: int| 0 <= k < kc implies crate::keygen::parsed_key_indices(b, ko + 4, kc)[k]
        == crate::keygen::dh_key_indices(keys)[k] by {
        assert(keys[k].0 == vstd::bytes::spec_u32_from_le_bytes(
            crate::encoding::chunk_at(b, ko + 4, 36, k).subrange(0, 4),
        ));
    }
    assert(crate::keygen::parsed_key_indices(b, ko + 4, kc) =~= crate::keygen::dh_key_indices(
        keys,
    ));
    assert(eo == crate::keygen::state_es_off(b));
    // the outbound-share section fixes the inbound offset
    let so: int = match st.their_encrypted_secret_shares {
        Some(es) => {
            assert(b[eo] == 1);
            assert(b.subrange(eo + 1, eo + 5) =~= vstd::bytes::spec_u32_to_le_bytes(
                es@.len() as u32,
            ));
            lemma_enc_es_list_len(es@);
            assert forall|k: int| 0 <= k < es@.len() implies #[trigger] crate::encoding::chunk_at(
                b,
                eo + 5,
                56,
                k,
            ) == es@[k].enc() by {
                lemma_enc_es_list_chunk(es@, k);
                assert(crate::encoding::chunk_at(b, eo + 5, 56, k)
                    =~= crate::keygen::enc_es_list(es@).subrange(56 * k, 56 * k + 56));
            }
            eo + 5 + 56 * es@.len() as int
        },
        None => {
            assert(b[eo] == 0);
            eo + 1
        },
    };
    assert(so == crate::keygen::state_ss_off(b));
    // the inbound-share section
    match st.my_secret_shares {
        Some(ss) => {
            assert(b[so] == 1);
            assert(b.subrange(so + 1, so + 5) =~= vstd::bytes::spec_u32_to_le_bytes(
                ss@.len() as u32,
            ));
            lemma_enc_ss_list_len(ss@);
            assert forall|k: int| 0 <= k < ss@.len() implies #[trigger] crate::encoding::chunk_at(
                b,
                so + 5,
                40,
                k,
            ) == ss@[k].enc() by {
                lemma_enc_ss_list_chunk(ss@, k);
                assert(crate::encoding::chunk_at(b, so + 5, 40, k)
                    =~= crate::keygen::enc_ss_list(ss@).subrange(40 * k, 40 * k + 40));
            }
            assert forall|k: int| 0 <= k < ss@.len() implies le_bytes_val(
                #[trigger] crate::encoding::chunk_at(b, so + 5, 40, k).subrange(8, 40),
            ) < group_order() by {
                assert(crate::encoding::chunk_at(b, so + 5, 40, k).subrange(8, 40)
                    =~= ss@[k].polynomial_evaluation.bytes@);
                assert(ss@[k].wf());
            }
            assert(crate::keygen::state_ss_from(b, so));
        },
        None => {
            assert(b[so] == 0);
            assert(crate::keygen::state_ss_from(b, so));
        },
    }
    assert(crate::keygen::state_es_from(b, eo));
    assert(crate::keygen::state_keys_from(b, ko));
    assert(crate::keygen::state_parses(b));
    assert(crate::keygen::state_decoded_matches(b, st));
}

/// Round trip of a serialised round state: the dump of a state with the
/// round tag appended parses, ends in that tag, and carries the sections
/// the round-state decoders demand, so decoding yields a state matching
/// this one section by section.
pub proof fn lemma_round_state_roundtrip(st: ActualState, tag: u8)
    requires
        st.wf(),
        st.their_commitments matches Some(cs) ==> cs@.len() <= 0xffffffff && (forall|k: int|
            0 <= k < cs@.len() ==> (#[trigger] cs@[k]).points@.len() <= 0xffffffff),
        st.their_dh_public_keys@.len() <= 0xffffffff,
        st.their_encrypted_secret_shares matches Some(es) ==> es@.len() <= 0xffffffff,
        st.my_secret_shares matches Some(ss) ==> ss@.len() <= 0xffffffff,
        st.their_commitments is Some,
    ensures
        crate::keygen::state_parses(st.enc() + seq![tag]),
        (st.enc() + seq![tag])[(st.enc() + seq![tag]).len() - 1] == tag,
        (st.enc() + seq![tag])[76] == 1,
        st.my_secret_shares is Some ==> (st.enc() + seq![tag])[crate::keygen::state_ss_off(
            st.enc() + seq![tag],
        )] == 1,
        crate::keygen::state_decoded_matches(st.enc() + seq![tag], st),
{
    lemma_state_roundtrip(st, seq![tag]);
    let b = st.enc() + seq![tag];
    assert(b[b.len() - 1] == tag);
}

} // verus!
