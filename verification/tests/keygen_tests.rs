//! The distributed key generation, exercised end to end: proofs of
//! knowledge, share dealing, complaints, blame, resharing, and the record
//! codecs.

use rand::RngCore;

use ice_frost::{
    calculate_lagrange_coefficients, Coefficients, Complaint, ComplaintProof,
    DistributedKeyGeneration, EncryptedSecretShare, Error, FieldScalar, GroupElement, GroupKey,
    IndividualPublicKey, NizkOfSecretKey, Parameters, Participant, RoundOne, RoundTwo, SecretShare,
    VerifiableSecretSharingCommitment,
};

#[test]
fn nizk_of_secret_key() {
    let params = Parameters { n: 3, t: 2 };

    let (p, _, _) = Participant::new_dealer(&params, 0, "Φ");
    let result = p
        .proof_of_secret_key
        .as_ref()
        .unwrap()
        .verify(&p.index, p.public_key().unwrap(), "Φ");

    assert!(result.is_ok());
}

#[test]
fn secret_share_from_one_coefficients() {
    let mut coeffs: Vec<FieldScalar> = Vec::new();

    for _ in 0..5 {
        coeffs.push(FieldScalar::one());
    }

    let coefficients = Coefficients(coeffs);
    let share = SecretShare::evaluate_polynomial(&1, &1, &coefficients);

    assert!(share.polynomial_evaluation == FieldScalar::from_u32(5));

    let mut commitments = VerifiableSecretSharingCommitment {
        index: 1,
        points: Vec::new(),
    };

    for i in 0..5 {
        commitments
            .points
            .push(GroupElement::base_mul(&coefficients.0[i]));
    }

    assert!(share.verify(&commitments).is_ok());
}

#[test]
fn secret_share_participant_index_zero() {
    let mut coeffs: Vec<FieldScalar> = Vec::new();

    for _ in 0..5 {
        coeffs.push(FieldScalar::one());
    }

    let coefficients = Coefficients(coeffs);
    let share = SecretShare::evaluate_polynomial(&1, &0, &coefficients);

    assert!(share.polynomial_evaluation == FieldScalar::one());

    let mut commitments = VerifiableSecretSharingCommitment {
        index: 1,
        points: Vec::new(),
    };

    for i in 0..5 {
        commitments
            .points
            .push(GroupElement::base_mul(&coefficients.0[i]));
    }

    assert!(share.verify(&commitments).is_ok());
}

#[test]
fn single_party_keygen() {
    let params = Parameters { n: 1, t: 1 };

    let (p1, p1coeffs, p1_dh_sk) = Participant::new_dealer(&params, 1, "Φ");

    p1.proof_of_secret_key
        .as_ref()
        .unwrap()
        .verify(&p1.index, p1.public_key().unwrap(), "Φ")
        .ok()
        .unwrap();

    let participants: Vec<Participant> = vec![p1.clone()];
    let (p1_state, _participant_lists) = DistributedKeyGeneration::<RoundOne>::new_initial(
        &params,
        &p1_dh_sk,
        &p1.index,
        &p1coeffs,
        &participants,
        "Φ",
    )
    .ok()
    .unwrap();
    let p1_my_encrypted_secret_shares = p1_state.their_encrypted_secret_shares().ok().unwrap().clone();
    let p1_state = p1_state
        .to_round_two(p1_my_encrypted_secret_shares)
        .ok()
        .unwrap();
    let result = p1_state.finish();

    assert!(result.is_ok());

    let (p1_group_key, p1_secret_key) = result.ok().unwrap();

    assert_eq!(
        p1_group_key.to_bytes(),
        GroupElement::base_mul(&p1_secret_key.key).to_bytes()
    );
}

#[test]
fn keygen_3_out_of_5() {
    let params = Parameters { n: 5, t: 3 };

    let (p1, p1coeffs, p1_dh_sk) = Participant::new_dealer(&params, 1, "Φ");
    let (p2, p2coeffs, p2_dh_sk) = Participant::new_dealer(&params, 2, "Φ");
    let (p3, p3coeffs, p3_dh_sk) = Participant::new_dealer(&params, 3, "Φ");
    let (p4, p4coeffs, p4_dh_sk) = Participant::new_dealer(&params, 4, "Φ");
    let (p5, p5coeffs, p5_dh_sk) = Participant::new_dealer(&params, 5, "Φ");

    p1.proof_of_secret_key.as_ref().unwrap().verify(&p1.index, p1.public_key().unwrap(), "Φ").ok().unwrap();
    p2.proof_of_secret_key.as_ref().unwrap().verify(&p2.index, p2.public_key().unwrap(), "Φ").ok().unwrap();
    p3.proof_of_secret_key.as_ref().unwrap().verify(&p3.index, p3.public_key().unwrap(), "Φ").ok().unwrap();
    p4.proof_of_secret_key.as_ref().unwrap().verify(&p4.index, p4.public_key().unwrap(), "Φ").ok().unwrap();
    p5.proof_of_secret_key.as_ref().unwrap().verify(&p5.index, p5.public_key().unwrap(), "Φ").ok().unwrap();

    let participants: Vec<Participant> =
        vec![p1.clone(), p2.clone(), p3.clone(), p4.clone(), p5.clone()];
    let (p1_state, _) = DistributedKeyGeneration::<RoundOne>::new_initial(
        &params, &p1_dh_sk, &p1.index, &p1coeffs, &participants, "Φ",
    )
    .ok()
    .unwrap();
    let p1_their = p1_state.their_encrypted_secret_shares().ok().unwrap().clone();

    let (p2_state, _) = DistributedKeyGeneration::<RoundOne>::new_initial(
        &params, &p2_dh_sk, &p2.index, &p2coeffs, &participants, "Φ",
    )
    .ok()
    .unwrap();
    let p2_their = p2_state.their_encrypted_secret_shares().ok().unwrap().clone();

    let (p3_state, _) = DistributedKeyGeneration::<RoundOne>::new_initial(
        &params, &p3_dh_sk, &p3.index, &p3coeffs, &participants, "Φ",
    )
    .ok()
    .unwrap();
    let p3_their = p3_state.their_encrypted_secret_shares().ok().unwrap().clone();

    let (p4_state, _) = DistributedKeyGeneration::<RoundOne>::new_initial(
        &params, &p4_dh_sk, &p4.index, &p4coeffs, &participants, "Φ",
    )
    .ok()
    .unwrap();
    let p4_their = p4_state.their_encrypted_secret_shares().ok().unwrap().clone();

    let (p5_state, _) = DistributedKeyGeneration::<RoundOne>::new_initial(
        &params, &p5_dh_sk, &p5.index, &p5coeffs, &participants, "Φ",
    )
    .ok()
    .unwrap();
    let p5_their = p5_state.their_encrypted_secret_shares().ok().unwrap().clone();

    let p1_my = vec![p1_their[0], p2_their[0], p3_their[0], p4_their[0], p5_their[0]];
    let p2_my = vec![p1_their[1], p2_their[1], p3_their[1], p4_their[1], p5_their[1]];
    let p3_my = vec![p1_their[2], p2_their[2], p3_their[2], p4_their[2], p5_their[2]];
    let p4_my = vec![p1_their[3], p2_their[3], p3_their[3], p4_their[3], p5_their[3]];
    let p5_my = vec![p1_their[4], p2_their[4], p3_their[4], p4_their[4], p5_their[4]];

    let p1_state = p1_state.to_round_two(p1_my).ok().unwrap();
    let p2_state = p2_state.to_round_two(p2_my).ok().unwrap();
    let p3_state = p3_state.to_round_two(p3_my).ok().unwrap();
    let p4_state = p4_state.to_round_two(p4_my).ok().unwrap();
    let p5_state = p5_state.to_round_two(p5_my).ok().unwrap();

    let (p1_group_key, p1_secret_key) = p1_state.finish().ok().unwrap();
    let (p2_group_key, p2_secret_key) = p2_state.finish().ok().unwrap();
    let (p3_group_key, p3_secret_key) = p3_state.finish().ok().unwrap();
    let (p4_group_key, p4_secret_key) = p4_state.finish().ok().unwrap();
    let (p5_group_key, p5_secret_key) = p5_state.finish().ok().unwrap();

    assert!(p1_group_key.to_bytes() == p2_group_key.to_bytes());
    assert!(p2_group_key.to_bytes() == p3_group_key.to_bytes());
    assert!(p3_group_key.to_bytes() == p4_group_key.to_bytes());
    assert!(p4_group_key.to_bytes() == p5_group_key.to_bytes());

    let mut group_secret_key = FieldScalar::zero();
    let indices = [1, 2, 3, 4, 5];

    group_secret_key = group_secret_key.add(
        &calculate_lagrange_coefficients(&1, &indices).ok().unwrap().mul(&p1_secret_key.key),
    );
    group_secret_key = group_secret_key.add(
        &calculate_lagrange_coefficients(&2, &indices).ok().unwrap().mul(&p2_secret_key.key),
    );
    group_secret_key = group_secret_key.add(
        &calculate_lagrange_coefficients(&3, &indices).ok().unwrap().mul(&p3_secret_key.key),
    );
    group_secret_key = group_secret_key.add(
        &calculate_lagrange_coefficients(&4, &indices).ok().unwrap().mul(&p4_secret_key.key),
    );
    group_secret_key = group_secret_key.add(
        &calculate_lagrange_coefficients(&5, &indices).ok().unwrap().mul(&p5_secret_key.key),
    );

    let group_key = GroupElement::base_mul(&group_secret_key);

    assert!(p5_group_key.to_bytes() == group_key.to_bytes())
}

fn run_2_out_of_3() -> (GroupKey, GroupKey, GroupKey) {
    let params = Parameters { n: 3, t: 2 };

    let (p1, p1coeffs, p1_dh_sk) = Participant::new_dealer(&params, 1, "Φ");
    let (p2, p2coeffs, p2_dh_sk) = Participant::new_dealer(&params, 2, "Φ");
    let (p3, p3coeffs, p3_dh_sk) = Participant::new_dealer(&params, 3, "Φ");

    p1.proof_of_secret_key.as_ref().unwrap().verify(&p1.index, p1.public_key().unwrap(), "Φ").ok().unwrap();
    p2.proof_of_secret_key.as_ref().unwrap().verify(&p2.index, p2.public_key().unwrap(), "Φ").ok().unwrap();
    p3.proof_of_secret_key.as_ref().unwrap().verify(&p3.index, p3.public_key().unwrap(), "Φ").ok().unwrap();

    let participants: Vec<Participant> = vec![p1.clone(), p2.clone(), p3.clone()];
    let (p1_state, _) = DistributedKeyGeneration::<RoundOne>::new_initial(
        &params, &p1_dh_sk, &p1.index, &p1coeffs, &participants, "Φ",
    )
    .ok()
    .unwrap();
    let p1_their = p1_state.their_encrypted_secret_shares().ok().unwrap().clone();

    let (p2_state, _) = DistributedKeyGeneration::<RoundOne>::new_initial(
        &params, &p2_dh_sk, &p2.index, &p2coeffs, &participants, "Φ",
    )
    .ok()
    .unwrap();
    let p2_their = p2_state.their_encrypted_secret_shares().ok().unwrap().clone();

    let (p3_state, _) = DistributedKeyGeneration::<RoundOne>::new_initial(
        &params, &p3_dh_sk, &p3.index, &p3coeffs, &participants, "Φ",
    )
    .ok()
    .unwrap();
    let p3_their = p3_state.their_encrypted_secret_shares().ok().unwrap().clone();

    let p1_my = vec![p1_their[0], p2_their[0], p3_their[0]];
    let p2_my = vec![p1_their[1], p2_their[1], p3_their[1]];
    let p3_my = vec![p1_their[2], p2_their[2], p3_their[2]];

    let p1_state = p1_state.to_round_two(p1_my).ok().unwrap();
    let p2_state = p2_state.to_round_two(p2_my).ok().unwrap();
    let p3_state = p3_state.to_round_two(p3_my).ok().unwrap();

    let (p1_group_key, _p1_secret_key) = p1_state.finish().ok().unwrap();
    let (p2_group_key, _p2_secret_key) = p2_state.finish().ok().unwrap();
    let (p3_group_key, _p3_secret_key) = p3_state.finish().ok().unwrap();

    (p1_group_key, p2_group_key, p3_group_key)
}

#[test]
fn keygen_2_out_of_3() {
    let (k1, k2, k3) = run_2_out_of_3();
    assert!(k1.to_bytes() == k2.to_bytes());
    assert!(k2.to_bytes() == k3.to_bytes());
}

#[test]
fn keygen_static_2_out_of_3_with_common_participants() {
    let params = Parameters { n: 3, t: 2 };

    let (dealer1, dealer1coeffs, dealer1_dh_sk) = Participant::new_dealer(&params, 1, "Φ");
    let (dealer2, dealer2coeffs, dealer2_dh_sk) = Participant::new_dealer(&params, 2, "Φ");
    let (dealer3, dealer3coeffs, dealer3_dh_sk) = Participant::new_dealer(&params, 3, "Φ");

    dealer1.proof_of_secret_key.as_ref().unwrap().verify(&dealer1.index, dealer1.public_key().unwrap(), "Φ").ok().unwrap();
    dealer2.proof_of_secret_key.as_ref().unwrap().verify(&dealer2.index, dealer2.public_key().unwrap(), "Φ").ok().unwrap();
    dealer3.proof_of_secret_key.as_ref().unwrap().verify(&dealer3.index, dealer3.public_key().unwrap(), "Φ").ok().unwrap();

    let dealers: Vec<Participant> = vec![dealer1.clone(), dealer2.clone(), dealer3.clone()];
    let (dealer1_state, _) = DistributedKeyGeneration::<RoundOne>::new_initial(
        &params, &dealer1_dh_sk, &dealer1.index, &dealer1coeffs, &dealers, "Φ",
    )
    .ok()
    .unwrap();
    let dealer1_their = dealer1_state.their_encrypted_secret_shares().ok().unwrap().clone();

    let (dealer2_state, _) = DistributedKeyGeneration::<RoundOne>::new_initial(
        &params, &dealer2_dh_sk, &dealer2.index, &dealer2coeffs, &dealers, "Φ",
    )
    .ok()
    .unwrap();
    let dealer2_their = dealer2_state.their_encrypted_secret_shares().ok().unwrap().clone();

    let (dealer3_state, _) = DistributedKeyGeneration::<RoundOne>::new_initial(
        &params, &dealer3_dh_sk, &dealer3.index, &dealer3coeffs, &dealers, "Φ",
    )
    .ok()
    .unwrap();
    let dealer3_their = dealer3_state.their_encrypted_secret_shares().ok().unwrap().clone();

    let dealer1_my = vec![dealer1_their[0], dealer2_their[0], dealer3_their[0]];
    let dealer2_my = vec![dealer1_their[1], dealer2_their[1], dealer3_their[1]];
    let dealer3_my = vec![dealer1_their[2], dealer2_their[2], dealer3_their[2]];

    let dealer1_state = dealer1_state.to_round_two(dealer1_my).ok().unwrap();
    let dealer2_state = dealer2_state.to_round_two(dealer2_my).ok().unwrap();
    let dealer3_state = dealer3_state.to_round_two(dealer3_my).ok().unwrap();

    let (dealer1_group_key, dealer1_secret_key) = dealer1_state.finish().ok().unwrap();
    let (dealer2_group_key, dealer2_secret_key) = dealer2_state.finish().ok().unwrap();
    let (dealer3_group_key, dealer3_secret_key) = dealer3_state.finish().ok().unwrap();

    assert!(dealer1_group_key.to_bytes() == dealer2_group_key.to_bytes());
    assert!(dealer2_group_key.to_bytes() == dealer3_group_key.to_bytes());

    let (signer1, signer1_dh_sk) = Participant::new_signer(&params, 1, "Φ");
    let (signer2, signer2_dh_sk) = Participant::new_signer(&params, 2, "Φ");
    // Dealer 3 is also a participant of the next set of signers
    let (signer3, signer3_dh_sk) = (dealer3.clone(), dealer3_dh_sk);

    let signers: Vec<Participant> = vec![signer1.clone(), signer2.clone(), signer3.clone()];

    let (dealer1_for_signers, dealer1_encrypted_shares_for_signers, _) =
        Participant::reshare(&params, dealer1_secret_key, &signers, "Φ").ok().unwrap();
    let (dealer2_for_signers, dealer2_encrypted_shares_for_signers, _) =
        Participant::reshare(&params, dealer2_secret_key, &signers, "Φ").ok().unwrap();
    let (dealer3_for_signers, dealer3_encrypted_shares_for_signers, _) =
        Participant::reshare(&params, dealer3_secret_key, &signers, "Φ").ok().unwrap();

    let dealers: Vec<Participant> =
        vec![dealer1_for_signers, dealer2_for_signers, dealer3_for_signers];
    let (signer1_state, _) = DistributedKeyGeneration::<RoundOne>::new(
        &params, &signer1_dh_sk, &signer1.index, &dealers, "Φ",
    )
    .ok()
    .unwrap();
    let (signer2_state, _) = DistributedKeyGeneration::<RoundOne>::new(
        &params, &signer2_dh_sk, &signer2.index, &dealers, "Φ",
    )
    .ok()
    .unwrap();
    let (signer3_state, _) = DistributedKeyGeneration::<RoundOne>::new(
        &params, &signer3_dh_sk, &signer3.index, &dealers, "Φ",
    )
    .ok()
    .unwrap();

    let signer1_my = vec![
        dealer1_encrypted_shares_for_signers[0],
        dealer2_encrypted_shares_for_signers[0],
        dealer3_encrypted_shares_for_signers[0],
    ];
    let signer2_my = vec![
        dealer1_encrypted_shares_for_signers[1],
        dealer2_encrypted_shares_for_signers[1],
        dealer3_encrypted_shares_for_signers[1],
    ];
    let signer3_my = vec![
        dealer1_encrypted_shares_for_signers[2],
        dealer2_encrypted_shares_for_signers[2],
        dealer3_encrypted_shares_for_signers[2],
    ];

    let signer1_state = signer1_state.to_round_two(signer1_my).ok().unwrap();
    let signer2_state = signer2_state.to_round_two(signer2_my).ok().unwrap();
    let signer3_state = signer3_state.to_round_two(signer3_my).ok().unwrap();

    let (signer1_group_key, _signer1_secret_key) = signer1_state.finish().ok().unwrap();
    let (signer2_group_key, _signer2_secret_key) = signer2_state.finish().ok().unwrap();
    let (signer3_group_key, _signer3_secret_key) = signer3_state.finish().ok().unwrap();

    assert!(signer1_group_key.to_bytes() == signer2_group_key.to_bytes());
    assert!(signer2_group_key.to_bytes() == signer3_group_key.to_bytes());

    assert!(signer1_group_key.to_bytes() == dealer1_group_key.to_bytes());
}

#[test]
fn keygen_static_2_out_of_3_into_3_out_of_5() {
    let params_dealers = Parameters { n: 3, t: 2 };

    let (dealer1, dealer1coeffs, dealer1_dh_sk) = Participant::new_dealer(&params_dealers, 1, "Φ");
    let (dealer2, dealer2coeffs, dealer2_dh_sk) = Participant::new_dealer(&params_dealers, 2, "Φ");
    let (dealer3, dealer3coeffs, dealer3_dh_sk) = Participant::new_dealer(&params_dealers, 3, "Φ");

    dealer1.proof_of_secret_key.as_ref().unwrap().verify(&dealer1.index, dealer1.public_key().unwrap(), "Φ").ok().unwrap();
    dealer2.proof_of_secret_key.as_ref().unwrap().verify(&dealer2.index, dealer2.public_key().unwrap(), "Φ").ok().unwrap();
    dealer3.proof_of_secret_key.as_ref().unwrap().verify(&dealer3.index, dealer3.public_key().unwrap(), "Φ").ok().unwrap();

    let dealers: Vec<Participant> = vec![dealer1.clone(), dealer2.clone(), dealer3.clone()];
    let (dealer1_state, _) = DistributedKeyGeneration::<RoundOne>::new_initial(
        &params_dealers, &dealer1_dh_sk, &dealer1.index, &dealer1coeffs, &dealers, "Φ",
    )
    .ok()
    .unwrap();
    let dealer1_their = dealer1_state.their_encrypted_secret_shares().ok().unwrap().clone();

    let (dealer2_state, _) = DistributedKeyGeneration::<RoundOne>::new_initial(
        &params_dealers, &dealer2_dh_sk, &dealer2.index, &dealer2coeffs, &dealers, "Φ",
    )
    .ok()
    .unwrap();
    let dealer2_their = dealer2_state.their_encrypted_secret_shares().ok().unwrap().clone();

    let (dealer3_state, _) = DistributedKeyGeneration::<RoundOne>::new_initial(
        &params_dealers, &dealer3_dh_sk, &dealer3.index, &dealer3coeffs, &dealers, "Φ",
    )
    .ok()
    .unwrap();
    let dealer3_their = dealer3_state.their_encrypted_secret_shares().ok().unwrap().clone();

    let dealer1_my = vec![dealer1_their[0], dealer2_their[0], dealer3_their[0]];
    let dealer2_my = vec![dealer1_their[1], dealer2_their[1], dealer3_their[1]];
    let dealer3_my = vec![dealer1_their[2], dealer2_their[2], dealer3_their[2]];

    let dealer1_state = dealer1_state.to_round_two(dealer1_my).ok().unwrap();
    let dealer2_state = dealer2_state.to_round_two(dealer2_my).ok().unwrap();
    let dealer3_state = dealer3_state.to_round_two(dealer3_my).ok().unwrap();

    let (dealer1_group_key, dealer1_secret_key) = dealer1_state.finish().ok().unwrap();
    let (dealer2_group_key, dealer2_secret_key) = dealer2_state.finish().ok().unwrap();
    let (dealer3_group_key, dealer3_secret_key) = dealer3_state.finish().ok().unwrap();

    assert!(dealer1_group_key.to_bytes() == dealer2_group_key.to_bytes());
    assert!(dealer2_group_key.to_bytes() == dealer3_group_key.to_bytes());

    let params_signers = Parameters { n: 5, t: 3 };
    let (signer1, signer1_dh_sk) = Participant::new_signer(&params_signers, 1, "Φ");
    let (signer2, signer2_dh_sk) = Participant::new_signer(&params_signers, 2, "Φ");
    let (signer3, signer3_dh_sk) = Participant::new_signer(&params_signers, 3, "Φ");
    let (signer4, signer4_dh_sk) = Participant::new_signer(&params_signers, 4, "Φ");
    let (signer5, signer5_dh_sk) = Participant::new_signer(&params_signers, 5, "Φ");

    let signers: Vec<Participant> = vec![
        signer1.clone(),
        signer2.clone(),
        signer3.clone(),
        signer4.clone(),
        signer5.clone(),
    ];

    let (dealer1_for_signers, dealer1_encrypted_shares_for_signers, _) =
        Participant::reshare(&params_signers, dealer1_secret_key, &signers, "Φ").ok().unwrap();
    let (dealer2_for_signers, dealer2_encrypted_shares_for_signers, _) =
        Participant::reshare(&params_signers, dealer2_secret_key, &signers, "Φ").ok().unwrap();
    let (dealer3_for_signers, dealer3_encrypted_shares_for_signers, _) =
        Participant::reshare(&params_signers, dealer3_secret_key, &signers, "Φ").ok().unwrap();

    let dealers: Vec<Participant> =
        vec![dealer1_for_signers, dealer2_for_signers, dealer3_for_signers];
    let (signer1_state, _) = DistributedKeyGeneration::<RoundOne>::new(
        &params_dealers, &signer1_dh_sk, &signer1.index, &dealers, "Φ",
    )
    .ok()
    .unwrap();
    let (signer2_state, _) = DistributedKeyGeneration::<RoundOne>::new(
        &params_dealers, &signer2_dh_sk, &signer2.index, &dealers, "Φ",
    )
    .ok()
    .unwrap();
    let (signer3_state, _) = DistributedKeyGeneration::<RoundOne>::new(
        &params_dealers, &signer3_dh_sk, &signer3.index, &dealers, "Φ",
    )
    .ok()
    .unwrap();
    let (signer4_state, _) = DistributedKeyGeneration::<RoundOne>::new(
        &params_dealers, &signer4_dh_sk, &signer4.index, &dealers, "Φ",
    )
    .ok()
    .unwrap();
    let (signer5_state, _) = DistributedKeyGeneration::<RoundOne>::new(
        &params_dealers, &signer5_dh_sk, &signer5.index, &dealers, "Φ",
    )
    .ok()
    .unwrap();

    let signer1_my = vec![
        dealer1_encrypted_shares_for_signers[0],
        dealer2_encrypted_shares_for_signers[0],
        dealer3_encrypted_shares_for_signers[0],
    ];
    let signer2_my = vec![
        dealer1_encrypted_shares_for_signers[1],
        dealer2_encrypted_shares_for_signers[1],
        dealer3_encrypted_shares_for_signers[1],
    ];
    let signer3_my = vec![
        dealer1_encrypted_shares_for_signers[2],
        dealer2_encrypted_shares_for_signers[2],
        dealer3_encrypted_shares_for_signers[2],
    ];
    let signer4_my = vec![
        dealer1_encrypted_shares_for_signers[3],
        dealer2_encrypted_shares_for_signers[3],
        dealer3_encrypted_shares_for_signers[3],
    ];
    let signer5_my = vec![
        dealer1_encrypted_shares_for_signers[4],
        dealer2_encrypted_shares_for_signers[4],
        dealer3_encrypted_shares_for_signers[4],
    ];

    let signer1_state = signer1_state.to_round_two(signer1_my).ok().unwrap();
    let signer2_state = signer2_state.to_round_two(signer2_my).ok().unwrap();
    let signer3_state = signer3_state.to_round_two(signer3_my).ok().unwrap();
    let signer4_state = signer4_state.to_round_two(signer4_my).ok().unwrap();
    let signer5_state = signer5_state.to_round_two(signer5_my).ok().unwrap();

    let (signer1_group_key, _) = signer1_state.finish().ok().unwrap();
    let (signer2_group_key, _) = signer2_state.finish().ok().unwrap();
    let (signer3_group_key, _) = signer3_state.finish().ok().unwrap();
    let (signer4_group_key, _) = signer4_state.finish().ok().unwrap();
    let (signer5_group_key, _) = signer5_state.finish().ok().unwrap();

    assert!(signer1_group_key.to_bytes() == signer2_group_key.to_bytes());
    assert!(signer2_group_key.to_bytes() == signer3_group_key.to_bytes());
    assert!(signer3_group_key.to_bytes() == signer4_group_key.to_bytes());
    assert!(signer4_group_key.to_bytes() == signer5_group_key.to_bytes());

    assert!(signer1_group_key.to_bytes() == dealer1_group_key.to_bytes());
}

#[test]
fn encrypt_and_decrypt() {
    let original_share = SecretShare {
        sender_index: 1,
        receiver_index: 2,
        polynomial_evaluation: FieldScalar::random(),
    };

    let mut key = [0u8; 32];
    rand::rngs::OsRng.fill_bytes(&mut key);

    let encrypted_share = ice_frost::cipher::encrypt_share(&original_share, &key);
    let decrypted_share = ice_frost::cipher::decrypt_share(&encrypted_share, &key);

    assert!(decrypted_share.is_ok());
    assert!(
        original_share.polynomial_evaluation
            == decrypted_share.ok().unwrap().polynomial_evaluation
    );
}

#[test]
fn keygen_2_out_of_3_with_random_keys() {
    let (k1, k2, k3) = run_2_out_of_3();
    assert!(k1.to_bytes() == k2.to_bytes());
    assert!(k2.to_bytes() == k3.to_bytes());
}

#[test]
fn keygen_verify_complaint() {
    let params = Parameters { n: 3, t: 2 };

    let (p1, p1coeffs, dh_sk1) = Participant::new_dealer(&params, 1, "Φ");
    let (p2, p2coeffs, dh_sk2) = Participant::new_dealer(&params, 2, "Φ");
    let (p3, p3coeffs, dh_sk3) = Participant::new_dealer(&params, 3, "Φ");

    p1.proof_of_secret_key.as_ref().unwrap().verify(&p1.index, p1.public_key().unwrap(), "Φ").ok().unwrap();
    p2.proof_of_secret_key.as_ref().unwrap().verify(&p2.index, p2.public_key().unwrap(), "Φ").ok().unwrap();
    p3.proof_of_secret_key.as_ref().unwrap().verify(&p3.index, p3.public_key().unwrap(), "Φ").ok().unwrap();

    let participants: Vec<Participant> = vec![p1.clone(), p2.clone(), p3.clone()];
    let (p1_state, _) = DistributedKeyGeneration::<RoundOne>::new_initial(
        &params, &dh_sk1, &p1.index, &p1coeffs, &participants, "Φ",
    )
    .ok()
    .unwrap();
    let p1_their = p1_state.their_encrypted_secret_shares().ok().unwrap().clone();

    let (p2_state, _) = DistributedKeyGeneration::<RoundOne>::new_initial(
        &params, &dh_sk2, &p2.index, &p2coeffs, &participants, "Φ",
    )
    .ok()
    .unwrap();
    let p2_their = p2_state.their_encrypted_secret_shares().ok().unwrap().clone();

    let (p3_state, _) = DistributedKeyGeneration::<RoundOne>::new_initial(
        &params, &dh_sk3, &p3.index, &p3coeffs, &participants, "Φ",
    )
    .ok()
    .unwrap();
    let p3_their = p3_state.their_encrypted_secret_shares().ok().unwrap().clone();

    let complaint: Complaint;

    // Wrong decryption from nonce
    {
        let mut wrong_encrypted_secret_share = p1_their[1];
        wrong_encrypted_secret_share.nonce = [42; 16];
        let p1_my = vec![p1_their[0], p2_their[0], p3_their[0]];
        // Wrong share inserted here!
        let p2_my = vec![wrong_encrypted_secret_share, p2_their[1], p3_their[1]];
        let p3_my = vec![p1_their[2], p2_their[2], p3_their[2]];

        let p1_state = p1_state.clone().to_round_two(p1_my).ok().unwrap();
        let p3_state = p3_state.clone().to_round_two(p3_my).ok().unwrap();

        let complaints = p2_state.clone().to_round_two(p2_my);
        assert!(complaints.is_err());
        let complaints = match complaints {
            Err(Error::Complaint(cs)) => cs,
            _ => panic!("expected complaints"),
        };
        assert!(complaints.len() == 1);

        let bad_index = p3_state.blame(&wrong_encrypted_secret_share, &complaints[0]);
        assert!(bad_index == 1);

        let (p1_group_key, _) = p1_state.finish().ok().unwrap();
        let (p3_group_key, _) = p3_state.finish().ok().unwrap();

        assert!(p1_group_key.to_bytes() == p3_group_key.to_bytes());

        // Copy for a later check, and tamper with the pairwise key
        let mut tampered = complaints[0].clone();
        tampered.dh_key.bytes[0] = tampered.dh_key.bytes[0].wrapping_add(1);
        complaint = tampered;
    }

    // Wrong decryption of polynomial evaluation
    {
        let mut wrong_encrypted_secret_share = p1_their[1];
        wrong_encrypted_secret_share.encrypted_polynomial_evaluation = [42; 32];
        let p1_my = vec![p1_their[0], p2_their[0], p3_their[0]];
        // Wrong share inserted here!
        let p2_my = vec![wrong_encrypted_secret_share, p2_their[1], p3_their[1]];
        let p3_my = vec![p1_their[2], p2_their[2], p3_their[2]];

        let p1_state = p1_state.clone().to_round_two(p1_my).ok().unwrap();
        let p3_state = p3_state.clone().to_round_two(p3_my).ok().unwrap();

        let complaints = p2_state.clone().to_round_two(p2_my);
        assert!(complaints.is_err());
        let complaints = match complaints {
            Err(Error::Complaint(cs)) => cs,
            _ => panic!("expected complaints"),
        };
        assert!(complaints.len() == 1);

        let bad_index = p3_state.blame(&wrong_encrypted_secret_share, &complaints[0]);
        assert!(bad_index == 1);

        let (p1_group_key, _) = p1_state.finish().ok().unwrap();
        let (p3_group_key, _) = p3_state.finish().ok().unwrap();

        assert!(p1_group_key.to_bytes() == p3_group_key.to_bytes());
    }

    // Wrong encrypted share
    {
        let dh_key = p1.dh_public_key.0.scalar_mul(&dh_sk1.0).to_bytes();
        let wrong_encrypted_secret_share = ice_frost::cipher::encrypt_share(
            &SecretShare {
                sender_index: 1,
                receiver_index: 2,
                polynomial_evaluation: FieldScalar::from_u32(42),
            },
            &dh_key,
        );
        let p1_my = vec![p1_their[0], p2_their[0], p3_their[0]];
        // Wrong share inserted here!
        let p2_my = vec![wrong_encrypted_secret_share, p2_their[1], p3_their[1]];
        let p3_my = vec![p1_their[2], p2_their[2], p3_their[2]];

        let p1_state = p1_state.clone().to_round_two(p1_my).ok().unwrap();
        let p3_state = p3_state.clone().to_round_two(p3_my).ok().unwrap();

        let complaints = p2_state.clone().to_round_two(p2_my);
        assert!(complaints.is_err());
        let complaints = match complaints {
            Err(Error::Complaint(cs)) => cs,
            _ => panic!("expected complaints"),
        };
        assert!(complaints.len() == 1);

        let bad_index = p3_state.blame(&wrong_encrypted_secret_share, &complaints[0]);
        assert!(bad_index == 1);

        let (p1_group_key, _) = p1_state.finish().ok().unwrap();
        let (p3_group_key, _) = p3_state.finish().ok().unwrap();

        assert!(p1_group_key.to_bytes() == p3_group_key.to_bytes());
    }

    // Wrong complaint leads to blaming the complaint maker
    {
        let p3_my = vec![p1_their[2], p2_their[2], p3_their[2]];

        let p3_state = p3_state.clone().to_round_two(p3_my).ok().unwrap();

        let bad_index = p3_state.blame(&p1_their[0], &complaint);
        assert!(bad_index == 2);
    }
}

#[test]
fn serialisation() {
    let params = Parameters { n: 3, t: 2 };

    let (p1, p1coeffs, p1_dh_sk) = Participant::new_dealer(&params, 1, "Φ");
    let (p2, p2coeffs, p2_dh_sk) = Participant::new_dealer(&params, 2, "Φ");
    let (p3, p3coeffs, p3_dh_sk) = Participant::new_dealer(&params, 3, "Φ");

    p1.proof_of_secret_key.as_ref().unwrap().verify(&p1.index, p1.public_key().unwrap(), "Φ").ok().unwrap();
    p2.proof_of_secret_key.as_ref().unwrap().verify(&p2.index, p2.public_key().unwrap(), "Φ").ok().unwrap();
    p3.proof_of_secret_key.as_ref().unwrap().verify(&p3.index, p3.public_key().unwrap(), "Φ").ok().unwrap();

    let participants: Vec<Participant> = vec![p1.clone(), p2.clone(), p3.clone()];
    let (p1_state, _) = DistributedKeyGeneration::<RoundOne>::new_initial(
        &params, &p1_dh_sk, &p1.index, &p1coeffs, &participants, "Φ",
    )
    .ok()
    .unwrap();
    let p1_their = p1_state.their_encrypted_secret_shares().ok().unwrap().clone();

    let (p2_state, _) = DistributedKeyGeneration::<RoundOne>::new_initial(
        &params, &p2_dh_sk, &p2.index, &p2coeffs, &participants, "Φ",
    )
    .ok()
    .unwrap();
    let p2_their = p2_state.their_encrypted_secret_shares().ok().unwrap().clone();

    let (p3_state, _) = DistributedKeyGeneration::<RoundOne>::new_initial(
        &params, &p3_dh_sk, &p3.index, &p3coeffs, &participants, "Φ",
    )
    .ok()
    .unwrap();
    let p3_their = p3_state.their_encrypted_secret_shares().ok().unwrap().clone();

    {
        let p1_my = vec![p1_their[0], p2_their[0], p3_their[0]];
        let p2_my = vec![p1_their[1], p2_their[1], p3_their[1]];
        let p3_my = vec![p1_their[2], p2_their[2], p3_their[2]];

        // Check serialisation

        let bytes = p1.to_bytes();
        let p1_parsed = Participant::from_bytes(&bytes).ok().unwrap();
        assert_eq!(bytes, p1_parsed.to_bytes());
        assert_eq!(p1.index, p1_parsed.index);

        let bytes = p1coeffs.to_bytes();
        let p1coeffs_parsed = Coefficients::from_bytes(&bytes).ok().unwrap();
        assert_eq!(p1coeffs.0.len(), p1coeffs_parsed.0.len());
        for i in 0..p1coeffs.0.len() {
            assert_eq!(p1coeffs.0[i], p1coeffs_parsed.0[i]);
        }

        let bytes = p1_dh_sk.to_bytes();
        let p1_dh_sk_parsed = ice_frost::DHPrivateKey::from_bytes(&bytes).ok().unwrap();
        assert_eq!(bytes, p1_dh_sk_parsed.to_bytes());

        let bytes = p1.proof_of_secret_key.as_ref().unwrap().to_bytes();
        let pok_parsed = NizkOfSecretKey::from_bytes(&bytes).ok().unwrap();
        assert_eq!(p1.proof_of_secret_key.as_ref().unwrap(), &pok_parsed);

        let bytes = p1_their[0].to_bytes();
        assert_eq!(
            p1_their[0],
            EncryptedSecretShare::from_bytes(&bytes).ok().unwrap()
        );

        let bytes = p1_state.to_bytes();
        let p1_state_parsed =
            DistributedKeyGeneration::<RoundOne>::from_bytes(&bytes).ok().unwrap();
        assert_eq!(bytes, p1_state_parsed.to_bytes());

        // Continue the key generation

        let p1_state = p1_state.clone().to_round_two(p1_my).ok().unwrap();
        let p2_state = p2_state.clone().to_round_two(p2_my).ok().unwrap();
        let p3_state = p3_state.clone().to_round_two(p3_my).ok().unwrap();

        let (p1_group_key, _) = p1_state.clone().finish().ok().unwrap();
        let (p2_group_key, _) = p2_state.finish().ok().unwrap();
        let (p3_group_key, _) = p3_state.finish().ok().unwrap();

        assert!(p1_group_key.to_bytes() == p2_group_key.to_bytes());
        assert!(p2_group_key.to_bytes() == p3_group_key.to_bytes());

        // Check serialisation
        let bytes = p1_group_key.to_bytes();
        assert_eq!(
            p1_group_key.to_bytes(),
            GroupKey::from_bytes(&bytes).ok().unwrap().to_bytes()
        );

        let bytes = p1_state.to_bytes();
        let p1_state_parsed =
            DistributedKeyGeneration::<RoundTwo>::from_bytes(&bytes).ok().unwrap();
        assert_eq!(bytes, p1_state_parsed.to_bytes());
    }

    {
        let wrong_encrypted_secret_share = EncryptedSecretShare {
            sender_index: 1,
            receiver_index: 2,
            nonce: [0; 16],
            encrypted_polynomial_evaluation: [0; 32],
        };

        let p1_my = vec![p1_their[0], p2_their[0], p3_their[0]];
        let p2_my = vec![wrong_encrypted_secret_share, p2_their[1], p3_their[1]];
        let p3_my = vec![p1_their[2], p2_their[2], p3_their[2]];

        let p1_state = p1_state.to_round_two(p1_my).ok().unwrap();
        let p3_state = p3_state.to_round_two(p3_my).ok().unwrap();

        let complaints = p2_state.to_round_two(p2_my);
        assert!(complaints.is_err());
        let complaints = match complaints {
            Err(Error::Complaint(cs)) => cs,
            _ => panic!("expected complaints"),
        };
        assert!(complaints.len() == 1);

        let bad_index = p3_state.blame(&wrong_encrypted_secret_share, &complaints[0]);

        assert!(bad_index == 1);

        let (p1_group_key, _) = p1_state.finish().ok().unwrap();
        let (p3_group_key, _) = p3_state.finish().ok().unwrap();

        assert!(p1_group_key.to_bytes() == p3_group_key.to_bytes());

        // Check serialisation

        let bytes = complaints[0].proof.to_bytes();
        let proof_parsed = ComplaintProof::from_bytes(&bytes).ok().unwrap();
        assert_eq!(bytes, proof_parsed.to_bytes());

        let bytes = complaints[0].to_bytes();
        let complaint_parsed = Complaint::from_bytes(&bytes).ok().unwrap();
        assert_eq!(bytes, complaint_parsed.to_bytes());
    }
}

#[test]
fn individual_public_key_share() {
    let params = Parameters { n: 3, t: 2 };

    let (p1, p1coeffs, p1_dh_sk) = Participant::new_dealer(&params, 1, "Φ");
    let (p2, p2coeffs, p2_dh_sk) = Participant::new_dealer(&params, 2, "Φ");
    let (p3, p3coeffs, p3_dh_sk) = Participant::new_dealer(&params, 3, "Φ");

    p1.proof_of_secret_key.as_ref().unwrap().verify(&p1.index, p1.public_key().unwrap(), "Φ").ok().unwrap();
    p2.proof_of_secret_key.as_ref().unwrap().verify(&p2.index, p2.public_key().unwrap(), "Φ").ok().unwrap();
    p3.proof_of_secret_key.as_ref().unwrap().verify(&p3.index, p3.public_key().unwrap(), "Φ").ok().unwrap();

    let participants: Vec<Participant> = vec![p1.clone(), p2.clone(), p3.clone()];
    let (p1_state, _) = DistributedKeyGeneration::<RoundOne>::new_initial(
        &params, &p1_dh_sk, &p1.index, &p1coeffs, &participants, "Φ",
    )
    .ok()
    .unwrap();
    let p1_their = p1_state.their_encrypted_secret_shares().ok().unwrap().clone();

    let (p2_state, _) = DistributedKeyGeneration::<RoundOne>::new_initial(
        &params, &p2_dh_sk, &p2.index, &p2coeffs, &participants, "Φ",
    )
    .ok()
    .unwrap();
    let p2_their = p2_state.their_encrypted_secret_shares().ok().unwrap().clone();

    let (p3_state, _) = DistributedKeyGeneration::<RoundOne>::new_initial(
        &params, &p3_dh_sk, &p3.index, &p3coeffs, &participants, "Φ",
    )
    .ok()
    .unwrap();
    let p3_their = p3_state.their_encrypted_secret_shares().ok().unwrap().clone();

    let p1_my = vec![p1_their[0], p2_their[0], p3_their[0]];
    let p2_my = vec![p1_their[1], p2_their[1], p3_their[1]];
    let p3_my = vec![p1_their[2], p2_their[2], p3_their[2]];

    let p1_state = p1_state.to_round_two(p1_my).ok().unwrap();
    let p2_state = p2_state.to_round_two(p2_my).ok().unwrap();
    let p3_state = p3_state.to_round_two(p3_my).ok().unwrap();

    let (p1_group_key, p1_secret_key) = p1_state.finish().ok().unwrap();
    let (p2_group_key, p2_secret_key) = p2_state.finish().ok().unwrap();
    let (p3_group_key, p3_secret_key) = p3_state.finish().ok().unwrap();

    assert!(p1_group_key.to_bytes() == p2_group_key.to_bytes());
    assert!(p2_group_key.to_bytes() == p3_group_key.to_bytes());

    // Check the validity of each individual public key

    let p1_public_key = p1_secret_key.to_public();
    let p2_public_key = p2_secret_key.to_public();
    let p3_public_key = p3_secret_key.to_public();

    // The order does not matter
    let commitments = [
        p2.commitments.unwrap(),
        p3.commitments.unwrap(),
        p1.commitments.unwrap(),
    ];

    assert!(p1_public_key.verify(&commitments).is_ok());
    assert!(p2_public_key.verify(&commitments).is_ok());
    assert!(p3_public_key.verify(&commitments).is_ok());

    assert!(p1_public_key.verify(&commitments[1..]).is_err());

    // Check that the public keys recovered from the commitments match
    let p1_recovered_public_key = IndividualPublicKey::generate_from_commitments(1, &commitments);
    let p2_recovered_public_key = IndividualPublicKey::generate_from_commitments(2, &commitments);
    let p3_recovered_public_key = IndividualPublicKey::generate_from_commitments(3, &commitments);

    assert_eq!(p1_public_key.to_bytes(), p1_recovered_public_key.to_bytes());
    assert_eq!(p2_public_key.to_bytes(), p2_recovered_public_key.to_bytes());
    assert_eq!(p3_public_key.to_bytes(), p3_recovered_public_key.to_bytes());
}
