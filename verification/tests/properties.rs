//! Cross-cutting properties: threshold reconstruction, pairwise-key
//! symmetry, complaint tamper rejection, scrubbing of secrets, exact
//! Lagrange values, and the rejection paths of the codecs and entries.

use ice_frost::{
    calculate_lagrange_coefficients, Coefficients, DistributedKeyGeneration, EncryptedSecretShare,
    Error, FieldScalar, GroupElement, GroupKey, NizkOfSecretKey, Parameters, Participant,
    RoundOne, SecretKey, SecretShare,
};

fn run_2_of_3() -> (GroupKey, Vec<SecretKey>) {
    let params = Parameters { n: 3, t: 2 };
    let (p1, p1coeffs, p1_dh_sk) = Participant::new_dealer(&params, 1, "Φ");
    let (p2, p2coeffs, p2_dh_sk) = Participant::new_dealer(&params, 2, "Φ");
    let (p3, p3coeffs, p3_dh_sk) = Participant::new_dealer(&params, 3, "Φ");
    let participants: Vec<Participant> = vec![p1.clone(), p2.clone(), p3.clone()];
    let (s1, _) = DistributedKeyGeneration::<RoundOne>::new_initial(
        &params, &p1_dh_sk, &p1.index, &p1coeffs, &participants, "Φ",
    )
    .ok()
    .unwrap();
    let (s2, _) = DistributedKeyGeneration::<RoundOne>::new_initial(
        &params, &p2_dh_sk, &p2.index, &p2coeffs, &participants, "Φ",
    )
    .ok()
    .unwrap();
    let (s3, _) = DistributedKeyGeneration::<RoundOne>::new_initial(
        &params, &p3_dh_sk, &p3.index, &p3coeffs, &participants, "Φ",
    )
    .ok()
    .unwrap();
    let t1 = s1.their_encrypted_secret_shares().ok().unwrap().clone();
    let t2 = s2.their_encrypted_secret_shares().ok().unwrap().clone();
    let t3 = s3.their_encrypted_secret_shares().ok().unwrap().clone();
    let s1 = s1.to_round_two(vec![t1[0], t2[0], t3[0]]).ok().unwrap();
    let s2 = s2.to_round_two(vec![t1[1], t2[1], t3[1]]).ok().unwrap();
    let s3 = s3.to_round_two(vec![t1[2], t2[2], t3[2]]).ok().unwrap();
    let (gk1, sk1) = s1.finish().ok().unwrap();
    let (gk2, sk2) = s2.finish().ok().unwrap();
    let (gk3, sk3) = s3.finish().ok().unwrap();
    assert_eq!(gk1.to_bytes(), gk2.to_bytes());
    assert_eq!(gk2.to_bytes(), gk3.to_bytes());
    (gk1, vec![sk1, sk2, sk3])
}

#[test]
fn threshold_subsets_reconstruct_group_key() {
    let (group_key, keys) = run_2_of_3();
    let subsets: [[usize; 2]; 3] = [[0, 1], [0, 2], [1, 2]];
    for subset in subsets.iter() {
        let indices: Vec<u32> = subset.iter().map(|&i| keys[i].index).collect();
        let mut secret = FieldScalar::zero();
        for &i in subset.iter() {
            let lambda = calculate_lagrange_coefficients(&keys[i].index, &indices).ok().unwrap();
            secret = secret.add(&lambda.mul(&keys[i].key));
        }
        assert_eq!(GroupElement::base_mul(&secret).to_bytes(), group_key.to_bytes());
    }
}

#[test]
fn pairwise_keys_agree() {
    let params = Parameters { n: 2, t: 1 };
    let (alice, alice_sk) = Participant::new_signer(&params, 1, "Φ");
    let (bob, bob_sk) = Participant::new_signer(&params, 2, "Φ");

    let k_ab = bob.dh_public_key.0.scalar_mul(&alice_sk.0);
    let k_ba = alice.dh_public_key.0.scalar_mul(&bob_sk.0);

    assert_eq!(k_ab.to_bytes(), k_ba.to_bytes());
}

#[test]
fn tampered_complaints_are_rejected() {
    let params = Parameters { n: 3, t: 2 };
    let (p1, p1coeffs, dh_sk1) = Participant::new_dealer(&params, 1, "Φ");
    let (p2, p2coeffs, dh_sk2) = Participant::new_dealer(&params, 2, "Φ");
    let (p3, p3coeffs, dh_sk3) = Participant::new_dealer(&params, 3, "Φ");
    let participants: Vec<Participant> = vec![p1.clone(), p2.clone(), p3.clone()];
    let (s1, _) = DistributedKeyGeneration::<RoundOne>::new_initial(
        &params, &dh_sk1, &p1.index, &p1coeffs, &participants, "Φ",
    )
    .ok()
    .unwrap();
    let (s2, _) = DistributedKeyGeneration::<RoundOne>::new_initial(
        &params, &dh_sk2, &p2.index, &p2coeffs, &participants, "Φ",
    )
    .ok()
    .unwrap();
    let (s3, _) = DistributedKeyGeneration::<RoundOne>::new_initial(
        &params, &dh_sk3, &p3.index, &p3coeffs, &participants, "Φ",
    )
    .ok()
    .unwrap();
    let t1 = s1.their_encrypted_secret_shares().ok().unwrap().clone();
    let t2 = s2.their_encrypted_secret_shares().ok().unwrap().clone();
    let t3 = s3.their_encrypted_secret_shares().ok().unwrap().clone();
    drop(s1);
    drop(s3);

    let mut bad_share = t1[1];
    bad_share.encrypted_polynomial_evaluation = [42; 32];
    let complaints = s2.to_round_two(vec![bad_share, t2[1], t3[1]]);
    let complaints = match complaints {
        Err(Error::Complaint(cs)) => cs,
        _ => panic!("expected complaints"),
    };
    let honest = complaints[0].clone();
    let pk_maker = &p2.dh_public_key.0;
    let pk_accused = &p1.dh_public_key.0;

    // the honestly built complaint verifies
    assert!(honest.verify(pk_maker, pk_accused).is_ok());

    // any tampering of its fields is rejected
    let mut tampered = honest.clone();
    tampered.dh_key.bytes[0] = tampered.dh_key.bytes[0].wrapping_add(1);
    assert!(tampered.verify(pk_maker, pk_accused).is_err());

    let mut tampered = honest.clone();
    tampered.proof.a1 = GroupElement::base_mul(&FieldScalar::one());
    assert!(tampered.verify(pk_maker, pk_accused).is_err());

    let mut tampered = honest.clone();
    tampered.proof.a2 = GroupElement::base_mul(&FieldScalar::one());
    assert!(tampered.verify(pk_maker, pk_accused).is_err());

    let mut tampered = honest.clone();
    tampered.proof.z = FieldScalar::from_u32(7);
    assert!(tampered.verify(pk_maker, pk_accused).is_err());

    // swapping maker and accused keys is rejected
    assert!(honest.verify(pk_accused, pk_maker).is_err());
}

#[test]
fn secret_containers_zero_after_scrub() {
    let mut share = SecretShare {
        sender_index: 1,
        receiver_index: 2,
        polynomial_evaluation: FieldScalar::random(),
    };
    share.zeroize();
    assert_eq!(share.polynomial_evaluation.to_bytes(), [0u8; 32]);

    let mut coeffs = Coefficients(vec![FieldScalar::random(), FieldScalar::random()]);
    coeffs.zeroize();
    for c in coeffs.0.iter() {
        assert_eq!(c.to_bytes(), [0u8; 32]);
    }

    let mut sk = SecretKey {
        index: 1,
        key: FieldScalar::random(),
    };
    sk.zeroize();
    assert_eq!(sk.key.to_bytes(), [0u8; 32]);

    let mut dh_sk = ice_frost::DHPrivateKey(FieldScalar::random());
    dh_sk.zeroize();
    assert_eq!(dh_sk.to_bytes(), [0u8; 32]);

    let mut es = EncryptedSecretShare {
        sender_index: 1,
        receiver_index: 2,
        nonce: [9u8; 16],
        encrypted_polynomial_evaluation: [9u8; 32],
    };
    es.zeroize();
    assert_eq!(es.nonce, [0u8; 16]);
    assert_eq!(es.encrypted_polynomial_evaluation, [0u8; 32]);
}

#[test]
fn lagrange_coefficients_exact_values() {
    // for the set {1, 2}: the coefficient of 1 at zero is 2 / (2 - 1) = 2
    let l1 = calculate_lagrange_coefficients(&1, &[1, 2]).ok().unwrap();
    assert_eq!(l1.to_bytes(), FieldScalar::from_u32(2).to_bytes());

    // and the coefficient of 2 at zero is 1 / (1 - 2) = -1
    let l2 = calculate_lagrange_coefficients(&2, &[1, 2]).ok().unwrap();
    assert_eq!(
        l2.to_bytes(),
        FieldScalar::zero().sub(&FieldScalar::one()).to_bytes()
    );

    // interpolating a linear polynomial f(x) = 5 + 7x at zero from f(1), f(2)
    let f1 = FieldScalar::from_u32(12);
    let f2 = FieldScalar::from_u32(19);
    let interpolated = l1.mul(&f1).add(&l2.mul(&f2));
    assert_eq!(interpolated.to_bytes(), FieldScalar::from_u32(5).to_bytes());

    // for the set {1, 2, 3}: the coefficient of 1 at zero is
    // (2 * 3) / ((2 - 1) * (3 - 1)) = 3
    let l1 = calculate_lagrange_coefficients(&1, &[1, 2, 3]).ok().unwrap();
    assert_eq!(l1.to_bytes(), FieldScalar::from_u32(3).to_bytes());
}

#[test]
fn decoders_reject_invalid_encodings() {
    // a non-canonical scalar is rejected
    assert!(NizkOfSecretKey::from_bytes(&[255u8; 64]).is_err());

    // a point outside the prime-order subgroup is rejected
    let torsion = curve25519_dalek::constants::EIGHT_TORSION[1].compress().to_bytes();
    match GroupKey::from_bytes(&torsion) {
        Err(Error::InvalidPoint) => {},
        _ => panic!("expected the torsion point to be rejected"),
    }

    // truncated records are rejected
    assert!(SecretShare::from_bytes(&[0u8; 10]).is_err());
    assert!(EncryptedSecretShare::from_bytes(&[0u8; 10]).is_err());
    assert!(Parameters::from_bytes(&[0u8; 3]).is_err());
}

#[test]
fn undecryptable_share_reports_decryption_error() {
    let share = SecretShare {
        sender_index: 1,
        receiver_index: 2,
        polynomial_evaluation: FieldScalar::random(),
    };
    let key = [7u8; 32];
    let encrypted = ice_frost::cipher::encrypt_share(&share, &key);

    // flip the ciphertext so that it decrypts to all-ones bytes, which is
    // not a canonical scalar
    let value = share.polynomial_evaluation.to_bytes();
    let mut tampered = encrypted;
    for i in 0..32 {
        tampered.encrypted_polynomial_evaluation[i] =
            encrypted.encrypted_polynomial_evaluation[i] ^ value[i] ^ 0xFF;
    }
    match ice_frost::cipher::decrypt_share(&tampered, &key) {
        Err(Error::DecryptionError) => {},
        _ => panic!("expected a decryption error"),
    }

    // the ciphertext is not the plaintext: the keystream did its work
    assert_ne!(encrypted.encrypted_polynomial_evaluation, value);
}

#[test]
fn round_one_rejects_bad_proofs_and_counts() {
    let params = Parameters { n: 3, t: 2 };
    let (p1, p1coeffs, dh_sk1) = Participant::new_dealer(&params, 1, "Φ");
    let (p2, _, _) = Participant::new_dealer(&params, 2, "Φ");
    let (p3, _, _) = Participant::new_dealer(&params, 3, "Φ");

    // a wrong number of participants is reported as such
    let short: Vec<Participant> = vec![p1.clone(), p2.clone()];
    match DistributedKeyGeneration::<RoundOne>::new_initial(
        &params, &dh_sk1, &p1.index, &p1coeffs, &short, "Φ",
    ) {
        Err(Error::InvalidNumberOfParticipants(got, expected)) => {
            assert_eq!(got, 2);
            assert_eq!(expected, 3);
        },
        _ => panic!("expected a participant count error"),
    }

    // a peer with a flipped proof challenge is excluded
    let mut bad_p2 = p2.clone();
    bad_p2.proof_of_dh_private_key = NizkOfSecretKey {
        s: FieldScalar::from_u32(1),
        r: FieldScalar::from_u32(2),
    };
    let participants: Vec<Participant> = vec![p1.clone(), bad_p2.clone(), p3.clone()];
    let (_, lists) = DistributedKeyGeneration::<RoundOne>::new_initial(
        &params, &dh_sk1, &p1.index, &p1coeffs, &participants, "Φ",
    )
    .ok()
    .unwrap();
    assert_eq!(lists.valid_participants.len(), 2);
    assert_eq!(lists.misbehaving_participants.unwrap(), vec![2]);

    // excluding too many peers aborts the run with their indices
    let mut bad_p3 = p3.clone();
    bad_p3.proof_of_dh_private_key = NizkOfSecretKey {
        s: FieldScalar::from_u32(3),
        r: FieldScalar::from_u32(4),
    };
    let participants: Vec<Participant> = vec![p1.clone(), bad_p2, bad_p3];
    match DistributedKeyGeneration::<RoundOne>::new_initial(
        &params, &dh_sk1, &p1.index, &p1coeffs, &participants, "Φ",
    ) {
        Err(Error::TooManyInvalidParticipants(indices)) => {
            assert_eq!(indices, vec![2, 3]);
        },
        _ => panic!("expected an exclusion error"),
    }
}

#[test]
fn round_two_requires_all_shares() {
    let params = Parameters { n: 3, t: 2 };
    let (p1, p1coeffs, dh_sk1) = Participant::new_dealer(&params, 1, "Φ");
    let (p2, p2coeffs, dh_sk2) = Participant::new_dealer(&params, 2, "Φ");
    let (p3, _, _) = Participant::new_dealer(&params, 3, "Φ");
    let participants: Vec<Participant> = vec![p1.clone(), p2.clone(), p3.clone()];
    let (s1, _) = DistributedKeyGeneration::<RoundOne>::new_initial(
        &params, &dh_sk1, &p1.index, &p1coeffs, &participants, "Φ",
    )
    .ok()
    .unwrap();
    let t1 = s1.their_encrypted_secret_shares().ok().unwrap().clone();
    match s1.to_round_two(vec![t1[0], t1[1]]) {
        Err(Error::MissingShares) => {},
        _ => panic!("expected missing shares"),
    }

    // a signer-only entry holds no outbound shares
    let new_params = Parameters { n: 2, t: 2 };
    let (signer1, signer1_sk) = Participant::new_signer(&new_params, 1, "Φ");
    let (signer2, _) = Participant::new_signer(&new_params, 2, "Φ");
    let signers: Vec<Participant> = vec![signer1.clone(), signer2.clone()];
    let (_, reshares1, _) =
        Participant::reshare(&new_params, SecretKey { index: 1, key: FieldScalar::from_u32(11) }, &signers, "Φ")
            .ok()
            .unwrap();
    assert_eq!(reshares1.len(), 2);
    let (d2, _, _) =
        Participant::reshare(&new_params, SecretKey { index: 2, key: FieldScalar::from_u32(12) }, &signers, "Φ")
            .ok()
            .unwrap();
    let (d1, _, _) =
        Participant::reshare(&new_params, SecretKey { index: 1, key: FieldScalar::from_u32(11) }, &signers, "Φ")
            .ok()
            .unwrap();
    let dealers: Vec<Participant> = vec![d1, d2];
    let (signer_state, _) = DistributedKeyGeneration::<RoundOne>::new(
        &new_params, &signer1_sk, &signer1.index, &dealers, "Φ",
    )
    .ok()
    .unwrap();
    match signer_state.their_encrypted_secret_shares() {
        Err(Error::NoEncryptedShares) => {},
        _ => panic!("expected no encrypted shares"),
    }
}

#[test]
fn nizk_rejects_wrong_binding() {
    let params = Parameters { n: 3, t: 2 };
    let (p, _, _) = Participant::new_dealer(&params, 7, "Φ");
    let pok = p.proof_of_secret_key.as_ref().unwrap();
    let pk = p.public_key().unwrap();

    assert!(pok.verify(&p.index, pk, "Φ").is_ok());
    // a different context string rejects
    assert!(pok.verify(&p.index, pk, "Θ").is_err());
    // a different index rejects
    assert!(pok.verify(&8, pk, "Φ").is_err());
    // a different public key rejects
    assert!(pok
        .verify(&p.index, &GroupElement::base_mul(&FieldScalar::one()), "Φ")
        .is_err());

    // the basepoint multiple is not the scalar itself
    assert_ne!(
        GroupElement::base_mul(&FieldScalar::one()).to_bytes(),
        FieldScalar::one().to_bytes()
    );
}

#[test]
fn share_verification_rejects_wrong_commitment() {
    let coefficients = Coefficients(vec![FieldScalar::from_u32(3), FieldScalar::from_u32(4)]);
    let share = SecretShare::evaluate_polynomial(&1, &2, &coefficients);
    // f(2) = 3 + 4 * 2 = 11
    assert_eq!(
        share.polynomial_evaluation.to_bytes(),
        FieldScalar::from_u32(11).to_bytes()
    );

    let good = ice_frost::VerifiableSecretSharingCommitment {
        index: 1,
        points: vec![
            GroupElement::base_mul(&coefficients.0[0]),
            GroupElement::base_mul(&coefficients.0[1]),
        ],
    };
    assert!(share.verify(&good).is_ok());

    let wrong = ice_frost::VerifiableSecretSharingCommitment {
        index: 1,
        points: vec![
            GroupElement::base_mul(&FieldScalar::from_u32(5)),
            GroupElement::base_mul(&coefficients.0[1]),
        ],
    };
    match share.verify(&wrong) {
        Err(Error::ShareVerificationError) => {},
        _ => panic!("expected a share verification error"),
    }
}
