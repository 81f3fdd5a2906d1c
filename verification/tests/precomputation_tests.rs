//! Commitment share precomputation and its codecs.

use ice_frost::{
    generate_commitment_share_lists, Commitment, CommitmentShare, FieldScalar, NoncePair,
    RistrettoElement,
};

#[test]
fn test_commitment_serialization() {
    for _ in 0..100 {
        let nonce = FieldScalar::random();
        let sealed = RistrettoElement::base_mul(&nonce);

        let hiding = Commitment { nonce, sealed };
        let bytes = hiding.to_bytes();
        let parsed = Commitment::from_bytes(&bytes).ok().unwrap();
        assert_eq!(bytes, parsed.to_bytes());

        let binding = hiding.clone();
        let commitment_share = CommitmentShare { binding, hiding };
        let bytes = commitment_share.to_bytes();
        let parsed = CommitmentShare::from_bytes(&bytes).ok().unwrap();
        assert_eq!(bytes, parsed.to_bytes());
    }
}

#[test]
fn nonce_pair() {
    let _nonce_pair = NoncePair::new();
}

#[test]
fn nonce_pair_into_commitment_share() {
    let _commitment_share: CommitmentShare = NoncePair::new().commit();
}

#[test]
fn test_serialisation() {
    for _ in 0..100 {
        let nonce = FieldScalar::random();
        let sealed = RistrettoElement::base_mul(&nonce);
        let commitment = Commitment { nonce, sealed };

        let bytes = commitment.to_bytes();
        assert!(Commitment::from_bytes(&bytes).is_ok());
        assert_eq!(bytes, Commitment::from_bytes(&bytes).ok().unwrap().to_bytes());
    }

    for _ in 0..100 {
        let nonce = FieldScalar::random();
        let sealed = RistrettoElement::base_mul(&nonce);
        let binding = Commitment { nonce, sealed };
        let hiding = binding.clone();
        let commitment_share = CommitmentShare { binding, hiding };

        let bytes = commitment_share.to_bytes();
        assert!(CommitmentShare::from_bytes(&bytes).is_ok());
        assert_eq!(
            bytes,
            CommitmentShare::from_bytes(&bytes).ok().unwrap().to_bytes()
        );
    }

    // invalid encodings
    let bytes = [255u8; 64];
    assert!(Commitment::from_bytes(&bytes).is_err());

    let bytes = [255u8; 128];
    assert!(CommitmentShare::from_bytes(&bytes).is_err());
}

#[test]
fn commitment_share_list_generate() {
    let (public_share_list, secret_share_list) = generate_commitment_share_lists(0, 5);

    assert_eq!(
        public_share_list.commitments[0].0.to_bytes(),
        RistrettoElement::base_mul(&secret_share_list.commitments[0].hiding.nonce).to_bytes()
    );
}

#[test]
fn drop_used_commitment_shares() {
    let (_public_share_list, mut secret_share_list) = generate_commitment_share_lists(3, 8);

    assert!(secret_share_list.commitments.len() == 8);

    let used_share = secret_share_list.commitments[0].clone();

    secret_share_list.drop_share(used_share);

    assert!(secret_share_list.commitments.len() == 7);
}
