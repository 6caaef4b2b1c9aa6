use blake3_lamport_signatures::lamport;
use blake3_lamport_signatures::merkle::{
    PrivateKey, ProofDecodingError, PublicKey, Signature, SignatureDecodingError,
};
use rand::{RngCore, SeedableRng};

fn seeded_keys(n: usize) -> PrivateKey {
    let mut rng = rand::rngs::StdRng::from_seed([0u8; 32]);
    let mut keys = Vec::new();
    for _ in 0..n {
        let mut bytes = [0u8; 16384];
        rng.fill_bytes(&mut bytes);
        keys.push(lamport::PrivateKey::from_bytes(&bytes));
    }
    PrivateKey::from_keys(keys, 0)
}

#[test]
fn test_generation() {
    let _private_key = PrivateKey::generate(1000);
}

#[test]
fn single_slot_signs_once() {
    let mut private_key = seeded_keys(1);
    let public_key = private_key.public_key();
    let signature = private_key.sign(b"Hello, world!").unwrap();
    assert!(public_key.verify(b"Hello, world!", &signature));
    assert!(!public_key.verify(b"Hello, not world!", &signature));
    assert!(private_key.sign(b"Hello, world!").is_none());
    assert_eq!(private_key.current_index(), 1);
}

#[test]
fn four_slots_sign_four_messages() {
    let mut private_key = seeded_keys(4);
    let public_key = private_key.public_key();
    let mut embedded = Vec::new();
    for (k, m) in ["a", "b", "c", "d"].iter().enumerate() {
        assert_eq!(private_key.current_index(), k);
        let signature = private_key.sign(m.as_bytes()).unwrap();
        assert!(public_key.verify(m.as_bytes(), &signature));
        embedded.push(signature.to_bytes()[8192..24576].to_vec());
    }
    assert!(private_key.sign(b"e").is_none());
    assert_eq!(private_key.current_index(), 4);
    assert!(private_key.sign(b"e").is_none());
    assert_eq!(private_key.current_index(), 4);
    for i in 0..4 {
        for j in 0..i {
            assert_ne!(embedded[i], embedded[j]);
        }
    }
}

#[test]
fn generated_key_signs_and_verifies() {
    let mut private_key = PrivateKey::generate(3).unwrap();
    assert_eq!(private_key.inner_keys().len(), 3);
    assert_eq!(private_key.current_index(), 0);
    let public_key = private_key.public_key();
    for m in ["x", "y", "z"] {
        let signature = private_key.sign(m.as_bytes()).unwrap();
        assert!(public_key.verify(m.as_bytes(), &signature));
    }
    assert!(private_key.sign(b"w").is_none());
}

#[test]
fn signature_codec_round_trip_and_errors() {
    let mut private_key = seeded_keys(2);
    let public_key = private_key.public_key();
    let signature = private_key.sign(b"encode me").unwrap();
    let bytes = signature.to_bytes();
    let decoded = Signature::from_bytes(&bytes).unwrap();
    assert_eq!(decoded, signature);
    assert!(public_key.verify(b"encode me", &decoded));

    let truncated = &bytes[..bytes.len() - 1];
    assert_eq!(
        Signature::from_bytes(truncated),
        Err(SignatureDecodingError::MerkleProofDecodingError(
            ProofDecodingError::NotEnoughInput(bytes.len() - 1 - 24576)
        ))
    );
    assert_eq!(
        Signature::from_bytes(&bytes[..100]),
        Err(SignatureDecodingError::NotEnoughInput(100))
    );

    let first_tag = 24576 + 8 + 16384 + 8 + 8;
    let mut bad = bytes.clone();
    bad[first_tag] = 0x03;
    assert_eq!(
        Signature::from_bytes(&bad),
        Err(SignatureDecodingError::MerkleProofDecodingError(
            ProofDecodingError::InvalidProofNodeType(3)
        ))
    );
}

#[test]
fn substituted_lamport_public_key_is_rejected() {
    let mut private_key = seeded_keys(2);
    let public_key = private_key.public_key();
    let other = private_key.inner_keys()[1].public_key().to_bytes();
    let signature = private_key.sign(b"m1").unwrap();
    assert!(public_key.verify(b"m1", &signature));
    let mut bytes = signature.to_bytes();
    bytes[8192..24576].copy_from_slice(&other);
    let forged = Signature::from_bytes(&bytes).unwrap();
    assert!(!public_key.verify(b"m1", &forged));
}

#[test]
fn public_key_codec_round_trip() {
    let private_key = seeded_keys(3);
    let public_key = private_key.public_key();
    let bytes = public_key.to_bytes();
    assert_eq!(&bytes[32..40], &[0, 0, 0, 0, 0, 0, 0, 3]);
    let decoded = PublicKey::from_bytes(bytes);
    assert_eq!(decoded.to_bytes(), bytes);
    let mut private_key = private_key;
    let signature = private_key.sign(b"m").unwrap();
    assert!(decoded.verify(b"m", &signature));
}

#[test]
fn counter_is_kept_by_from_keys() {
    let mut rng = rand::rngs::StdRng::from_seed([9u8; 32]);
    let mut keys = Vec::new();
    for _ in 0..3 {
        let mut bytes = [0u8; 16384];
        rng.fill_bytes(&mut bytes);
        keys.push(lamport::PrivateKey::from_bytes(&bytes));
    }
    let mut private_key = PrivateKey::from_keys(keys.clone(), 2);
    let public_key = private_key.public_key();
    assert_eq!(private_key.current_index(), 2);
    let signature = private_key.sign(b"last").unwrap();
    assert!(public_key.verify(b"last", &signature));
    assert_eq!(signature.to_bytes()[8192..24576], keys[2].public_key().to_bytes()[..]);
    assert!(private_key.sign(b"more").is_none());
    let mut past_end = PrivateKey::from_keys(keys, 7);
    assert!(past_end.sign(b"x").is_none());
    assert_eq!(past_end.current_index(), 7);
}

#[test]
fn private_key_file_round_trip() {
    let mut private_key = seeded_keys(3);
    private_key.sign(b"first").unwrap();
    let bytes = private_key.to_file_bytes();
    assert_eq!(bytes.len(), 3 * 16384 + 8);
    assert_eq!(&bytes[bytes.len() - 8..], &[0, 0, 0, 0, 0, 0, 0, 1]);
    assert_eq!(&bytes[16384..32768], &private_key.inner_keys()[1].to_bytes()[..]);
    let mut restored = PrivateKey::from_file_bytes(&bytes).unwrap();
    assert_eq!(restored.current_index(), 1);
    assert_eq!(restored.inner_keys(), private_key.inner_keys());
    assert_eq!(restored.public_key().to_bytes(), private_key.public_key().to_bytes());
    let signature = restored.sign(b"second").unwrap();
    assert!(private_key.public_key().verify(b"second", &signature));
}

#[test]
fn private_key_file_rejects_bad_lengths() {
    let bytes = seeded_keys(2).to_file_bytes();
    assert!(PrivateKey::from_file_bytes(&bytes[..bytes.len() - 1]).is_none());
    assert!(PrivateKey::from_file_bytes(&bytes[16384..]).is_some());
    assert!(PrivateKey::from_file_bytes(&bytes[2 * 16384..]).is_none());
    assert!(PrivateKey::from_file_bytes(&[]).is_none());
}
