use blake3_lamport_signatures::hash::{hash, hash_two_hashes};
use blake3_lamport_signatures::lamport::{
    bit_of_byte, bit_of_byteslice, bitmask_for, PrivateKey, PublicKey, Signature,
};
use rand::{RngCore, SeedableRng};

fn seeded_key(seed: u8) -> PrivateKey {
    let mut rng = rand::rngs::StdRng::from_seed([seed; 32]);
    let mut bytes = [0u8; 16384];
    rng.fill_bytes(&mut bytes);
    PrivateKey::from_bytes(&bytes)
}

#[test]
fn test_bit_of_byteslice() {
    assert!(!bit_of_byteslice(0, b"\x00\x00"));
    assert!(bit_of_byteslice(0, b"\xFF\x00"));
    assert!(!bit_of_byteslice(9, b"\xFF\x00"));
    assert!(bit_of_byteslice(9, b"\xFF\x07"));
}

#[test]
fn test_bit_of_byte() {
    assert!(bit_of_byte(0, 0b00000001));
    assert!(!bit_of_byte(0, 0b00000010));
}

#[test]
fn end_to_end() {
    let private = PrivateKey::generate().expect("random key");
    let public_key = private.public_key();
    let message = b"Hello, world!";

    let signature = private.sign(message);
    assert!(public_key.verify(message, &signature));

    let faulty_message = b"Hello, not world!";
    assert!(!public_key.verify(faulty_message, &signature));

    let faulty_signature = private.sign(faulty_message);
    assert!(!public_key.verify(message, &faulty_signature));

    assert!(public_key.verify(faulty_message, &faulty_signature));
}

#[test]
fn bitmask_wraps_modulo_eight() {
    assert_eq!(bitmask_for(0), 1);
    assert_eq!(bitmask_for(7), 128);
    assert_eq!(bitmask_for(8), 1);
    assert_eq!(bitmask_for(13), 32);
}

#[test]
fn bits_are_little_endian_within_bytes() {
    // bit i is (d[i / 8] >> (i % 8)) & 1
    let d = [0b1000_0001u8, 0b0100_0000u8];
    assert!(bit_of_byteslice(0, &d));
    assert!(!bit_of_byteslice(1, &d));
    assert!(bit_of_byteslice(7, &d));
    assert!(!bit_of_byteslice(8, &d));
    assert!(bit_of_byteslice(14, &d));
    assert!(!bit_of_byteslice(15, &d));
}

#[test]
fn hash_is_blake3() {
    let h = hash(b"hello, world");
    assert_eq!(h, *blake3::hash(b"hello, world").as_bytes());
    assert_ne!(hash(&[7u8; 32]), [7u8; 32]);
    let a = hash(b"a");
    let b = hash(b"b");
    let mut both = Vec::new();
    both.extend_from_slice(&a);
    both.extend_from_slice(&b);
    assert_eq!(hash_two_hashes(&a, &b), *blake3::hash(&both).as_bytes());
    assert_ne!(hash_two_hashes(&a, &b), hash_two_hashes(&b, &a));
}

#[test]
fn lamport_round_trip_on_many_messages() {
    let private = seeded_key(0);
    let public_key = private.public_key();
    for m in ["", "a", "Hello, world!", "a much longer message with some more bytes in it"] {
        let signature = private.sign(m.as_bytes());
        assert!(public_key.verify(m.as_bytes(), &signature));
    }
}

#[test]
fn lamport_signature_of_other_message_is_rejected() {
    let private = seeded_key(1);
    let public_key = private.public_key();
    let signature = private.sign(b"m");
    assert!(!public_key.verify(b"m'", &signature));
    assert!(!public_key.verify(b"", &signature));
}

#[test]
fn lamport_signature_reveals_selected_preimages() {
    let private = seeded_key(2);
    let key_bytes = private.to_bytes();
    let d = hash(b"select");
    let signature = private.sign(b"select").to_bytes();
    for i in 0..256 {
        let bit = (d[i / 8] >> (i % 8)) & 1 == 1;
        let offset = if bit { 0 } else { 8192 };
        assert_eq!(&signature[i * 32..i * 32 + 32], &key_bytes[offset + i * 32..offset + i * 32 + 32]);
    }
}

#[test]
fn lamport_public_key_hashes_each_block() {
    let private = seeded_key(3);
    let key_bytes = private.to_bytes();
    let public_bytes = private.public_key().to_bytes();
    for i in 0..512 {
        assert_eq!(
            &public_bytes[i * 32..i * 32 + 32],
            blake3::hash(&key_bytes[i * 32..i * 32 + 32]).as_bytes()
        );
    }
}

#[test]
fn lamport_public_key_is_deterministic() {
    let private = seeded_key(4);
    assert_eq!(private.public_key(), private.public_key());
    assert_eq!(seeded_key(4).public_key(), private.public_key());
    assert_ne!(seeded_key(5).public_key(), private.public_key());
}

#[test]
fn lamport_codecs_round_trip() {
    let private = seeded_key(6);
    let bytes = private.to_bytes();
    assert_eq!(PrivateKey::from_bytes(&bytes), private);
    assert_eq!(bytes[0..8192], private.to_bytes()[0..8192]);

    let public_key = private.public_key();
    let public_bytes = public_key.to_bytes();
    assert_eq!(PublicKey::from_bytes(&public_bytes), public_key);

    let signature = private.sign(b"codec");
    let signature_bytes = signature.to_bytes();
    assert_eq!(Signature::from_bytes(signature_bytes), signature);
}

#[test]
fn generated_keys_differ() {
    let a = PrivateKey::generate().expect("random key");
    let b = PrivateKey::generate().expect("random key");
    assert_ne!(a.to_bytes()[..], b.to_bytes()[..]);
}
