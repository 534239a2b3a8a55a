//! Hashes, their text forms, keys and identities.

use chroma::crypto::hash::{hash160, sha256, sha256d};
use chroma::crypto::noise::{NodeId, NoiseKey};
use chroma::crypto::schnorr::{
    schnorr_batch_verify, schnorr_sign, schnorr_verify, PublicKey32, SecretKey32, Signature64,
};
use chroma::crypto::error::CryptoError;
use chroma::hash;
use chroma::hash::Hash160;
use chroma::text::HexError;

#[test]
fn blake3_of_nothing_is_the_known_digest() {
    assert_eq!(
        hash::Hash::blake3(b"").to_hex(),
        "af1349b9f5f9a1a6a0404dea36dcc9499bcb25c9adc112b7cc9a93cae41f3262"
    );
    assert_eq!(hash::blake3(b"x"), hash::Hash::blake3(b"x"));
}

#[test]
fn keyed_blake3_depends_on_key_and_input() {
    let one = hash::Hash::blake3_keyed(&[1; 32], b"x");
    assert_ne!(one, hash::Hash::blake3(b"x"));
    assert_ne!(one, hash::Hash::blake3_keyed(&[2; 32], b"x"));
    assert_ne!(one, hash::Hash::blake3_keyed(&[1; 32], b"y"));
    assert_eq!(one, hash::Hash::blake3_keyed(&[1; 32], b"x"));
}

#[test]
fn address_hash_of_nothing_is_the_known_digest() {
    assert_eq!(
        Hash160(hash160(b"")).to_hex(),
        "b472a266d0bd89c13706a4132ccfb16f7c3b9fcb"
    );
    assert_eq!(sha256d(b"abc"), sha256(&sha256(b"abc")));
}

#[test]
fn hash_text_reads_back_in_either_case() {
    let h = hash::Hash::blake3(b"text");
    assert_eq!(hash::Hash::from_hex(&h.to_hex()).unwrap(), h);
    assert_eq!(hash::Hash::from_hex(&h.to_hex().to_uppercase()).unwrap(), h);
    let s = Hash160([0x5C; 20]);
    assert_eq!(Hash160::from_hex(&s.to_hex()).unwrap(), s);
}

#[test]
fn bad_hash_text_says_what_is_wrong() {
    assert_eq!(hash::Hash::from_hex("abc"), Err(HexError::OddLength));
    assert_eq!(hash::Hash::from_hex("abcd"), Err(HexError::InvalidStringLength));
    assert_eq!(
        hash::Hash::from_hex("ab0g"),
        Err(HexError::InvalidHexCharacter { c: 'g', index: 3 })
    );
    assert_eq!(HexError::OddLength.message(), "Odd number of digits");
}

#[test]
fn slices_must_have_the_right_length() {
    assert_eq!(hash::Hash::from_slice(&[3; 32]).unwrap(), hash::Hash([3; 32]));
    assert!(hash::Hash::from_slice(&[3; 31]).is_err());
    assert_eq!(Hash160::from_slice(&[3; 20]).unwrap(), Hash160([3; 20]));
    assert!(Hash160::from_slice(&[3; 21]).is_err());
    assert_eq!(hash::Hash::from([4; 32]).as_bytes(), &[4; 32]);
    assert_eq!(hash::Hash::default(), hash::Hash::zero());
}

#[test]
fn identities_read_back_from_text() {
    let id = NodeId::from_bytes([7; 32]);
    assert_eq!(NodeId::from_hex(&id.to_hex()).unwrap(), id);
    let key = NoiseKey::from_bytes([8; 32]);
    assert_eq!(NoiseKey::from_hex(&key.to_hex()).unwrap(), key);
    assert!(NodeId::from_hex("00").is_err());
}

#[test]
fn secret_keys_must_be_in_range() {
    assert!(matches!(
        SecretKey32::from_bytes([0; 32]),
        Err(CryptoError::InvalidSecretKey(_))
    ));
    assert!(matches!(
        SecretKey32::from_bytes([0xFF; 32]),
        Err(CryptoError::InvalidSecretKey(_))
    ));
    assert!(SecretKey32::from_bytes([1; 32]).is_ok());
}

#[test]
fn public_key_of_one_is_the_generator() {
    let mut one = [0u8; 32];
    one[31] = 1;
    let key = PublicKey32::from_secret(&SecretKey32::from_bytes(one).unwrap()).unwrap();
    assert_eq!(
        hash::Hash(key.0).to_hex(),
        "79be667ef9dcbbac55a06295ce870b07029bfcdb2dce28d959f2815b16f81798"
    );
}

#[test]
fn public_keys_must_be_on_the_curve() {
    assert!(matches!(PublicKey32::from_bytes([0xFF; 32]), Err(CryptoError::InvalidPublicKey(_))));
    let key = PublicKey32::from_secret(&SecretKey32::from_bytes([9; 32]).unwrap()).unwrap();
    assert_eq!(PublicKey32::from_bytes(key.0).unwrap(), key);
}

#[test]
fn signatures_bind_key_and_message() {
    let secret = SecretKey32::from_bytes([5; 32]).unwrap();
    let public = PublicKey32::from_secret(&secret).unwrap();
    let other = PublicKey32::from_secret(&SecretKey32::from_bytes([6; 32]).unwrap()).unwrap();
    let sig = schnorr_sign(&secret, &[1; 32]).unwrap();
    assert!(schnorr_verify(&public, &[1; 32], &sig));
    assert!(!schnorr_verify(&public, &[2; 32], &sig));
    assert!(!schnorr_verify(&other, &[1; 32], &sig));
    let mut broken = sig;
    broken.0[63] ^= 1;
    assert!(!schnorr_verify(&public, &[1; 32], &broken));
    assert!(!schnorr_verify(&PublicKey32([0; 32]), &[1; 32], &Signature64([0; 64])));
    assert!(!schnorr_batch_verify(&[public, other], &[1; 32], &[sig, sig]).unwrap());
}

#[test]
fn generated_keys_differ() {
    assert_ne!(SecretKey32::generate().0, SecretKey32::generate().0);
}

#[test]
fn crypto_errors_say_what_is_wrong() {
    let e = CryptoError::InvalidAddress("x".to_string());
    assert_eq!(e.message(), "invalid address: x");
}
