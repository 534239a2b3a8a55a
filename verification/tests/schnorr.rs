//! Keys and signatures.

use chroma::crypto::hash::blake3;
use chroma::crypto::schnorr::{
    compute_sighash, schnorr_batch_verify, schnorr_sign, schnorr_verify, PublicKey32, SecretKey32,
};

#[test]
fn test_key_generation_and_signing() {
    let secret = SecretKey32::generate();
    let public = PublicKey32::from_secret(&secret).unwrap();

    let msg = [0x42u8; 32];
    let sig = schnorr_sign(&secret, &msg).unwrap();

    assert!(schnorr_verify(&public, &msg, &sig));
}

#[test]
fn test_signature_rejection() {
    let secret = SecretKey32::generate();
    let public = PublicKey32::from_secret(&secret).unwrap();

    let msg = [0x42u8; 32];
    let sig = schnorr_sign(&secret, &msg).unwrap();

    let wrong_msg = [0x43u8; 32];
    assert!(!schnorr_verify(&public, &wrong_msg, &sig));
}

#[test]
fn test_batch_verification() {
    let secret = SecretKey32::generate();
    let public = PublicKey32::from_secret(&secret).unwrap();

    let msg = [0x42u8; 32];
    let sig = schnorr_sign(&secret, &msg).unwrap();

    assert!(schnorr_batch_verify(&[public], &msg, &[sig]).unwrap());
    assert!(schnorr_batch_verify(&[public], &msg, &[]).is_err());
}

#[test]
fn test_signature_malleability() {
    let secret = SecretKey32::generate();

    let msg = [0x42u8; 32];
    let sig = schnorr_sign(&secret, &msg).unwrap();

    let sig2 = schnorr_sign(&secret, &msg).unwrap();
    assert_eq!(sig, sig2);
}

#[test]
fn test_sighash() {
    let sender = [0x11u8; 20];
    let recipient = [0x22u8; 20];
    let amount = 1_000_000u64;
    let nonce = 42u64;

    let hash1 = compute_sighash(&sender, &recipient, amount, nonce);
    let hash2 = compute_sighash(&sender, &recipient, amount, nonce);
    assert_eq!(hash1, hash2);

    let hash3 = compute_sighash(&sender, &recipient, amount, 43);
    assert_ne!(hash1, hash3);

    // Verify domain separation: sighash differs from raw field hash
    let raw_data = {
        let mut d = Vec::with_capacity(52);
        d.extend_from_slice(&sender);
        d.extend_from_slice(&recipient);
        d.extend_from_slice(&amount.to_le_bytes());
        d.extend_from_slice(&nonce.to_le_bytes());
        blake3(&d).0
    };
    assert_ne!(hash1, raw_data, "sighash must differ from raw field hash (domain separation)");
}
