//! Digests.

use chroma::crypto::hash::{hash160, sha256};

#[test]
fn test_sha256_known_vector() {
    let result = sha256(b"");
    let expected = [
        0xe3, 0xb0, 0xc4, 0x42, 0x98, 0xfc, 0x1c, 0x14, 0x9a, 0xfb, 0xf4, 0xc8, 0x99, 0x6f,
        0xb9, 0x24, 0x27, 0xae, 0x41, 0xe4, 0x64, 0x9b, 0x93, 0x4c, 0xa4, 0x95, 0x99, 0x1b,
        0x78, 0x52, 0xb8, 0x55,
    ];
    assert_eq!(result, expected);
}

#[test]
fn test_hash160() {
    let result = hash160(b"test");
    assert_eq!(result.len(), 20);
    assert_ne!(hash160(b"test"), hash160(b"test2"));
}
