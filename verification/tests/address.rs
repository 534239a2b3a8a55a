//! Address text.

use chroma::crypto::address::AddressString;
use chroma::hash::Hash160;

#[test]
fn test_address_encode_decode() {
    let hash = Hash160::from_bytes([0x42u8; 20]);
    let addr = AddressString::from_hash160(&hash, None).unwrap();
    assert!(addr.0.starts_with("chr1"));

    let decoded = addr.to_hash160().unwrap();
    assert_eq!(decoded, hash);
}
