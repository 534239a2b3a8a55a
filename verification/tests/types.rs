//! Heights, amounts, nonces, networks, addresses and targets.

use chroma::error::CoreError;
use chroma::hash::Hash160;
use chroma::serialize::{CanonicalDecode, CanonicalEncode};
use chroma::types::{Address, Amount, BlockHeight, CompactTarget, Difficulty, NetworkId, Nonce};
use chroma::u256::U256;

#[test]
fn heights_do_not_wrap() {
    assert_eq!(BlockHeight(5).checked_add(3), Some(BlockHeight(8)));
    assert_eq!(BlockHeight(u32::MAX).checked_add(1), None);
    assert_eq!(BlockHeight(5).saturating_sub(BlockHeight(7)), BlockHeight(0));
    assert_eq!(BlockHeight::genesis(), BlockHeight::new(0));
}

#[test]
fn amounts_do_not_wrap() {
    assert_eq!(Amount(5).checked_add(Amount(6)), Some(Amount(11)));
    assert_eq!(Amount(u64::MAX).checked_add(Amount(1)), None);
    assert_eq!(Amount(5).checked_sub(Amount(6)), None);
    assert_eq!(Amount(6).checked_sub(Amount(5)), Some(Amount(1)));
    assert_eq!(Amount(u64::MAX).saturating_add(Amount(9)), Amount(u64::MAX));
    assert_eq!(Amount(3).saturating_sub(Amount(9)), Amount::zero());
    assert_eq!(Amount::max_supply(), Amount(100_000_000_000_000));
    assert_eq!(Amount::block_reward(), Amount(1_000_000));
}

#[test]
fn nonces_end() {
    assert_eq!(Nonce::zero().next(), Some(Nonce(1)));
    assert_eq!(Nonce::new(u64::MAX).next(), None);
}

#[test]
fn networks_have_names_and_codes() {
    for (n, name) in [
        (NetworkId::Devnet, "chroma-devnet"),
        (NetworkId::Testnet, "chroma-testnet"),
        (NetworkId::Mainnet, "chroma-mainnet"),
        (NetworkId::Regtest, "chroma-regtest"),
    ] {
        assert_eq!(n.as_str(), name);
        assert_eq!(NetworkId::decode(&n.encode()).unwrap(), n);
    }
    assert!(matches!(NetworkId::decode(&[0xEE; 4]), Err(CoreError::InvalidNetworkId(_))));
}

#[test]
fn addresses_read_back() {
    let a = Address::from_hash160(Hash160([0xAB; 20]));
    assert_eq!(Address::decode(&a.encode()).unwrap(), a);
    assert!(Address::decode(&[0; 19]).is_err());
    assert_eq!(Address::from(Hash160([1; 20])).as_hash160(), Hash160([1; 20]));
    assert_eq!(a.to_text(), format!("0x{}", "ab".repeat(20)));
}

#[test]
fn numbers_read_back() {
    assert_eq!(BlockHeight::decode(&BlockHeight(7).encode()).unwrap(), BlockHeight(7));
    assert_eq!(Amount::decode(&Amount(8).encode()).unwrap(), Amount(8));
    assert_eq!(Nonce::decode(&Nonce(9).encode()).unwrap(), Nonce(9));
    let bits = CompactTarget(0x1d00ffff);
    assert_eq!(CompactTarget::decode(&bits.encode()).unwrap(), bits);
}

#[test]
fn difficulty_one_target_has_its_usual_value() {
    let full = CompactTarget::difficulty_1().to_full_target();
    let mut expected = [0u8; 32];
    expected[4] = 0xFF;
    expected[5] = 0xFF;
    assert_eq!(full, expected);
    assert_eq!(CompactTarget::from_full_target(&full), CompactTarget::difficulty_1());
}

#[test]
fn compact_form_rounds_down() {
    let mut target = [0u8; 32];
    target[10..14].copy_from_slice(&[0x12, 0x34, 0x56, 0x78]);
    let back = CompactTarget::from_full_target(&target).to_full_target();
    assert_eq!(&back[10..14], &[0x12, 0x34, 0x56, 0x00]);
    assert!(U256::from_be_bytes(&back) <= U256::from_be_bytes(&target));
}

#[test]
fn difficulty_is_relative_to_the_first() {
    assert_eq!(Difficulty::from_bits(CompactTarget(0x1d00ffff)), Difficulty(1));
    assert_eq!(Difficulty::genesis(), Difficulty(1));
    assert_eq!(Difficulty::from_bits(CompactTarget(0x1c00ffff)), Difficulty(256));
}
