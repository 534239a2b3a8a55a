//! 256-bit numbers.

use chroma::u256::U256;

#[test]
fn test_zero_one() {
    assert!(U256::zero().is_zero());
    assert!(!U256::one().is_zero());
    assert_eq!(U256::one().to_u64(), Some(1));
}

#[test]
fn test_from_to_be_bytes() {
    let val = U256::from_u64(0x0102030405060708);
    let bytes = val.to_be_bytes();
    assert_eq!(bytes[24], 0x01);
    assert_eq!(bytes[31], 0x08);
    assert_eq!(U256::from_be_bytes(&bytes), val);
}

#[test]
fn test_leading_zeros() {
    assert_eq!(U256::zero().leading_zeros(), 256);
    assert_eq!(U256::one().leading_zeros(), 255);
    // 2^63 in 256-bit representation has 192 leading zeros
    assert_eq!(U256::from_u64(0x8000000000000000).leading_zeros(), 192);
    // 2^255 (bit 255 set, highest limb bit 63) has 0 leading zeros
    let mut high = [0u8; 32];
    high[0] = 0x80;
    assert_eq!(U256::from_be_bytes(&high).leading_zeros(), 0);
}

#[test]
fn test_shl_shr() {
    let a = U256::from_u64(1);
    assert_eq!(a.shl(64), U256([0, 1, 0, 0]));
    assert_eq!(a.shl(128), U256([0, 0, 1, 0]));

    let b = U256([0, 1, 0, 0]);
    assert_eq!(b.shr(64), U256::one());

    // Round-trip
    let c = U256([0xDEADBEEF, 0xCAFEBABE, 0x12345678, 0x9ABCDEF0]);
    assert_eq!(c.shl(0), c);
    assert_eq!(c.shr(0), c);
}

#[test]
fn test_wrapping_sub() {
    let a = U256::from_u64(100);
    let b = U256::from_u64(30);
    assert_eq!(a.wrapping_sub(&b).to_u64(), Some(70));

    // Underflow wraps
    let c = U256::from_u64(5);
    let d = U256::from_u64(10);
    let result = c.wrapping_sub(&d);
    // Should be MAX - 4 (wrapping)
    assert_eq!(result.0[0], u64::MAX - 4);
}

#[test]
fn test_wrapping_add() {
    let a = U256::from_u64(100);
    let b = U256::from_u64(200);
    assert_eq!(a.wrapping_add(&b).to_u64(), Some(300));
}

#[test]
fn test_div_rem_basic() {
    let a = U256::from_u64(100);
    let b = U256::from_u64(7);
    let (q, r) = a.div_rem(&b);
    assert_eq!(q.to_u64(), Some(14));
    assert_eq!(r.to_u64(), Some(2));
}

#[test]
fn test_div_rem_equal() {
    let a = U256::from_u64(42);
    let b = U256::from_u64(42);
    let (q, r) = a.div_rem(&b);
    assert_eq!(q, U256::one());
    assert_eq!(r, U256::zero());
}

#[test]
fn test_div_rem_less() {
    let a = U256::from_u64(5);
    let b = U256::from_u64(10);
    let (q, r) = a.div_rem(&b);
    assert_eq!(q, U256::zero());
    assert_eq!(r, a);
}

#[test]
fn test_div_large_numbers() {
    // 2^128 / 2^64 = 2^64
    let a = U256([0, 1, 0, 0]); // 2^64
    let b = U256::from_u64(1);
    let (q, _r) = a.div_rem(&b);
    assert_eq!(q, a);

    // 2^128 / 2^64 = 2^64
    let two_128 = U256([0, 0, 1, 0]);
    let two_64 = U256([0, 1, 0, 0]);
    let (q, r) = two_128.div_rem(&two_64);
    assert_eq!(q, two_64);
    assert_eq!(r, U256::zero());
}

#[test]
fn test_difficulty_1_division() {
    // DIFFICULTY_1 target / DIFFICULTY_1 target = 1
    let bits = 0x1d00ffffu32;
    let exponent = (bits >> 24) as u32;
    let mantissa = bits & 0x00ffffff;
    let shift_bytes = (exponent - 3) as u32;
    // target = mantissa << (8 * shift_bytes)
    let target = U256::from_u64(mantissa as u64).shl(shift_bytes * 8);
    let (q, r) = target.div_rem(&target);
    assert_eq!(q, U256::one());
    assert_eq!(r, U256::zero());
}

#[test]
fn test_cmp() {
    assert!(U256::zero() < U256::one());
    assert!(U256::one() < U256::from_u64(2));
    assert!(U256::from_u64(u64::MAX) < U256([0, 1, 0, 0]));
    assert_eq!(U256::from_u64(42), U256::from_u64(42));
}

#[test]
fn test_div_max_by_2() {
    let max = U256::max_value();
    let two = U256::from_u64(2);
    let (q, r) = max.div_rem(&two);
    // (2^256 - 1) / 2 = 2^255 - 1, remainder 1
    assert_eq!(r, U256::one());
    // 2^255 - 1 should have bits 0..254 set
    let expected_q = U256::max_value().shr(1);
    assert_eq!(q, expected_q, "(2^256-1)/2 should be 2^255-1");
}

#[test]
fn test_div_by_1() {
    let a = U256::max_value();
    let one = U256::one();
    let (q, r) = a.div_rem(&one);
    assert_eq!(q, a);
    assert_eq!(r, U256::zero());
}
