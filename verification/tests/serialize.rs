//! Canonical encodings.

use chroma::error::CoreError;
use chroma::serialize::{
    decode_bytes_leb128, decode_leb128, decode_u128_le, decode_u16_le, decode_u32_le,
    decode_u64_le, encode_bytes_leb128, encode_leb128, encode_u128_le, encode_u16_le,
    encode_u32_le, encode_u64_le, CanonicalDecode, CanonicalEncode,
};

#[test]
fn leb128_has_the_usual_form() {
    assert_eq!(encode_leb128(0), vec![0]);
    assert_eq!(encode_leb128(127), vec![0x7F]);
    assert_eq!(encode_leb128(128), vec![0x80, 0x01]);
    assert_eq!(encode_leb128(624_485), vec![0xE5, 0x8E, 0x26]);
    assert_eq!(encode_leb128(u64::MAX).len(), 10);
}

#[test]
fn leb128_reads_back_wherever_it_stands() {
    for v in [0u64, 1, 127, 128, 300, 65_535, 1 << 32, u64::MAX] {
        let mut data = vec![9, 9, 9];
        data.extend_from_slice(&encode_leb128(v));
        let end = data.len();
        data.push(7);
        assert_eq!(decode_leb128(&data, 3).unwrap(), (v, end));
    }
}

#[test]
fn leb128_rejects_what_is_no_number() {
    assert!(decode_leb128(&[], 0).is_err());
    assert!(decode_leb128(&[0x80], 0).is_err(), "it goes on but does not");
    assert!(decode_leb128(&[0xFF; 11], 0).is_err(), "it is longer than any");
    assert!(decode_leb128(&[1], 1).is_err());
}

#[test]
fn fixed_width_numbers_are_little_endian() {
    assert_eq!(encode_u16_le(0x0102), [2, 1]);
    assert_eq!(encode_u32_le(0x0102_0304), [4, 3, 2, 1]);
    assert_eq!(encode_u64_le(1), [1, 0, 0, 0, 0, 0, 0, 0]);
    assert_eq!(encode_u128_le(1 << 120)[15], 1);
    assert_eq!(decode_u16_le(&[2, 1]).unwrap(), 0x0102);
    assert_eq!(decode_u32_le(&[4, 3, 2, 1, 0xFF]).unwrap(), 0x0102_0304);
    assert_eq!(decode_u64_le(&encode_u64_le(u64::MAX - 5)).unwrap(), u64::MAX - 5);
    assert_eq!(decode_u128_le(&encode_u128_le(u128::MAX / 3)).unwrap(), u128::MAX / 3);
    assert!(matches!(decode_u16_le(&[1]), Err(CoreError::Serialization(_))));
    assert!(matches!(decode_u32_le(&[1; 3]), Err(CoreError::Serialization(_))));
    assert!(matches!(decode_u64_le(&[1; 7]), Err(CoreError::Serialization(_))));
    assert!(matches!(decode_u128_le(&[1; 15]), Err(CoreError::Serialization(_))));
}

#[test]
fn exact_decoding_refuses_trailing_bytes() {
    assert_eq!(u32::decode(&7u32.encode()).unwrap(), 7);
    assert!(u32::decode(&[7, 0, 0, 0, 0]).is_err());
    assert_eq!(u32::decode_partial(&[7, 0, 0, 0, 9]).unwrap(), (7, 4));
    assert!(u8::decode(&[1, 2]).is_err());
    assert!(u64::decode(&[1; 9]).is_err());
    assert!(u16::decode(&[1; 1]).is_err());
    assert!(u128::decode(&[1; 17]).is_err());
}

#[test]
fn truth_values_are_zero_or_one() {
    assert_eq!(true.encode(), vec![1]);
    assert_eq!(false.encode(), vec![0]);
    assert!(bool::decode(&[1]).unwrap());
    assert!(!bool::decode(&[0]).unwrap());
    assert!(bool::decode(&[2]).is_err());
}

#[test]
fn bytes_and_text_carry_their_length() {
    assert_eq!(encode_bytes_leb128(&[5, 6]), vec![2, 5, 6]);
    assert_eq!(decode_bytes_leb128(&[9, 2, 5, 6, 7], 1).unwrap(), (vec![5, 6], 4));
    assert!(decode_bytes_leb128(&[3, 5, 6], 0).is_err(), "fewer bytes than announced");

    let data: Vec<u8> = (0..=255).collect();
    assert_eq!(Vec::<u8>::decode(&data.encode()).unwrap(), data);

    let text = "コイン".to_string();
    assert_eq!(String::decode(&text.encode()).unwrap(), text);
    assert_eq!("ab".to_string().encode(), vec![2, b'a', b'b']);
    assert!(String::decode(&[2, 0xC3, 0x28]).is_err(), "not UTF-8");
    assert!(String::decode(&[1, b'a', b'b']).is_err(), "trailing bytes");
}

#[test]
fn encoding_into_a_buffer_appends() {
    let mut buf = vec![1];
    0x0203u16.encode_into(&mut buf);
    assert_eq!(buf, vec![1, 3, 2]);
}
