//! Canonical binary serialization.
//!
//! The wire format does not depend on memory layout:
//!
//! - integers are little-endian and of fixed width;
//! - hashes are raw bytes in display order;
//! - variable-length fields have a LEB128 length prefix;
//! - structs are their fields one after the other.

use vstd::prelude::*;
use vstd::string::*;
use crate::bytes;
use crate::error;
use crate::error::{joined, CoreError, Fault, Result};
use crate::text;

verus! {

/// Canonical encoding to bytes.
pub trait CanonicalEncode {
    /// The bytes that stand for the value.
    spec fn spec_encode(&self) -> Seq<u8>;

    /// Encode to a byte vector.
    fn encode(&self) -> (r: Vec<u8>)
        ensures
            r@ == self.spec_encode(),
    ;

    /// Encode and append to an existing buffer.
    fn encode_into(&self, buf: &mut Vec<u8>)
        ensures
            final(buf)@ == old(buf)@ + self.spec_encode(),
    {
        let e = self.encode();
        bytes::push_bytes(buf, &e);
    }
}

/// Canonical decoding from bytes.
pub trait CanonicalDecode: Sized {
    /// Whether some bytes, all of them, stand for the value.
    spec fn denotes(data: Seq<u8>, v: Self) -> bool;

    /// Whether the first `used` of some bytes stand for the value.
    spec fn denotes_prefix(data: Seq<u8>, v: Self, used: nat) -> bool;

    /// Whether some bytes, all of them, stand for a value.
    spec fn decodable(data: Seq<u8>) -> bool;

    /// Whether some bytes begin with bytes that stand for a value.
    spec fn decodable_prefix(data: Seq<u8>) -> bool;

    /// The error that bytes give that do not stand for a value.
    spec fn decode_fault(data: Seq<u8>) -> Fault;

    /// The error that bytes give that do not begin with a value.
    spec fn partial_fault(data: Seq<u8>) -> Fault;

    /// Decode a byte slice. Fails if the input does not match exactly.
    fn decode(data: &[u8]) -> (r: Result<Self>)
        ensures
            r is Ok <==> Self::decodable(data@),
            r matches Ok(v) ==> Self::denotes(data@, v),
            r matches Err(e) ==> e.fault() == Self::decode_fault(data@),
    ;

    /// Decode from the front of a byte slice, allowing trailing data. Gives
    /// the value and the number of bytes it took.
    fn decode_partial(data: &[u8]) -> (r: Result<(Self, usize)>)
        ensures
            r is Ok <==> Self::decodable_prefix(data@),
            r matches Ok(p) ==> p.1 <= data@.len() && Self::denotes_prefix(data@, p.0, p.1 as nat),
            r matches Err(e) ==> e.fault() == Self::partial_fault(data@),
    ;
}

// ---------------------------------------------------------------------------
// LEB128
// ---------------------------------------------------------------------------

/// LEB128: seven bits per byte, least significant first, the top bit set on
/// all bytes but the last.
pub open spec fn leb128(v: nat) -> Seq<u8>
    decreases v,
{
    if v < 128 {
        seq![v as u8]
    } else {
        seq![(v % 128 + 128) as u8] + leb128(v / 128)
    }
}

/// Where a LEB128 number ends.
pub enum LebEnd {
    /// The bytes run out first.
    Truncated,
    /// Ten bytes go by without an end.
    TooLong,
    /// The position behind its last byte.
    At(int),
}

/// Look for the end of a LEB128 number of which `taken` bytes stand before `at`.
pub open spec fn leb_end(data: Seq<u8>, at: int, taken: nat) -> LebEnd
    decreases 10 - taken,
{
    if at >= data.len() {
        LebEnd::Truncated
    } else if data[at] < 128 {
        LebEnd::At(at + 1)
    } else if taken >= 9 {
        LebEnd::TooLong
    } else {
        leb_end(data, at + 1, taken + 1)
    }
}

/// The number that the low seven bits of some bytes stand for.
pub open spec fn leb_sum(s: Seq<u8>) -> nat
    decreases s.len(),
{
    if s.len() == 0 {
        0
    } else {
        (s[0] % 128) as nat + 128 * leb_sum(s.subrange(1, s.len() as int))
    }
}

/// What a LEB128 number at `at` decodes to: its value, of which 64 bits are
/// kept, and the position behind it.
pub open spec fn leb_value(data: Seq<u8>, at: int) -> Option<(nat, int)> {
    match leb_end(data, at, 0) {
        LebEnd::At(end) => Some(
            (leb_sum(data.subrange(at, end)) % 0x1_0000_0000_0000_0000, end),
        ),
        _ => None,
    }
}

/// What is wrong with bytes at `at` that are no LEB128 number.
pub open spec fn leb_fault(data: Seq<u8>, at: int) -> Fault {
    match leb_end(data, at, 0) {
        LebEnd::Truncated => error::malformed("LEB128 truncated"@),
        _ => error::malformed("LEB128 value too large"@),
    }
}

/// 128 to the power `n`.
pub open spec fn pow128(n: nat) -> nat
    decreases n,
{
    if n == 0 {
        1
    } else {
        128 * pow128((n - 1) as nat)
    }
}

proof fn lemma_leb_sum_push(s: Seq<u8>, b: u8)
    ensures
        leb_sum(s.push(b)) == leb_sum(s) + pow128(s.len()) * ((b % 128) as nat),
    decreases s.len(),
{
    let t = s.push(b);
    if s.len() == 0 {
        assert(t.subrange(1, 1) =~= Seq::<u8>::empty());
        assert(leb_sum(t.subrange(1, 1)) == 0);
        assert(pow128(0) == 1);
        assert(1 * ((b % 128) as nat) == (b % 128) as nat);
    } else {
        let rest = s.subrange(1, s.len() as int);
        assert(t.subrange(1, t.len() as int) =~= rest.push(b));
        lemma_leb_sum_push(rest, b);
        let p = pow128(rest.len());
        let c = (b % 128) as nat;
        assert(128 * (p * c) == (128 * p) * c) by (nonlinear_arith);
    }
}

proof fn lemma_leb_sum_bound(s: Seq<u8>)
    ensures
        leb_sum(s) < pow128(s.len()),
    decreases s.len(),
{
    if s.len() > 0 {
        lemma_leb_sum_bound(s.subrange(1, s.len() as int));
    }
}

proof fn lemma_pow128_values()
    ensures
        pow128(0) == 1,
        pow128(8) == 0x100_0000_0000_0000,
        pow128(9) == 0x8000_0000_0000_0000,
{
    reveal_with_fuel(pow128, 10);
}

proof fn lemma_pow128_monotone(a: nat, b: nat)
    requires
        a <= b,
    ensures
        pow128(a) <= pow128(b),
        pow128(a) > 0,
    decreases b,
{
    if a < b {
        lemma_pow128_monotone(a, (b - 1) as nat);
    } else if a > 0 {
        lemma_pow128_monotone((a - 1) as nat, (b - 1) as nat);
    }
}

/// LEB128 encoding.
pub fn encode_leb128(value: u64) -> (r: Vec<u8>)
    ensures
        r@ == leb128(value as nat),
{
    let mut r: Vec<u8> = Vec::new();
    let mut v: u64 = value;
    assert(r@ + leb128(v as nat) =~= leb128(value as nat));
    while v >= 128
        invariant
            r@ + leb128(v as nat) == leb128(value as nat),
        decreases v,
    {
        let ghost before = r@;
        let ghost tail = leb128(v as nat / 128);
        r.push((v % 128 + 128) as u8);
        assert(r@ + tail =~= before + leb128(v as nat));
        v = v / 128;
    }
    let ghost before = r@;
    r.push(v as u8);
    assert(r@ =~= before + leb128(v as nat));
    r
}

/// Put seven bits at a weight on top of what stands below it, keeping 64 bits.
fn leb_add(result: u64, weight: u64, low: u8) -> (r: u64)
    requires
        result < weight,
        low < 128,
        weight <= 0x100_0000_0000_0000 || weight == 0x8000_0000_0000_0000,
    ensures
        r == (result + weight * low) % 0x1_0000_0000_0000_0000,
        weight <= 0x100_0000_0000_0000 ==> r == result + weight * low,
{
    if weight <= 0x100_0000_0000_0000 {
        assert(0 <= weight * low <= 0x7f00_0000_0000_0000) by (nonlinear_arith)
            requires
                0 <= weight <= 0x100_0000_0000_0000,
                0 <= low <= 127,
        ;
        result + weight * low as u64
    } else {
        // only the lowest of the seven bits still fits
        let bit: u64 = (low % 2) as u64;
        proof {
            let half = (low / 2) as int;
            assert(weight * low == half * 0x1_0000_0000_0000_0000 + bit * 0x8000_0000_0000_0000)
                by (nonlinear_arith)
                requires
                    weight == 0x8000_0000_0000_0000,
                    low == 2 * half + bit,
            ;
        }
        result + bit * 0x8000_0000_0000_0000
    }
}

proof fn lemma_leb_step(data: Seq<u8>, offset: int, pos: int, taken: nat)
    requires
        0 <= offset <= pos < data.len(),
        pos == offset + taken,
        taken <= 9,
    ensures
        leb_sum(data.subrange(offset, pos + 1)) == leb_sum(data.subrange(offset, pos)) + pow128(
            taken,
        ) * ((data[pos] % 128) as nat),
        leb_sum(data.subrange(offset, pos)) < pow128(taken),
        pow128(taken + 1) == 128 * pow128(taken),
        taken < 9 ==> pow128(taken) <= 0x100_0000_0000_0000,
        taken == 9 ==> pow128(taken) == 0x8000_0000_0000_0000,
        data[pos] < 128 ==> leb_end(data, pos, taken) == LebEnd::At(pos + 1),
        data[pos] >= 128 && taken == 9 ==> leb_end(data, pos, taken) == LebEnd::TooLong,
        data[pos] >= 128 && taken < 9 ==> leb_end(data, pos, taken) == leb_end(
            data,
            pos + 1,
            taken + 1,
        ),
{
    let s = data.subrange(offset, pos);
    assert(data.subrange(offset, pos + 1) =~= s.push(data[pos]));
    lemma_leb_sum_push(s, data[pos]);
    lemma_leb_sum_bound(s);
    lemma_pow128_values();
    if taken < 9 {
        lemma_pow128_monotone(taken, 8);
    }
}

/// LEB128 decoding at a position: the value and the position behind it.
pub fn decode_leb128(data: &[u8], offset: usize) -> (r: Result<(u64, usize)>)
    ensures
        match r {
            Ok((v, pos)) => leb_value(data@, offset as int) == Some((v as nat, pos as int))
                && offset < pos <= data@.len(),
            Err(e) => leb_value(data@, offset as int) is None && e.fault() == leb_fault(
                data@,
                offset as int,
            ),
        },
{
    let len: usize = data.len();
    if offset >= len {
        return Err(CoreError::Serialization("LEB128 truncated".to_string()));
    }
    let mut result: u64 = 0;
    let mut weight: u64 = 1;
    let mut taken: u32 = 0;
    let mut pos: usize = offset;
    assert(data@.subrange(offset as int, offset as int) =~= Seq::<u8>::empty());
    loop
        invariant
            data@.len() == len,
            taken <= 9,
            pos == offset + taken,
            offset < len,
            pos <= len,
            result == leb_sum(data@.subrange(offset as int, pos as int)),
            weight == pow128(taken as nat),
            leb_end(data@, offset as int, 0) == leb_end(data@, pos as int, taken as nat),
        decreases 10 - taken,
    {
        if pos >= len {
            return Err(CoreError::Serialization("LEB128 truncated".to_string()));
        }
        let byte: u8 = data[pos];
        proof {
            lemma_leb_step(data@, offset as int, pos as int, taken as nat);
        }
        result = leb_add(result, weight, byte % 128);
        pos = pos + 1;
        if byte < 128 {
            return Ok((result, pos));
        }
        if taken >= 9 {
            return Err(CoreError::Serialization("LEB128 value too large".to_string()));
        }
        weight = weight * 128;
        taken = taken + 1;
    }
}

/// A number below two to the power 64 reads back from its LEB128 form,
/// whatever follows it.
pub proof fn leb128_roundtrip(v: nat, before: Seq<u8>, after: Seq<u8>)
    requires
        v <= u64::MAX,
    ensures
        leb_value(before + leb128(v) + after, before.len() as int) == Some(
            (v, (before.len() + leb128(v).len()) as int),
        ),
        leb128(v).len() <= 10,
{
    let data = before + leb128(v) + after;
    lemma_pow128_values();
    assert(pow128(10) == 128 * pow128(9));
    assert(data.subrange(before.len() as int, (before.len() + leb128(v).len()) as int) =~= leb128(
        v,
    ));
    lemma_leb_end(v, data, before.len() as int, 0);
    lemma_leb_sum_of(v);
}

proof fn lemma_leb_sum_of(v: nat)
    ensures
        leb_sum(leb128(v)) == v,
    decreases v,
{
    let s = leb128(v);
    if v < 128 {
        assert(s.subrange(1, 1) =~= Seq::<u8>::empty());
        assert(leb_sum(s.subrange(1, 1)) == 0);
    } else {
        assert(s.subrange(1, s.len() as int) =~= leb128(v / 128));
        lemma_leb_sum_of(v / 128);
    }
}

proof fn lemma_leb_end(v: nat, data: Seq<u8>, at: int, taken: nat)
    requires
        taken <= 9,
        v < pow128((10 - taken) as nat),
        0 <= at,
        at + leb128(v).len() <= data.len(),
        data.subrange(at, at + leb128(v).len()) == leb128(v),
    ensures
        leb_end(data, at, taken) == LebEnd::At(at + leb128(v).len()),
        leb128(v).len() <= 10 - taken,
    decreases v,
{
    let s = leb128(v);
    assert(data[at] == data.subrange(at, at + s.len())[0]);
    if v >= 128 {
        let t = leb128(v / 128);
        assert(s.len() == t.len() + 1);
        assert(data.subrange(at + 1, at + 1 + t.len()) =~= t) by {
            assert forall|i: int| 0 <= i < t.len() implies data[at + 1 + i] == t[i] by {
                assert(data.subrange(at, at + s.len())[i + 1] == s[i + 1]);
            }
        }
        if taken == 9 {
            assert(pow128(1) == 128) by {
                reveal_with_fuel(pow128, 2);
            }
        }
        assert(v / 128 < pow128((9 - taken) as nat)) by (nonlinear_arith)
            requires
                v < 128 * pow128((9 - taken) as nat),
        ;
        lemma_leb_end(v / 128, data, at + 1, taken + 1);
    } else {
        assert(data[at] == v);
    }
}

// ---------------------------------------------------------------------------
// Fixed-width integers
// ---------------------------------------------------------------------------

pub fn encode_u16_le(value: u16) -> (r: [u8; 2])
    ensures
        r@ == bytes::le_bytes(value as nat, 2),
{
    let mut buf: Vec<u8> = Vec::new();
    bytes::push_le(&mut buf, value as u64, 2);
    proof {
        bytes::lemma_le_bytes_len(value as nat, 2);
        assert(buf@.subrange(0, 2) =~= bytes::le_bytes(value as nat, 2));
    }
    bytes::take_array::<2>(&buf, 0)
}

pub fn encode_u32_le(value: u32) -> (r: [u8; 4])
    ensures
        r@ == bytes::le_bytes(value as nat, 4),
{
    let mut buf: Vec<u8> = Vec::new();
    bytes::push_le(&mut buf, value as u64, 4);
    proof {
        bytes::lemma_le_bytes_len(value as nat, 4);
        assert(buf@.subrange(0, 4) =~= bytes::le_bytes(value as nat, 4));
    }
    bytes::take_array::<4>(&buf, 0)
}

pub fn encode_u64_le(value: u64) -> (r: [u8; 8])
    ensures
        r@ == bytes::le_bytes(value as nat, 8),
{
    let mut buf: Vec<u8> = Vec::new();
    bytes::push_le(&mut buf, value, 8);
    proof {
        bytes::lemma_le_bytes_len(value as nat, 8);
        assert(buf@.subrange(0, 8) =~= bytes::le_bytes(value as nat, 8));
    }
    bytes::take_array::<8>(&buf, 0)
}

pub fn encode_u128_le(value: u128) -> (r: [u8; 16])
    ensures
        r@ == bytes::le_bytes(value as nat, 16),
{
    let mut buf: Vec<u8> = Vec::new();
    let low: u64 = (value % 0x1_0000_0000_0000_0000) as u64;
    let high: u64 = (value / 0x1_0000_0000_0000_0000) as u64;
    bytes::push_le(&mut buf, low, 8);
    bytes::push_le(&mut buf, high, 8);
    proof {
        bytes::lemma_pow256_values();
        bytes::lemma_le_bytes_split(value as nat, 8, 8);
        bytes::lemma_le_bytes_low(value as nat, low as nat, 8);
        bytes::lemma_le_bytes_len(value as nat, 16);
        assert(buf@ =~= bytes::le_bytes(value as nat, 16));
        assert(buf@.subrange(0, 16) =~= bytes::le_bytes(value as nat, 16));
    }
    bytes::take_array::<16>(&buf, 0)
}

/// Decode from the front of a slice.
pub fn decode_u16_le(data: &[u8]) -> (r: Result<u16>)
    ensures
        match r {
            Ok(v) => data@.len() >= 2 && v == bytes::le_value(data@.subrange(0, 2)),
            Err(e) => data@.len() < 2 && e.fault() == error::malformed(
                "u16 decoding: not enough bytes"@,
            ),
        },
{
    if data.len() < 2 {
        return Err(CoreError::Serialization("u16 decoding: not enough bytes".to_string()));
    }
    proof {
        bytes::lemma_pow256_values();
    }
    Ok(bytes::read_le(data, 0, 2) as u16)
}

/// Decode from the front of a slice.
pub fn decode_u32_le(data: &[u8]) -> (r: Result<u32>)
    ensures
        match r {
            Ok(v) => data@.len() >= 4 && v == bytes::le_value(data@.subrange(0, 4)),
            Err(e) => data@.len() < 4 && e.fault() == error::malformed(
                "u32 decoding: not enough bytes"@,
            ),
        },
{
    if data.len() < 4 {
        return Err(CoreError::Serialization("u32 decoding: not enough bytes".to_string()));
    }
    proof {
        bytes::lemma_pow256_values();
    }
    Ok(bytes::read_le(data, 0, 4) as u32)
}

/// Decode from the front of a slice.
pub fn decode_u64_le(data: &[u8]) -> (r: Result<u64>)
    ensures
        match r {
            Ok(v) => data@.len() >= 8 && v == bytes::le_value(data@.subrange(0, 8)),
            Err(e) => data@.len() < 8 && e.fault() == error::malformed(
                "u64 decoding: not enough bytes"@,
            ),
        },
{
    if data.len() < 8 {
        return Err(CoreError::Serialization("u64 decoding: not enough bytes".to_string()));
    }
    Ok(bytes::read_le(data, 0, 8))
}

/// Decode from the front of a slice.
pub fn decode_u128_le(data: &[u8]) -> (r: Result<u128>)
    ensures
        match r {
            Ok(v) => data@.len() >= 16 && v == bytes::le_value(data@.subrange(0, 16)),
            Err(e) => data@.len() < 16 && e.fault() == error::malformed(
                "u128 decoding: not enough bytes"@,
            ),
        },
{
    if data.len() < 16 {
        return Err(CoreError::Serialization("u128 decoding: not enough bytes".to_string()));
    }
    let low: u64 = bytes::read_le(data, 0, 8);
    let high: u64 = bytes::read_le(data, 8, 8);
    let v: u128 = high as u128 * 0x1_0000_0000_0000_0000 + low as u128;
    proof {
        bytes::lemma_pow256_values();
        let a = data@.subrange(0, 8);
        let b = data@.subrange(8, 16);
        bytes::lemma_le_bytes_split(v as nat, 8, 8);
        bytes::lemma_le_bytes_low(v as nat, low as nat, 8);
        bytes::lemma_le_bytes_of_value(a);
        bytes::lemma_le_bytes_of_value(b);
        bytes::lemma_join_ranges(data@, 0, 8, 16);
        bytes::lemma_le_value_of_bytes(v as nat, 16);
    }
    Ok(v)
}

/// A number written in `n` bytes and read back.
pub proof fn fixed_width_roundtrip(v: nat, n: nat)
    requires
        v < bytes::pow256(n),
    ensures
        bytes::le_bytes(v, n).len() == n,
        bytes::le_value(bytes::le_bytes(v, n)) == v,
{
    bytes::lemma_le_bytes_len(v, n);
    bytes::lemma_le_value_of_bytes(v, n);
}

impl CanonicalEncode for u8 {
    open spec fn spec_encode(&self) -> Seq<u8> {
        seq![*self]
    }

    fn encode(&self) -> (r: Vec<u8>) {
        let mut r: Vec<u8> = Vec::new();
        r.push(*self);
        assert(r@ =~= seq![*self]);
        r
    }
}

impl CanonicalDecode for u8 {
    open spec fn denotes(data: Seq<u8>, v: Self) -> bool {
        data == seq![v]
    }

    open spec fn denotes_prefix(data: Seq<u8>, v: Self, used: nat) -> bool {
        used == 1 && data[0] == v
    }

    open spec fn decodable(data: Seq<u8>) -> bool {
        data.len() == 1
    }

    open spec fn decodable_prefix(data: Seq<u8>) -> bool {
        data.len() >= 1
    }

    open spec fn decode_fault(data: Seq<u8>) -> Fault {
        error::malformed("u8: expected 1 byte"@)
    }

    open spec fn partial_fault(data: Seq<u8>) -> Fault {
        error::malformed("u8: no data"@)
    }

    fn decode(data: &[u8]) -> (r: Result<Self>) {
        if data.len() != 1 {
            return Err(CoreError::Serialization("u8: expected 1 byte".to_string()));
        }
        assert(data@ =~= seq![data@[0]]);
        Ok(data[0])
    }

    fn decode_partial(data: &[u8]) -> (r: Result<(Self, usize)>) {
        if data.len() == 0 {
            return Err(CoreError::Serialization("u8: no data".to_string()));
        }
        Ok((data[0], 1))
    }
}

impl CanonicalEncode for bool {
    open spec fn spec_encode(&self) -> Seq<u8> {
        seq![if *self { 1u8 } else { 0u8 }]
    }

    fn encode(&self) -> (r: Vec<u8>) {
        let mut r: Vec<u8> = Vec::new();
        r.push(if *self { 1u8 } else { 0u8 });
        assert(r@ =~= self.spec_encode());
        r
    }
}

impl CanonicalDecode for bool {
    open spec fn denotes(data: Seq<u8>, v: Self) -> bool {
        data == v.spec_encode()
    }

    open spec fn denotes_prefix(data: Seq<u8>, v: Self, used: nat) -> bool {
        used == 1 && data[0] == if v { 1u8 } else { 0u8 }
    }

    open spec fn decodable(data: Seq<u8>) -> bool {
        data.len() == 1 && data[0] <= 1
    }

    open spec fn decodable_prefix(data: Seq<u8>) -> bool {
        data.len() >= 1 && data[0] <= 1
    }

    open spec fn decode_fault(data: Seq<u8>) -> Fault {
        if data.len() != 1 {
            error::malformed("bool: expected 1 byte"@)
        } else {
            Self::partial_fault(data)
        }
    }

    open spec fn partial_fault(data: Seq<u8>) -> Fault {
        if data.len() == 0 {
            error::malformed("bool: no data"@)
        } else {
            error::malformed("bool: invalid value "@ + text::decimal(data[0] as nat))
        }
    }

    fn decode(data: &[u8]) -> (r: Result<Self>) {
        if data.len() != 1 {
            return Err(CoreError::Serialization("bool: expected 1 byte".to_string()));
        }
        match bool::decode_partial(data) {
            Ok((v, _)) => {
                assert(data@ =~= v.spec_encode());
                Ok(v)
            },
            Err(e) => Err(e),
        }
    }

    fn decode_partial(data: &[u8]) -> (r: Result<(Self, usize)>) {
        if data.len() == 0 {
            return Err(CoreError::Serialization("bool: no data".to_string()));
        }
        match data[0] {
            0 => Ok((false, 1)),
            1 => Ok((true, 1)),
            _ => Err(
                CoreError::Serialization(
                    text::phrase1("bool: invalid value ", data[0] as u64),
                ),
            ),
        }
    }
}

impl CanonicalEncode for u16 {
    open spec fn spec_encode(&self) -> Seq<u8> {
        bytes::le_bytes(*self as nat, 2)
    }

    fn encode(&self) -> (r: Vec<u8>) {
        let mut r: Vec<u8> = Vec::new();
        bytes::push_bytes(&mut r, &encode_u16_le(*self));
        assert(r@ =~= self.spec_encode());
        r
    }
}

impl CanonicalDecode for u16 {
    open spec fn denotes(data: Seq<u8>, v: Self) -> bool {
        data == v.spec_encode()
    }

    open spec fn denotes_prefix(data: Seq<u8>, v: Self, used: nat) -> bool {
        used == 2 && data.subrange(0, 2) == v.spec_encode()
    }

    open spec fn decodable(data: Seq<u8>) -> bool {
        data.len() == 2
    }

    open spec fn decodable_prefix(data: Seq<u8>) -> bool {
        data.len() >= 2
    }

    open spec fn decode_fault(data: Seq<u8>) -> Fault {
        if data.len() > 2 {
            error::malformed("u16 decoding: trailing bytes"@)
        } else {
            Self::partial_fault(data)
        }
    }

    open spec fn partial_fault(data: Seq<u8>) -> Fault {
        error::malformed("u16 decoding: not enough bytes"@)
    }

    fn decode(data: &[u8]) -> (r: Result<Self>) {
        if data.len() > 2 {
            return Err(CoreError::Serialization("u16 decoding: trailing bytes".to_string()));
        }
        match u16::decode_partial(data) {
            Ok((v, _)) => {
                assert(data@.subrange(0, 2) =~= data@);
                Ok(v)
            },
            Err(e) => Err(e),
        }
    }

    fn decode_partial(data: &[u8]) -> (r: Result<(Self, usize)>) {
        match decode_u16_le(data) {
            Ok(v) => {
                proof {
                    bytes::lemma_le_bytes_of_value(data@.subrange(0, 2));
                }
                Ok((v, 2))
            },
            Err(e) => Err(e),
        }
    }
}

impl CanonicalEncode for u32 {
    open spec fn spec_encode(&self) -> Seq<u8> {
        bytes::le_bytes(*self as nat, 4)
    }

    fn encode(&self) -> (r: Vec<u8>) {
        let mut r: Vec<u8> = Vec::new();
        bytes::push_bytes(&mut r, &encode_u32_le(*self));
        assert(r@ =~= self.spec_encode());
        r
    }
}

impl CanonicalDecode for u32 {
    open spec fn denotes(data: Seq<u8>, v: Self) -> bool {
        data == v.spec_encode()
    }

    open spec fn denotes_prefix(data: Seq<u8>, v: Self, used: nat) -> bool {
        used == 4 && data.subrange(0, 4) == v.spec_encode()
    }

    open spec fn decodable(data: Seq<u8>) -> bool {
        data.len() == 4
    }

    open spec fn decodable_prefix(data: Seq<u8>) -> bool {
        data.len() >= 4
    }

    open spec fn decode_fault(data: Seq<u8>) -> Fault {
        if data.len() > 4 {
            error::malformed("u32 decoding: trailing bytes"@)
        } else {
            Self::partial_fault(data)
        }
    }

    open spec fn partial_fault(data: Seq<u8>) -> Fault {
        error::malformed("u32 decoding: not enough bytes"@)
    }

    fn decode(data: &[u8]) -> (r: Result<Self>) {
        if data.len() > 4 {
            return Err(CoreError::Serialization("u32 decoding: trailing bytes".to_string()));
        }
        match u32::decode_partial(data) {
            Ok((v, _)) => {
                assert(data@.subrange(0, 4) =~= data@);
                Ok(v)
            },
            Err(e) => Err(e),
        }
    }

    fn decode_partial(data: &[u8]) -> (r: Result<(Self, usize)>) {
        match decode_u32_le(data) {
            Ok(v) => {
                proof {
                    bytes::lemma_le_bytes_of_value(data@.subrange(0, 4));
                }
                Ok((v, 4))
            },
            Err(e) => Err(e),
        }
    }
}

impl CanonicalEncode for u64 {
    open spec fn spec_encode(&self) -> Seq<u8> {
        bytes::le_bytes(*self as nat, 8)
    }

    fn encode(&self) -> (r: Vec<u8>) {
        let mut r: Vec<u8> = Vec::new();
        bytes::push_bytes(&mut r, &encode_u64_le(*self));
        assert(r@ =~= self.spec_encode());
        r
    }
}

impl CanonicalDecode for u64 {
    open spec fn denotes(data: Seq<u8>, v: Self) -> bool {
        data == v.spec_encode()
    }

    open spec fn denotes_prefix(data: Seq<u8>, v: Self, used: nat) -> bool {
        used == 8 && data.subrange(0, 8) == v.spec_encode()
    }

    open spec fn decodable(data: Seq<u8>) -> bool {
        data.len() == 8
    }

    open spec fn decodable_prefix(data: Seq<u8>) -> bool {
        data.len() >= 8
    }

    open spec fn decode_fault(data: Seq<u8>) -> Fault {
        if data.len() > 8 {
            error::malformed("u64 decoding: trailing bytes"@)
        } else {
            Self::partial_fault(data)
        }
    }

    open spec fn partial_fault(data: Seq<u8>) -> Fault {
        error::malformed("u64 decoding: not enough bytes"@)
    }

    fn decode(data: &[u8]) -> (r: Result<Self>) {
        if data.len() > 8 {
            return Err(CoreError::Serialization("u64 decoding: trailing bytes".to_string()));
        }
        match u64::decode_partial(data) {
            Ok((v, _)) => {
                assert(data@.subrange(0, 8) =~= data@);
                Ok(v)
            },
            Err(e) => Err(e),
        }
    }

    fn decode_partial(data: &[u8]) -> (r: Result<(Self, usize)>) {
        match decode_u64_le(data) {
            Ok(v) => {
                proof {
                    bytes::lemma_le_bytes_of_value(data@.subrange(0, 8));
                }
                Ok((v, 8))
            },
            Err(e) => Err(e),
        }
    }
}

impl CanonicalEncode for u128 {
    open spec fn spec_encode(&self) -> Seq<u8> {
        bytes::le_bytes(*self as nat, 16)
    }

    fn encode(&self) -> (r: Vec<u8>) {
        let mut r: Vec<u8> = Vec::new();
        bytes::push_bytes(&mut r, &encode_u128_le(*self));
        assert(r@ =~= self.spec_encode());
        r
    }
}

impl CanonicalDecode for u128 {
    open spec fn denotes(data: Seq<u8>, v: Self) -> bool {
        data == v.spec_encode()
    }

    open spec fn denotes_prefix(data: Seq<u8>, v: Self, used: nat) -> bool {
        used == 16 && data.subrange(0, 16) == v.spec_encode()
    }

    open spec fn decodable(data: Seq<u8>) -> bool {
        data.len() == 16
    }

    open spec fn decodable_prefix(data: Seq<u8>) -> bool {
        data.len() >= 16
    }

    open spec fn decode_fault(data: Seq<u8>) -> Fault {
        if data.len() > 16 {
            error::malformed("u128 decoding: trailing bytes"@)
        } else {
            Self::partial_fault(data)
        }
    }

    open spec fn partial_fault(data: Seq<u8>) -> Fault {
        error::malformed("u128 decoding: not enough bytes"@)
    }

    fn decode(data: &[u8]) -> (r: Result<Self>) {
        if data.len() > 16 {
            return Err(CoreError::Serialization("u128 decoding: trailing bytes".to_string()));
        }
        match u128::decode_partial(data) {
            Ok((v, _)) => {
                assert(data@.subrange(0, 16) =~= data@);
                Ok(v)
            },
            Err(e) => Err(e),
        }
    }

    fn decode_partial(data: &[u8]) -> (r: Result<(Self, usize)>) {
        match decode_u128_le(data) {
            Ok(v) => {
                proof {
                    bytes::lemma_le_bytes_of_value(data@.subrange(0, 16));
                }
                Ok((v, 16))
            },
            Err(e) => Err(e),
        }
    }
}

// ---------------------------------------------------------------------------
// Bytes and text with a length prefix
// ---------------------------------------------------------------------------

/// Bytes behind their LEB128 length.
pub open spec fn prefixed(s: Seq<u8>) -> Seq<u8> {
    leb128(s.len()) + s
}

/// What length-prefixed bytes at `at` decode to, and the position behind them.
pub open spec fn prefixed_value(data: Seq<u8>, at: int) -> Option<(Seq<u8>, int)> {
    match leb_value(data, at) {
        Some((len, pos)) => if pos + len <= data.len() {
            Some((data.subrange(pos, pos + len), pos + len))
        } else {
            None
        },
        None => None,
    }
}

/// What is wrong with bytes at `at` that are no length-prefixed bytes.
pub open spec fn prefixed_fault(data: Seq<u8>, at: int) -> Fault {
    match leb_value(data, at) {
        Some((len, pos)) => if pos + len > usize::MAX {
            error::malformed("bytes: length overflow"@)
        } else {
            error::malformed("bytes: declared length exceeds data"@)
        },
        None => leb_fault(data, at),
    }
}

/// Encode a byte slice with LEB128 length prefix.
pub fn encode_bytes_leb128(data: &[u8]) -> (r: Vec<u8>)
    ensures
        r@ == prefixed(data@),
{
    let mut r: Vec<u8> = encode_leb128(data.len() as u64);
    bytes::push_bytes(&mut r, data);
    r
}

/// Decode a byte slice with LEB128 length prefix.
pub fn decode_bytes_leb128(data: &[u8], offset: usize) -> (r: Result<(Vec<u8>, usize)>)
    ensures
        match r {
            Ok((v, end)) => prefixed_value(data@, offset as int) == Some((v@, end as int))
                && end <= data@.len(),
            Err(e) => prefixed_value(data@, offset as int) is None && e.fault() == prefixed_fault(
                data@,
                offset as int,
            ),
        },
{
    match decode_leb128(data, offset) {
        Ok((len, pos)) => {
            let most: usize = data.len();
            if len > (usize::MAX - pos) as u64 {
                return Err(CoreError::Serialization("bytes: length overflow".to_string()));
            }
            if len > (most - pos) as u64 {
                return Err(
                    CoreError::Serialization("bytes: declared length exceeds data".to_string()),
                );
            }
            let end: usize = pos + len as usize;
            let mut out: Vec<u8> = Vec::new();
            bytes::push_bytes(&mut out, &data[pos..end]);
            assert(out@ =~= data@.subrange(pos as int, end as int));
            Ok((out, end))
        },
        Err(e) => Err(e),
    }
}

/// Length-prefixed bytes read back, whatever follows them.
pub proof fn prefixed_roundtrip(s: Seq<u8>, before: Seq<u8>, after: Seq<u8>)
    requires
        s.len() <= u64::MAX,
    ensures
        prefixed_value(before + prefixed(s) + after, before.len() as int) == Some(
            (s, (before.len() + prefixed(s).len()) as int),
        ),
{
    let data = before + prefixed(s) + after;
    assert(data =~= before + leb128(s.len()) + (s + after));
    leb128_roundtrip(s.len(), before, s + after);
    let pos = (before.len() + leb128(s.len()).len()) as int;
    assert(data.subrange(pos, pos + s.len()) =~= s);
}

impl CanonicalEncode for Vec<u8> {
    open spec fn spec_encode(&self) -> Seq<u8> {
        prefixed(self@)
    }

    fn encode(&self) -> (r: Vec<u8>) {
        encode_bytes_leb128(self)
    }
}

impl CanonicalDecode for Vec<u8> {
    open spec fn denotes(data: Seq<u8>, v: Self) -> bool {
        prefixed_value(data, 0) == Some((v@, data.len() as int))
    }

    open spec fn denotes_prefix(data: Seq<u8>, v: Self, used: nat) -> bool {
        prefixed_value(data, 0) == Some((v@, used as int))
    }

    open spec fn decodable(data: Seq<u8>) -> bool {
        prefixed_value(data, 0) matches Some((_, end)) && end == data.len()
    }

    open spec fn decodable_prefix(data: Seq<u8>) -> bool {
        prefixed_value(data, 0) is Some
    }

    open spec fn decode_fault(data: Seq<u8>) -> Fault {
        match prefixed_value(data, 0) {
            Some(_) => error::malformed("bytes: trailing data"@),
            None => prefixed_fault(data, 0),
        }
    }

    open spec fn partial_fault(data: Seq<u8>) -> Fault {
        prefixed_fault(data, 0)
    }

    fn decode(data: &[u8]) -> (r: Result<Self>) {
        match decode_bytes_leb128(data, 0) {
            Ok((v, end)) => {
                if end != data.len() {
                    return Err(CoreError::Serialization("bytes: trailing data".to_string()));
                }
                Ok(v)
            },
            Err(e) => Err(e),
        }
    }

    fn decode_partial(data: &[u8]) -> (r: Result<(Self, usize)>) {
        decode_bytes_leb128(data, 0)
    }
}

/// What the error of `String::from_utf8` says of bytes that are no UTF-8.
pub uninterp spec fn spec_utf8_fault(data: Seq<u8>) -> Seq<char>;

/// `String::from_utf8`: text from bytes that are valid UTF-8. Others give an
/// error, of which the text is kept; it is a function of the bytes alone.
#[verifier::external_body]
pub(crate) fn utf8_text(data: Vec<u8>) -> (r: std::result::Result<String, String>)
    ensures
        match r {
            Ok(s) => vstd::utf8::valid_utf8(data@) && vstd::utf8::encode_utf8(s@) == data@,
            Err(t) => !vstd::utf8::valid_utf8(data@) && t@ == spec_utf8_fault(data@),
        },
{
    match String::from_utf8(data) {
        Ok(s) => Ok(s),
        Err(e) => Err(e.to_string()),
    }
}

impl CanonicalEncode for String {
    open spec fn spec_encode(&self) -> Seq<u8> {
        prefixed(vstd::utf8::encode_utf8(self@))
    }

    fn encode(&self) -> (r: Vec<u8>) {
        encode_bytes_leb128(self.as_str().as_bytes())
    }
}

impl CanonicalDecode for String {
    open spec fn denotes(data: Seq<u8>, v: Self) -> bool {
        prefixed_value(data, 0) == Some((vstd::utf8::encode_utf8(v@), data.len() as int))
    }

    open spec fn denotes_prefix(data: Seq<u8>, v: Self, used: nat) -> bool {
        prefixed_value(data, 0) == Some((vstd::utf8::encode_utf8(v@), used as int))
    }

    open spec fn decodable(data: Seq<u8>) -> bool {
        prefixed_value(data, 0) matches Some((s, end)) && end == data.len()
            && vstd::utf8::valid_utf8(s)
    }

    open spec fn decodable_prefix(data: Seq<u8>) -> bool {
        prefixed_value(data, 0) matches Some((s, _)) && vstd::utf8::valid_utf8(s)
    }

    open spec fn decode_fault(data: Seq<u8>) -> Fault {
        if Self::decodable_prefix(data) {
            error::malformed("text: trailing data"@)
        } else {
            Self::partial_fault(data)
        }
    }

    open spec fn partial_fault(data: Seq<u8>) -> Fault {
        match prefixed_value(data, 0) {
            Some((s, _)) => error::malformed("invalid UTF-8: "@ + spec_utf8_fault(s)),
            None => prefixed_fault(data, 0),
        }
    }

    fn decode(data: &[u8]) -> (r: Result<Self>) {
        match String::decode_partial(data) {
            Ok((s, end)) => {
                if end != data.len() {
                    return Err(CoreError::Serialization("text: trailing data".to_string()));
                }
                Ok(s)
            },
            Err(e) => Err(e),
        }
    }

    fn decode_partial(data: &[u8]) -> (r: Result<(Self, usize)>) {
        match decode_bytes_leb128(data, 0) {
            Ok((v, end)) => match utf8_text(v) {
                Ok(s) => Ok((s, end)),
                Err(t) => Err(CoreError::Serialization(joined("invalid UTF-8: ", t.as_str()))),
            },
            Err(e) => Err(e),
        }
    }
}

// ---------------------------------------------------------------------------
// Layout
// ---------------------------------------------------------------------------

proof fn lemma_leb_digit(v: nat, i: int)
    requires
        0 <= i < leb128(v).len(),
    ensures
        leb128(v)[i] as int % 128 == v as int / pow128(i as nat) as int % 128,
        leb128(v)[i] >= 128 <==> i < leb128(v).len() - 1,
        v < pow128(leb128(v).len()),
        leb128(v).len() > 1 ==> v >= pow128((leb128(v).len() - 1) as nat),
    decreases v,
{
    let s = leb128(v);
    assert(pow128(1) == 128) by {
        reveal_with_fuel(pow128, 2);
    }
    if v < 128 {
        assert(pow128(0) == 1);
        assert(v as int / 1 == v);
    } else {
        let t = leb128(v / 128);
        lemma_leb_digit(v / 128, 0);
        let p = pow128(t.len());
        assert(v < 128 * p) by (nonlinear_arith)
            requires
                v / 128 < p,
        ;
        if t.len() > 1 {
            let q = pow128((t.len() - 1) as nat);
            assert(v >= 128 * q) by (nonlinear_arith)
                requires
                    v / 128 >= q,
            ;
        }
        if i == 0 {
            assert(pow128(0) == 1);
            assert(v as int / 1 == v);
        } else {
            lemma_leb_digit(v / 128, i - 1);
            assert(s[i] == t[i - 1]);
            let q = pow128((i - 1) as nat) as int;
            lemma_pow128_monotone(0, (i - 1) as nat);
            assert(pow128(0) == 1);
            vstd::arithmetic::div_mod::lemma_div_denominator(v as int, 128, q);
        }
    }
}

proof fn lemma_pow128_is_a_power(n: nat)
    ensures
        pow128(n) == vstd::arithmetic::power::pow(128, n),
    decreases n,
{
    reveal(vstd::arithmetic::power::pow);
    if n > 0 {
        lemma_pow128_is_a_power((n - 1) as nat);
    }
}

/// In a LEB128 number byte `i` holds the digit of weight 128 to the power `i`,
/// every byte but the last is marked, and there is no byte too many.
pub proof fn leb128_holds_seven_bits_a_byte(v: nat, i: int)
    requires
        0 <= i < leb128(v).len(),
    ensures
        ({
            let s = leb128(v);
            &&& s[i] as int % 128 == v as int / vstd::arithmetic::power::pow(128, i as nat) % 128
            &&& s[i] >= 128 <==> i < s.len() - 1
            &&& v < vstd::arithmetic::power::pow(128, s.len())
            &&& s.len() > 1 ==> v >= vstd::arithmetic::power::pow(128, (s.len() - 1) as nat)
        }),
{
    lemma_leb_digit(v, i);
    lemma_pow128_is_a_power(i as nat);
    lemma_pow128_is_a_power(leb128(v).len());
    if leb128(v).len() > 1 {
        lemma_pow128_is_a_power((leb128(v).len() - 1) as nat);
    }
}

proof fn lemma_leb_end_found(data: Seq<u8>, at: int, taken: nat)
    requires
        0 <= at,
        taken <= 9,
    ensures
        match leb_end(data, at, taken) {
            LebEnd::At(end) => at < end <= data.len() && end - at <= 10 - taken && data[end - 1]
                < 128 && forall|i: int| at <= i < end - 1 ==> #[trigger] data[i] >= 128,
            LebEnd::Truncated => data.len() < at + 10 - taken && forall|i: int|
                at <= i < data.len() ==> #[trigger] data[i] >= 128,
            LebEnd::TooLong => data.len() >= at + 10 - taken && forall|i: int|
                at <= i < at + 10 - taken ==> #[trigger] data[i] >= 128,
        },
    decreases 10 - taken,
{
    if at < data.len() && data[at] >= 128 && taken < 9 {
        lemma_leb_end_found(data, at + 1, taken + 1);
    }
}

/// A LEB128 number is read up to its first unmarked byte, which comes within ten,
/// and is what the low seven bits of its bytes add up to, in 64 bits. Where no
/// unmarked byte comes, there is no number.
pub proof fn leb128_reads_to_the_first_unmarked_byte(data: Seq<u8>, at: int, end: int)
    requires
        0 <= at < end <= data.len(),
        forall|i: int| at <= i < end - 1 ==> #[trigger] data[i] >= 128,
    ensures
        data[end - 1] < 128 && end - at <= 10 ==> leb_value(data, at) == Some(
            ((leb_sum(data.subrange(at, end)) as int % 0x1_0000_0000_0000_0000) as nat, end),
        ),
        data[end - 1] >= 128 && (end == data.len() || end - at >= 10) ==> leb_value(data, at)
            is None,
{
    lemma_leb_end_found(data, at, 0);
    match leb_end(data, at, 0) {
        LebEnd::At(e) => {
            if data[end - 1] < 128 {
                if e < end {
                    assert(data[e - 1] >= 128);
                } else if e > end {
                    assert(data[end - 1] >= 128);
                }
            } else {
                if e <= end {
                    if e < end {
                        assert(data[e - 1] >= 128);
                    }
                }
            }
        },
        LebEnd::Truncated => {
            assert(data[end - 1] >= 128);
        },
        LebEnd::TooLong => {
            if end - at <= 10 {
                assert(data[end - 1] >= 128);
            }
        },
    }
}

/// Each byte adds its low seven bits to a LEB128 number, at the weight of its
/// place.
pub proof fn leb128_bytes_add_up(s: Seq<u8>, b: u8)
    ensures
        leb_sum(Seq::empty()) == 0,
        leb_sum(s.push(b)) == leb_sum(s) + vstd::arithmetic::power::pow(128, s.len()) * (b as int
            % 128),
{
    lemma_leb_sum_push(s, b);
    lemma_pow128_is_a_power(s.len());
}

/// Numbers are written in as many bytes as their type has, least significant
/// first; a truth value is one byte of one or zero.
pub proof fn numbers_are_little_endian(a: u8, b: u16, c: u32, d: u64, e: u128, t: bool, i: int)
    requires
        0 <= i,
    ensures
        a.spec_encode() == seq![a],
        b.spec_encode().len() == 2,
        c.spec_encode().len() == 4,
        d.spec_encode().len() == 8,
        e.spec_encode().len() == 16,
        t.spec_encode() == seq![if t { 1u8 } else { 0u8 }],
        ({
            let w = vstd::arithmetic::power::pow(256, i as nat);
            &&& i < 2 ==> b.spec_encode()[i] == b as int / w % 256
            &&& i < 4 ==> c.spec_encode()[i] == c as int / w % 256
            &&& i < 8 ==> d.spec_encode()[i] == d as int / w % 256
            &&& i < 16 ==> e.spec_encode()[i] == e as int / w % 256
        }),
{
    bytes::lemma_le_bytes_len(b as nat, 2);
    bytes::lemma_le_bytes_len(c as nat, 4);
    bytes::lemma_le_bytes_len(d as nat, 8);
    bytes::lemma_le_bytes_len(e as nat, 16);
    if i < 2 {
        bytes::bytes_are_digits(b as nat, 2, i);
    }
    if i < 4 {
        bytes::bytes_are_digits(c as nat, 4, i);
    }
    if i < 8 {
        bytes::bytes_are_digits(d as nat, 8, i);
    }
    if i < 16 {
        bytes::bytes_are_digits(e as nat, 16, i);
    }
}

/// What is read as a number is exactly what it would have been written as.
pub proof fn reading_is_the_inverse_of_writing(
    data: Seq<u8>,
    a: u8,
    b: u16,
    c: u32,
    d: u64,
    e: u128,
    t: bool,
)
    ensures
        u8::denotes(data, a) <==> data == a.spec_encode(),
        u16::denotes(data, b) <==> data == b.spec_encode(),
        u32::denotes(data, c) <==> data == c.spec_encode(),
        u64::denotes(data, d) <==> data == d.spec_encode(),
        u128::denotes(data, e) <==> data == e.spec_encode(),
        bool::denotes(data, t) <==> data == t.spec_encode(),
        u8::decodable(data) <==> data.len() == 1,
        u16::decodable(data) <==> data.len() == 2,
        u32::decodable(data) <==> data.len() == 4,
        u64::decodable(data) <==> data.len() == 8,
        u128::decodable(data) <==> data.len() == 16,
        bool::decodable(data) <==> data.len() == 1 && data[0] <= 1,
        u8::decodable_prefix(data) <==> data.len() >= 1,
        u16::decodable_prefix(data) <==> data.len() >= 2,
        u32::decodable_prefix(data) <==> data.len() >= 4,
        u64::decodable_prefix(data) <==> data.len() >= 8,
        u128::decodable_prefix(data) <==> data.len() >= 16,
        bool::decodable_prefix(data) <==> data.len() >= 1 && data[0] <= 1,
{
}

/// Bytes with a length in front are cut out right behind that length, and only
/// where all of them are there.
pub proof fn prefixed_bytes_follow_their_length(data: Seq<u8>, at: int, len: nat, pos: int)
    requires
        leb_value(data, at) == Some((len, pos)),
    ensures
        pos + len <= data.len() ==> prefixed_value(data, at) == Some(
            (data.subrange(pos, pos + len), pos + len),
        ),
        pos + len > data.len() ==> prefixed_value(data, at) is None,
{
}

pub proof fn lemma_leb_value_in(data: Seq<u8>, at: int)
    requires
        0 <= at,
    ensures
        leb_value(data, at) matches Some((n, pos)) ==> at < pos <= data.len(),
{
    lemma_leb_end_found(data, at, 0);
}

/// Bytes are written behind their length, and text as the bytes of its UTF-8 form.
pub proof fn lengths_come_first(v: Vec<u8>, s: String)
    ensures
        v.spec_encode() == leb128(v@.len()) + v@,
        s.spec_encode() == leb128(vstd::utf8::encode_utf8(s@).len()) + vstd::utf8::encode_utf8(s@),
{
}

} // verus!
