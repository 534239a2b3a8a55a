//! Core protocol types.

use vstd::prelude::*;
use crate::bytes;
use crate::error::{CoreError, ErrorKind, Fault, Result};
use crate::hash::Hash160;
use crate::serialize::{CanonicalDecode, CanonicalEncode};
use crate::text;
use crate::u256::U256;

verus! {

/// Block height.
#[derive(Clone, Copy, PartialEq, Eq, Structural, Hash, PartialOrd, Ord, Debug, Default)]
pub struct BlockHeight(pub u32);

/// Amount in the smallest units, of which one CHR has a million.
#[derive(Clone, Copy, PartialEq, Eq, Structural, Hash, PartialOrd, Ord, Debug, Default)]
pub struct Amount(pub u64);

/// Transaction nonce, for replay protection and ordering.
#[derive(Clone, Copy, PartialEq, Eq, Structural, Hash, PartialOrd, Ord, Debug, Default)]
pub struct Nonce(pub u64);

/// Network identifier, which prevents replay from one network on another.
#[derive(Clone, Copy, PartialEq, Eq, Structural, Hash, Debug)]
pub enum NetworkId {
    Devnet,
    Testnet,
    Mainnet,
    /// Local regression-test network: trivial proof of work and no difficulty
    /// retargeting, so a single node can produce blocks on demand.
    Regtest,
    Unknown,
}

/// An account's address: RIPEMD160(SHA256(public key)).
#[derive(Clone, Copy, Eq, Hash, PartialOrd, Ord, Debug)]
pub struct Address(pub Hash160);

/// Compact target: a one-byte exponent and a three-byte mantissa, standing for
/// mantissa * 256^(exponent - 3).
#[derive(Clone, Copy, PartialEq, Eq, Structural, Hash, Debug, Default)]
pub struct CompactTarget(pub u32);

/// Difficulty as a ratio to the difficulty-one target.
#[derive(Clone, Copy, PartialEq, Eq, Structural, PartialOrd, Ord, Hash, Debug, Default)]
pub struct Difficulty(pub u64);

impl BlockHeight {
    pub fn genesis() -> (r: BlockHeight)
        ensures
            r.0 == 0,
    {
        BlockHeight(0)
    }

    pub fn new(h: u32) -> (r: BlockHeight)
        ensures
            r.0 == h,
    {
        BlockHeight(h)
    }

    pub fn checked_add(self, other: u32) -> (r: Option<BlockHeight>)
        ensures
            match r {
                Some(h) => h.0 == self.0 + other,
                None => self.0 + other > u32::MAX,
            },
    {
        match self.0.checked_add(other) {
            Some(h) => Some(BlockHeight(h)),
            None => None,
        }
    }

    pub fn saturating_sub(self, other: BlockHeight) -> (r: BlockHeight)
        ensures
            r.0 == if self.0 >= other.0 {
                self.0 - other.0
            } else {
                0
            },
    {
        BlockHeight(self.0.saturating_sub(other.0))
    }
}

impl Amount {
    pub fn zero() -> (r: Amount)
        ensures
            r.0 == 0,
    {
        Amount(0)
    }

    /// All the units there can ever be.
    pub fn max_supply() -> (r: Amount)
        ensures
            r.0 == 100_000_000_000_000,
    {
        Amount(100_000_000_000_000)
    }

    /// What a block pays its miner.
    pub fn block_reward() -> (r: Amount)
        ensures
            r.0 == 1_000_000,
    {
        Amount(1_000_000)
    }

    pub fn new(units: u64) -> (r: Amount)
        ensures
            r.0 == units,
    {
        Amount(units)
    }

    pub fn checked_add(self, other: Amount) -> (r: Option<Amount>)
        ensures
            match r {
                Some(a) => a.0 == self.0 + other.0,
                None => self.0 + other.0 > u64::MAX,
            },
    {
        match self.0.checked_add(other.0) {
            Some(a) => Some(Amount(a)),
            None => None,
        }
    }

    pub fn checked_sub(self, other: Amount) -> (r: Option<Amount>)
        ensures
            match r {
                Some(a) => a.0 == self.0 - other.0,
                None => self.0 < other.0,
            },
    {
        match self.0.checked_sub(other.0) {
            Some(a) => Some(Amount(a)),
            None => None,
        }
    }

    pub fn saturating_add(self, other: Amount) -> (r: Amount)
        ensures
            r.0 == if self.0 + other.0 > u64::MAX {
                u64::MAX as int
            } else {
                self.0 + other.0
            },
    {
        Amount(self.0.saturating_add(other.0))
    }

    pub fn saturating_sub(self, other: Amount) -> (r: Amount)
        ensures
            r.0 == if self.0 >= other.0 {
                self.0 - other.0
            } else {
                0
            },
    {
        Amount(self.0.saturating_sub(other.0))
    }
}

impl Nonce {
    pub fn zero() -> (r: Nonce)
        ensures
            r.0 == 0,
    {
        Nonce(0)
    }

    pub fn new(n: u64) -> (r: Nonce)
        ensures
            r.0 == n,
    {
        Nonce(n)
    }

    /// The nonce after this one, if there is one.
    pub fn next(self) -> (r: Option<Nonce>)
        ensures
            match r {
                Some(n) => n.0 == self.0 + 1,
                None => self.0 == u64::MAX,
            },
    {
        match self.0.checked_add(1) {
            Some(n) => Some(Nonce(n)),
            None => None,
        }
    }
}

/// The name a network goes by.
pub open spec fn network_name(n: NetworkId) -> Seq<char> {
    match n {
        NetworkId::Devnet => "chroma-devnet"@,
        NetworkId::Testnet => "chroma-testnet"@,
        NetworkId::Mainnet => "chroma-mainnet"@,
        NetworkId::Regtest => "chroma-regtest"@,
        NetworkId::Unknown => "unknown"@,
    }
}

/// The byte a network goes by.
pub open spec fn network_byte(n: NetworkId) -> u8 {
    match n {
        NetworkId::Devnet => 0,
        NetworkId::Testnet => 1,
        NetworkId::Mainnet => 2,
        NetworkId::Regtest => 3,
        NetworkId::Unknown => 255,
    }
}

impl NetworkId {
    pub fn as_str(&self) -> (r: &'static str)
        ensures
            r@ == network_name(*self),
    {
        match self {
            NetworkId::Devnet => "chroma-devnet",
            NetworkId::Testnet => "chroma-testnet",
            NetworkId::Mainnet => "chroma-mainnet",
            NetworkId::Regtest => "chroma-regtest",
            NetworkId::Unknown => "unknown",
        }
    }
}

impl Default for NetworkId {
    fn default() -> (r: Self)
        ensures
            r == NetworkId::Devnet,
    {
        NetworkId::Devnet
    }
}

impl CanonicalEncode for NetworkId {
    open spec fn spec_encode(&self) -> Seq<u8> {
        seq![network_byte(*self)]
    }

    fn encode(&self) -> (r: Vec<u8>) {
        let b: u8 = match self {
            NetworkId::Devnet => 0,
            NetworkId::Testnet => 1,
            NetworkId::Mainnet => 2,
            NetworkId::Regtest => 3,
            NetworkId::Unknown => 255,
        };
        let mut r: Vec<u8> = Vec::new();
        r.push(b);
        assert(r@ =~= self.spec_encode());
        r
    }
}

impl CanonicalDecode for NetworkId {
    open spec fn denotes(data: Seq<u8>, v: Self) -> bool {
        data == v.spec_encode()
    }

    open spec fn denotes_prefix(data: Seq<u8>, v: Self, used: nat) -> bool {
        used == 1 && data[0] == network_byte(v)
    }

    open spec fn decodable(data: Seq<u8>) -> bool {
        data.len() == 1 && (data[0] <= 3 || data[0] == 255)
    }

    open spec fn decodable_prefix(data: Seq<u8>) -> bool {
        data.len() >= 1 && (data[0] <= 3 || data[0] == 255)
    }

    open spec fn decode_fault(data: Seq<u8>) -> Fault {
        if data.len() != 1 {
            ErrorKind::InvalidNetworkId.because("expected 1 byte"@)
        } else {
            Self::partial_fault(data)
        }
    }

    open spec fn partial_fault(data: Seq<u8>) -> Fault {
        if data.len() == 0 {
            ErrorKind::InvalidNetworkId.because("expected 1 byte"@)
        } else {
            ErrorKind::InvalidNetworkId.because(
                "unknown network ID: "@ + text::decimal(data[0] as nat),
            )
        }
    }

    fn decode(data: &[u8]) -> (r: Result<Self>) {
        if data.len() != 1 {
            return Err(CoreError::InvalidNetworkId("expected 1 byte".to_string()));
        }
        match NetworkId::decode_partial(data) {
            Ok((n, _)) => {
                assert(data@ =~= n.spec_encode());
                Ok(n)
            },
            Err(e) => Err(e),
        }
    }

    fn decode_partial(data: &[u8]) -> (r: Result<(Self, usize)>) {
        if data.len() == 0 {
            return Err(CoreError::InvalidNetworkId("expected 1 byte".to_string()));
        }
        match data[0] {
            0 => Ok((NetworkId::Devnet, 1)),
            1 => Ok((NetworkId::Testnet, 1)),
            2 => Ok((NetworkId::Mainnet, 1)),
            3 => Ok((NetworkId::Regtest, 1)),
            255 => Ok((NetworkId::Unknown, 1)),
            _ => Err(
                CoreError::InvalidNetworkId(text::phrase1("unknown network ID: ", data[0] as u64)),
            ),
        }
    }
}

impl PartialEq for Address {
    fn eq(&self, other: &Self) -> (r: bool) {
        self.0 == other.0
    }
}

impl vstd::std_specs::cmp::PartialEqSpecImpl for Address {
    open spec fn obeys_eq_spec() -> bool {
        true
    }

    open spec fn eq_spec(&self, other: &Self) -> bool {
        *self == *other
    }
}

impl Default for Address {
    fn default() -> (r: Self)
        ensures
            r.0.0@ == bytes::zeros(20),
    {
        Address::zero()
    }
}

impl From<Hash160> for Address {
    fn from(h: Hash160) -> (r: Self) {
        Address(h)
    }
}

impl vstd::std_specs::convert::FromSpecImpl<Hash160> for Address {
    open spec fn obeys_from_spec() -> bool {
        true
    }

    open spec fn from_spec(h: Hash160) -> Self {
        Address(h)
    }
}

impl Address {
    pub fn zero() -> (r: Address)
        ensures
            r.0.0@ == bytes::zeros(20),
    {
        Address(Hash160::zero())
    }

    pub fn from_hash160(h: Hash160) -> (r: Address)
        ensures
            r.0 == h,
    {
        Address(h)
    }

    pub fn as_hash160(&self) -> (r: Hash160)
        ensures
            r == self.0,
    {
        self.0
    }

    /// The address as hexadecimal with the usual prefix.
    pub fn to_text(&self) -> (s: String)
        ensures
            s@ == "0x"@ + text::hex_text(self.0.0@),
    {
        let h = self.0.to_hex();
        crate::error::joined("0x", h.as_str())
    }
}

impl CanonicalEncode for Address {
    open spec fn spec_encode(&self) -> Seq<u8> {
        self.0.0@
    }

    fn encode(&self) -> (r: Vec<u8>) {
        let mut r: Vec<u8> = Vec::new();
        bytes::push_bytes(&mut r, &self.0.0);
        assert(r@ =~= self.0.0@);
        r
    }
}

impl CanonicalDecode for Address {
    open spec fn denotes(data: Seq<u8>, v: Self) -> bool {
        data == v.spec_encode()
    }

    open spec fn denotes_prefix(data: Seq<u8>, v: Self, used: nat) -> bool {
        used == 20 && data.subrange(0, 20) == v.spec_encode()
    }

    open spec fn decodable(data: Seq<u8>) -> bool {
        data.len() == 20
    }

    open spec fn decodable_prefix(data: Seq<u8>) -> bool {
        data.len() >= 20
    }

    open spec fn decode_fault(data: Seq<u8>) -> Fault {
        ErrorKind::InvalidFormat.because("address must be 20 bytes"@)
    }

    open spec fn partial_fault(data: Seq<u8>) -> Fault {
        ErrorKind::InvalidFormat.because("address must be 20 bytes"@)
    }

    fn decode(data: &[u8]) -> (r: Result<Self>) {
        if data.len() != 20 {
            return Err(CoreError::InvalidFormat("address must be 20 bytes".to_string()));
        }
        assert(data@.subrange(0, 20) =~= data@);
        Ok(Address(Hash160(bytes::take_array::<20>(data, 0))))
    }

    fn decode_partial(data: &[u8]) -> (r: Result<(Self, usize)>) {
        if data.len() < 20 {
            return Err(CoreError::InvalidFormat("address must be 20 bytes".to_string()));
        }
        Ok((Address(Hash160(bytes::take_array::<20>(data, 0))), 20))
    }
}

impl From<u32> for BlockHeight {
    fn from(v: u32) -> (r: Self) {
        BlockHeight(v)
    }
}

impl vstd::std_specs::convert::FromSpecImpl<u32> for BlockHeight {
    open spec fn obeys_from_spec() -> bool {
        true
    }

    open spec fn from_spec(v: u32) -> Self {
        BlockHeight(v)
    }
}

impl CanonicalEncode for BlockHeight {
    open spec fn spec_encode(&self) -> Seq<u8> {
        self.0.spec_encode()
    }

    fn encode(&self) -> (r: Vec<u8>) {
        self.0.encode()
    }
}

impl CanonicalDecode for BlockHeight {
    open spec fn denotes(data: Seq<u8>, v: Self) -> bool {
        data == v.spec_encode()
    }

    open spec fn denotes_prefix(data: Seq<u8>, v: Self, used: nat) -> bool {
        used == 4 && data.subrange(0, 4) == v.spec_encode()
    }

    open spec fn decodable(data: Seq<u8>) -> bool {
        data.len() == 4
    }

    open spec fn decodable_prefix(data: Seq<u8>) -> bool {
        data.len() >= 4
    }

    open spec fn decode_fault(data: Seq<u8>) -> Fault {
        u32::decode_fault(data)
    }

    open spec fn partial_fault(data: Seq<u8>) -> Fault {
        u32::partial_fault(data)
    }

    fn decode(data: &[u8]) -> (r: Result<Self>) {
        match u32::decode(data) {
            Ok(v) => Ok(BlockHeight(v)),
            Err(e) => Err(e),
        }
    }

    fn decode_partial(data: &[u8]) -> (r: Result<(Self, usize)>) {
        match u32::decode_partial(data) {
            Ok((v, n)) => Ok((BlockHeight(v), n)),
            Err(e) => Err(e),
        }
    }
}

impl From<u64> for Amount {
    fn from(v: u64) -> (r: Self) {
        Amount(v)
    }
}

impl vstd::std_specs::convert::FromSpecImpl<u64> for Amount {
    open spec fn obeys_from_spec() -> bool {
        true
    }

    open spec fn from_spec(v: u64) -> Self {
        Amount(v)
    }
}

impl CanonicalEncode for Amount {
    open spec fn spec_encode(&self) -> Seq<u8> {
        self.0.spec_encode()
    }

    fn encode(&self) -> (r: Vec<u8>) {
        self.0.encode()
    }
}

impl CanonicalDecode for Amount {
    open spec fn denotes(data: Seq<u8>, v: Self) -> bool {
        data == v.spec_encode()
    }

    open spec fn denotes_prefix(data: Seq<u8>, v: Self, used: nat) -> bool {
        used == 8 && data.subrange(0, 8) == v.spec_encode()
    }

    open spec fn decodable(data: Seq<u8>) -> bool {
        data.len() == 8
    }

    open spec fn decodable_prefix(data: Seq<u8>) -> bool {
        data.len() >= 8
    }

    open spec fn decode_fault(data: Seq<u8>) -> Fault {
        u64::decode_fault(data)
    }

    open spec fn partial_fault(data: Seq<u8>) -> Fault {
        u64::partial_fault(data)
    }

    fn decode(data: &[u8]) -> (r: Result<Self>) {
        match u64::decode(data) {
            Ok(v) => Ok(Amount(v)),
            Err(e) => Err(e),
        }
    }

    fn decode_partial(data: &[u8]) -> (r: Result<(Self, usize)>) {
        match u64::decode_partial(data) {
            Ok((v, n)) => Ok((Amount(v), n)),
            Err(e) => Err(e),
        }
    }
}

impl From<u64> for Nonce {
    fn from(v: u64) -> (r: Self) {
        Nonce(v)
    }
}

impl vstd::std_specs::convert::FromSpecImpl<u64> for Nonce {
    open spec fn obeys_from_spec() -> bool {
        true
    }

    open spec fn from_spec(v: u64) -> Self {
        Nonce(v)
    }
}

impl CanonicalEncode for Nonce {
    open spec fn spec_encode(&self) -> Seq<u8> {
        self.0.spec_encode()
    }

    fn encode(&self) -> (r: Vec<u8>) {
        self.0.encode()
    }
}

impl CanonicalDecode for Nonce {
    open spec fn denotes(data: Seq<u8>, v: Self) -> bool {
        data == v.spec_encode()
    }

    open spec fn denotes_prefix(data: Seq<u8>, v: Self, used: nat) -> bool {
        used == 8 && data.subrange(0, 8) == v.spec_encode()
    }

    open spec fn decodable(data: Seq<u8>) -> bool {
        data.len() == 8
    }

    open spec fn decodable_prefix(data: Seq<u8>) -> bool {
        data.len() >= 8
    }

    open spec fn decode_fault(data: Seq<u8>) -> Fault {
        u64::decode_fault(data)
    }

    open spec fn partial_fault(data: Seq<u8>) -> Fault {
        u64::partial_fault(data)
    }

    fn decode(data: &[u8]) -> (r: Result<Self>) {
        match u64::decode(data) {
            Ok(v) => Ok(Nonce(v)),
            Err(e) => Err(e),
        }
    }

    fn decode_partial(data: &[u8]) -> (r: Result<(Self, usize)>) {
        match u64::decode_partial(data) {
            Ok((v, n)) => Ok((Nonce(v), n)),
            Err(e) => Err(e),
        }
    }
}

impl CanonicalEncode for CompactTarget {
    open spec fn spec_encode(&self) -> Seq<u8> {
        self.0.spec_encode()
    }

    fn encode(&self) -> (r: Vec<u8>) {
        self.0.encode()
    }
}

impl CanonicalDecode for CompactTarget {
    open spec fn denotes(data: Seq<u8>, v: Self) -> bool {
        data == v.spec_encode()
    }

    open spec fn denotes_prefix(data: Seq<u8>, v: Self, used: nat) -> bool {
        used == 4 && data.subrange(0, 4) == v.spec_encode()
    }

    open spec fn decodable(data: Seq<u8>) -> bool {
        data.len() == 4
    }

    open spec fn decodable_prefix(data: Seq<u8>) -> bool {
        data.len() >= 4
    }

    open spec fn decode_fault(data: Seq<u8>) -> Fault {
        u32::decode_fault(data)
    }

    open spec fn partial_fault(data: Seq<u8>) -> Fault {
        u32::partial_fault(data)
    }

    fn decode(data: &[u8]) -> (r: Result<Self>) {
        match u32::decode(data) {
            Ok(v) => Ok(CompactTarget(v)),
            Err(e) => Err(e),
        }
    }

    fn decode_partial(data: &[u8]) -> (r: Result<(Self, usize)>) {
        match u32::decode_partial(data) {
            Ok((v, n)) => Ok((CompactTarget(v), n)),
            Err(e) => Err(e),
        }
    }
}

// ---------------------------------------------------------------------------
// Compact target
// ---------------------------------------------------------------------------

/// The target that compact bits stand for: mantissa * 256^(exponent - 3),
/// rounded down, and the largest target for an exponent past the top.
pub open spec fn compact_value(bits: u32) -> nat {
    let exponent = (bits / 0x100_0000) as nat;
    let mantissa = (bits % 0x100_0000) as nat;
    if exponent <= 3 {
        mantissa / bytes::pow256((3 - exponent) as nat)
    } else if exponent <= 32 {
        mantissa * bytes::pow256((exponent - 3) as nat)
    } else {
        (bytes::pow256(32) - 1) as nat
    }
}

/// How many bytes a number takes.
pub open spec fn byte_len(v: nat) -> nat
    decreases v,
{
    if v == 0 {
        0
    } else {
        1 + byte_len(v / 256)
    }
}

/// The top three bytes of a number that takes `n` bytes.
pub open spec fn top_bytes(v: nat, n: nat) -> nat {
    if n >= 3 {
        v / bytes::pow256((n - 3) as nat)
    } else {
        v * bytes::pow256((3 - n) as nat)
    }
}

/// The compact form of a target: its size in bytes and its top three bytes,
/// one byte fewer when the first has its high bit set.
pub open spec fn compact_of(v: nat) -> u32 {
    let n = byte_len(v);
    let m = top_bytes(v, n);
    if v == 0 {
        0
    } else if m >= 0x80_0000 {
        ((n + 1) * 0x100_0000 + m / 256) as u32
    } else {
        (n * 0x100_0000 + m) as u32
    }
}

proof fn lemma_byte_len(v: nat, n: nat)
    requires
        v < bytes::pow256(n),
        n > 0 ==> v >= bytes::pow256((n - 1) as nat),
    ensures
        byte_len(v) == n,
    decreases n,
{
    if n > 0 {
        let m = (n - 1) as nat;
        bytes::lemma_pow256_pos(m);
        assert(v / 256 < bytes::pow256(m)) by (nonlinear_arith)
            requires
                v < 256 * bytes::pow256(m),
        ;
        if m > 0 {
            assert(v / 256 >= bytes::pow256((m - 1) as nat)) by (nonlinear_arith)
                requires
                    v >= 256 * bytes::pow256((m - 1) as nat),
            ;
        }
        lemma_byte_len(v / 256, m);
    }
}

proof fn lemma_byte_len_bounds(v: nat)
    ensures
        v < bytes::pow256(byte_len(v)),
        v > 0 ==> byte_len(v) > 0 && v >= bytes::pow256((byte_len(v) - 1) as nat),
    decreases v,
{
    if v > 0 {
        lemma_byte_len_bounds(v / 256);
        let n = byte_len(v / 256);
        assert(v < 256 * bytes::pow256(n)) by (nonlinear_arith)
            requires
                v / 256 < bytes::pow256(n),
        ;
        if v / 256 > 0 {
            let p = bytes::pow256((n - 1) as nat);
            assert(v >= 256 * p) by (nonlinear_arith)
                requires
                    v / 256 >= p,
            ;
        }
    }
}

/// Three bytes somewhere in a row of zeros.
proof fn lemma_three_bytes(s: Seq<u8>, at: int)
    requires
        0 <= at,
        at + 3 <= s.len(),
        forall|i: int| 0 <= i < s.len() && !(at <= i < at + 3) ==> s[i] == 0,
    ensures
        bytes::be_value(s) == (s[at] * 0x1_0000 + s[at + 1] * 0x100 + s[at + 2])
            * bytes::pow256((s.len() - at - 3) as nat),
{
    let n = s.len() as int;
    let head = s.subrange(0, at);
    let mid = s.subrange(at, at + 3);
    let tail = s.subrange(at + 3, n);
    assert(head =~= bytes::zeros(at as nat));
    assert(tail =~= bytes::zeros((n - at - 3) as nat));
    bytes::lemma_be_value_zeros(at as nat);
    bytes::lemma_be_value_zeros((n - at - 3) as nat);
    bytes::lemma_be_value_concat(head, mid);
    bytes::lemma_be_value_concat(head + mid, tail);
    assert(s =~= head + mid + tail);
    lemma_be_three(mid);
    assert(0 * bytes::pow256(3) == 0);
}

proof fn lemma_be_three(s: Seq<u8>)
    requires
        s.len() == 3,
    ensures
        bytes::be_value(s) == s[0] * 0x1_0000 + s[1] * 0x100 + s[2],
{
    reveal_with_fuel(bytes::be_value, 4);
    assert(s.subrange(0, 2).subrange(0, 1) =~= s.subrange(0, 1));
    assert(s.subrange(0, 1).subrange(0, 0) =~= Seq::<u8>::empty());
}

impl CompactTarget {
    /// The target of difficulty one.
    pub fn difficulty_1() -> (r: CompactTarget)
        ensures
            r.0 == 0x1d00ffff,
    {
        CompactTarget(0x1d00ffff)
    }

    /// Convert to a full 256-bit target, big-endian.
    pub fn to_full_target(&self) -> (r: [u8; 32])
        ensures
            bytes::be_value(r@) == compact_value(self.0),
    {
        let exponent: u32 = self.0 / 0x100_0000;
        let mantissa: u32 = self.0 % 0x100_0000;
        let mut r: [u8; 32] = [0u8; 32];
        proof {
            bytes::lemma_pow256_values();
        }
        if exponent <= 3 {
            let val: u32 = if exponent == 3 {
                mantissa
            } else if exponent == 2 {
                mantissa / 0x100
            } else if exponent == 1 {
                mantissa / 0x1_0000
            } else {
                mantissa / 0x100_0000
            };
            r[29] = (val / 0x1_0000) as u8;
            r[30] = (val / 0x100 % 0x100) as u8;
            r[31] = (val % 0x100) as u8;
            proof {
                lemma_three_bytes(r@, 29);
                assert(val * 1 == val);
                if exponent == 3 {
                    assert(mantissa as nat / 1 == mantissa as nat);
                }
            }
            return r;
        }
        if exponent > 32 {
            let m = U256::max_value();
            return m.to_be_bytes();
        }
        let start: usize = 32 - exponent as usize;
        r[start] = (mantissa / 0x1_0000) as u8;
        r[start + 1] = (mantissa / 0x100 % 0x100) as u8;
        r[start + 2] = (mantissa % 0x100) as u8;
        proof {
            lemma_three_bytes(r@, start as int);
        }
        r
    }

    /// Convert from a 256-bit big-endian target.
    pub fn from_full_target(target: &[u8; 32]) -> (r: CompactTarget)
        ensures
            r.0 == compact_of(bytes::be_value(target@)),
    {
        let mut first: usize = 0;
        while first < 32 && target[first] == 0
            invariant
                first <= 32,
                forall|i: int| 0 <= i < first ==> target@[i] == 0,
            decreases 32 - first,
        {
            first = first + 1;
        }
        let ghost s = target@;
        let ghost v = bytes::be_value(s);
        if first == 32 {
            proof {
                assert(s =~= bytes::zeros(32));
                bytes::lemma_be_value_zeros(32);
            }
            return CompactTarget(0);
        }
        let n: usize = 32 - first;
        proof {
            lemma_leading(s, first as int);
        }
        let b0: u32 = target[first] as u32;
        let b1: u32 = if first + 1 < 32 { target[first + 1] as u32 } else { 0 };
        let b2: u32 = if first + 2 < 32 { target[first + 2] as u32 } else { 0 };
        let mantissa: u32 = b0 * 0x1_0000 + b1 * 0x100 + b2;
        proof {
            lemma_top_three(s, first as int, mantissa as nat);
        }
        if mantissa >= 0x80_0000 {
            CompactTarget((n as u32 + 1) * 0x100_0000 + mantissa / 256)
        } else {
            CompactTarget(n as u32 * 0x100_0000 + mantissa)
        }
    }
}

/// A number whose first `first` bytes are zero and the next is not.
proof fn lemma_leading(s: Seq<u8>, first: int)
    requires
        0 <= first < s.len(),
        forall|i: int| 0 <= i < first ==> s[i] == 0,
        s[first] != 0,
    ensures
        byte_len(bytes::be_value(s)) == s.len() - first,
        bytes::be_value(s) == bytes::be_value(s.subrange(first, s.len() as int)),
        bytes::be_value(s) > 0,
{
    let n = s.len() as int;
    let rest = s.subrange(first, n);
    assert(s =~= bytes::zeros(first as nat) + rest);
    bytes::lemma_be_value_zeros(first as nat);
    bytes::lemma_be_value_concat(bytes::zeros(first as nat), rest);
    assert(0 * bytes::pow256(rest.len()) == 0);
    bytes::lemma_be_value_bound(rest);
    let head = rest.subrange(0, 1);
    let tail = rest.subrange(1, rest.len() as int);
    assert(rest =~= head + tail);
    bytes::lemma_be_value_concat(head, tail);
    assert(head.subrange(0, 0) =~= Seq::<u8>::empty());
    assert(bytes::be_value(head) == s[first]) by {
        reveal_with_fuel(bytes::be_value, 2);
    }
    let p = bytes::pow256(tail.len());
    bytes::lemma_pow256_pos(tail.len());
    assert(bytes::be_value(head) * p >= p) by (nonlinear_arith)
        requires
            bytes::be_value(head) >= 1,
            p >= 0,
    ;
    lemma_byte_len(bytes::be_value(s), (n - first) as nat);
}

/// The bytes at and after the first that is not zero are the top of the number.
proof fn lemma_top_three(s: Seq<u8>, first: int, m: nat)
    requires
        s.len() == 32,
        0 <= first < 32,
        forall|i: int| 0 <= i < first ==> s[i] == 0,
        s[first] != 0,
        m == s[first] * 0x1_0000 + (if first + 1 < 32 {
            s[first + 1]
        } else {
            0
        }) * 0x100 + (if first + 2 < 32 {
            s[first + 2]
        } else {
            0
        }),
    ensures
        top_bytes(bytes::be_value(s), (32 - first) as nat) == m,
{
    lemma_leading(s, first);
    bytes::lemma_pow256_values();
    let rest = s.subrange(first, 32);
    let n = 32 - first;
    if n >= 3 {
        let mid = rest.subrange(0, 3);
        let tail = rest.subrange(3, n);
        assert(rest =~= mid + tail);
        bytes::lemma_be_value_concat(mid, tail);
        bytes::lemma_be_value_bound(tail);
        lemma_be_three(mid);
        let p = bytes::pow256((n - 3) as nat);
        bytes::lemma_pow256_pos((n - 3) as nat);
        assert(m * p == p * m) by (nonlinear_arith);
        vstd::arithmetic::div_mod::lemma_fundamental_div_mod_converse(
            bytes::be_value(s) as int,
            p as int,
            m as int,
            bytes::be_value(tail) as int,
        );
    } else if n == 2 {
        reveal_with_fuel(bytes::be_value, 3);
        assert(rest.subrange(0, 1).subrange(0, 0) =~= Seq::<u8>::empty());
        assert(bytes::be_value(rest) == s[first] * 256 + s[first + 1]);
        assert(top_bytes(bytes::be_value(s), 2) == bytes::be_value(s) * 0x100);
    } else {
        reveal_with_fuel(bytes::be_value, 2);
        assert(rest.subrange(0, 0) =~= Seq::<u8>::empty());
        assert(bytes::be_value(rest) == s[first]);
        assert(n == 1);
        assert(top_bytes(bytes::be_value(s), 1) == bytes::be_value(s) * 0x1_0000);
    }
}

/// Bits in normal form survive the trip through the full target and back.
pub proof fn compact_roundtrip(bits: u32)
    requires
        3 <= bits / 0x100_0000 <= 32,
        0x8000 <= bits % 0x100_0000 < 0x80_0000,
    ensures
        compact_of(compact_value(bits)) == bits,
{
    let exponent = (bits / 0x100_0000) as nat;
    let mantissa = (bits % 0x100_0000) as nat;
    let v = compact_value(bits);
    bytes::lemma_pow256_values();
    let p = bytes::pow256((exponent - 3) as nat);
    bytes::lemma_pow256_pos((exponent - 3) as nat);
    assert(v == mantissa * p) by {
        if exponent == 3 {
            assert(mantissa / 1 == mantissa);
            assert(mantissa * 1 == mantissa);
        }
    }
    assert(v > 0) by (nonlinear_arith)
        requires
            v == mantissa * p,
            mantissa > 0,
            p > 0,
    ;
    if mantissa >= 0x1_0000 {
        bytes::lemma_pow256_add(2, (exponent - 3) as nat);
        bytes::lemma_pow256_add(3, (exponent - 3) as nat);
        assert(v >= 0x1_0000 * p && v < 0x100_0000 * p) by (nonlinear_arith)
            requires
                v == mantissa * p,
                0x1_0000 <= mantissa < 0x100_0000,
                p > 0,
        ;
        lemma_byte_len(v, exponent);
        vstd::arithmetic::div_mod::lemma_div_multiples_vanish(mantissa as int, p as int);
        assert(p * mantissa == v) by (nonlinear_arith)
            requires
                v == mantissa * p,
        ;
    } else {
        bytes::lemma_pow256_add(1, (exponent - 3) as nat);
        bytes::lemma_pow256_add(2, (exponent - 3) as nat);
        assert(v >= 0x100 * p && v < 0x1_0000 * p) by (nonlinear_arith)
            requires
                v == mantissa * p,
                0x100 <= mantissa < 0x1_0000,
                p > 0,
        ;
        lemma_byte_len(v, (exponent - 1) as nat);
        if exponent == 3 {
            assert(v * 256 == mantissa * 256);
        } else {
            let q = bytes::pow256((exponent - 4) as nat);
            bytes::lemma_pow256_pos((exponent - 4) as nat);
            assert(p == 256 * q);
            assert(v == q * (mantissa * 256)) by (nonlinear_arith)
                requires
                    v == mantissa * (256 * q),
            ;
            vstd::arithmetic::div_mod::lemma_div_multiples_vanish(
                (mantissa * 256) as int,
                q as int,
            );
        }
        assert((mantissa * 256) / 256 == mantissa);
    }
}

/// Compacting a target below two to the power 255 never raises it, and lowers
/// it by less than one part in 32768.
#[verifier::spinoff_prover]
pub proof fn compact_rounds_down(v: nat)
    requires
        2 * v < bytes::pow256(32),
    ensures
        compact_value(compact_of(v)) <= v,
        v - compact_value(compact_of(v)) <= v / 0x8000,
{
    bytes::lemma_pow256_values();
    if v == 0 {
        assert(compact_value(0) == 0) by {
            assert(0nat / bytes::pow256(3) == 0);
        }
    } else {
        lemma_byte_len_bounds(v);
        let n = byte_len(v);
        let m = top_bytes(v, n);
        if n > 32 {
            bytes::lemma_pow256_monotone(32, (n - 1) as nat);
            assert(false);
        }
        if n >= 3 {
            let p = bytes::pow256((n - 3) as nat);
            bytes::lemma_pow256_pos((n - 3) as nat);
            bytes::lemma_pow256_add(2, (n - 3) as nat);
            bytes::lemma_pow256_add(3, (n - 3) as nat);
            vstd::arithmetic::div_mod::lemma_fundamental_div_mod(v as int, p as int);
            vstd::arithmetic::div_mod::lemma_mod_pos_bound(v as int, p as int);
            let r = v % p;
            assert(v == p * m + r);
            assert(m < 0x100_0000) by (nonlinear_arith)
                requires
                    p * m <= v,
                    v < 0x100_0000 * p,
                    p > 0,
            ;
            assert(m >= 0x1_0000) by (nonlinear_arith)
                requires
                    v == p * m + r,
                    r < p,
                    v >= 0x1_0000 * p,
                    p > 0,
            ;
            if m >= 0x80_0000 {
                if n == 32 {
                    assert(v >= 0x80_0000 * p) by (nonlinear_arith)
                        requires
                            v == p * m + r,
                            m >= 0x80_0000,
                            p > 0,
                            r >= 0,
                    ;
                    bytes::lemma_pow256_add(3, 29);
                    assert(false);
                }
                let c = ((n + 1) * 0x100_0000 + m / 256) as u32;
                assert(compact_of(v) == c);
                assert(c / 0x100_0000 == n + 1);
                assert(c % 0x100_0000 == m / 256);
                assert(bytes::pow256((n - 2) as nat) == 256 * p);
                let h = m / 256;
                let w = compact_value(c);
                assert(w == h * (256 * p)) by {
                    if n == 2 {
                        assert(false);
                    }
                }
                let low = m % 256;
                assert(v == w + (low * p + r)) by (nonlinear_arith)
                    requires
                        v == p * m + r,
                        m == 256 * h + low,
                        w == h * (256 * p),
                ;
                assert(low * p + r < 256 * p) by (nonlinear_arith)
                    requires
                        low <= 255,
                        r < p,
                        p > 0,
                ;
                assert(v >= 0x8000 * (256 * p)) by (nonlinear_arith)
                    requires
                        v == w + (low * p + r),
                        w == h * (256 * p),
                        h >= 0x8000,
                        p > 0,
                        low * p + r >= 0,
                ;
                assert(low * p + r >= 0) by (nonlinear_arith)
                    requires
                        low >= 0,
                        p > 0,
                        r >= 0,
                ;
            } else {
                let c = (n * 0x100_0000 + m) as u32;
                assert(compact_of(v) == c);
                assert(c / 0x100_0000 == n);
                assert(c % 0x100_0000 == m);
                let w = compact_value(c);
                assert(w == m * p) by {
                    if n == 3 {
                        assert(m / 1 == m);
                        assert(m * 1 == m);
                    }
                }
                assert(v == w + r) by (nonlinear_arith)
                    requires
                        v == p * m + r,
                        w == m * p,
                ;
                assert(v >= 0x1_0000 * p);
                assert(compact_value(compact_of(v)) <= v);
            }
        } else {
            bytes::lemma_pow256_monotone(n, 2);
            lemma_small_target(v);
        }
    }
}

/// What compacting leaves of a target of three or more bytes: its leading
/// digits, at least fifteen bits of them, and nothing below.
#[verifier::spinoff_prover]
proof fn lemma_leading_digits(v: nat) -> (r: (nat, nat))
    requires
        2 * v < bytes::pow256(32),
        v >= 0x1_0000,
    ensures
        r.0 >= 0x8000,
        r.1 <= 30,
        compact_value(compact_of(v)) == r.0 * bytes::pow256(r.1),
        r.0 * bytes::pow256(r.1) <= v < (r.0 + 1) * bytes::pow256(r.1),
{
    bytes::lemma_pow256_values();
    lemma_byte_len_bounds(v);
    let n = byte_len(v);
    let m = top_bytes(v, n);
    if n > 32 {
        bytes::lemma_pow256_monotone(32, (n - 1) as nat);
        assert(false);
    }
    if n < 3 {
        bytes::lemma_pow256_monotone(n, 2);
        assert(false);
    }
    let p = bytes::pow256((n - 3) as nat);
    bytes::lemma_pow256_pos((n - 3) as nat);
    bytes::lemma_pow256_add(2, (n - 3) as nat);
    bytes::lemma_pow256_add(3, (n - 3) as nat);
    vstd::arithmetic::div_mod::lemma_fundamental_div_mod(v as int, p as int);
    vstd::arithmetic::div_mod::lemma_mod_pos_bound(v as int, p as int);
    let r = v % p;
    assert(v == p * m + r);
    assert(m < 0x100_0000) by (nonlinear_arith)
        requires
            p * m <= v,
            v < 0x100_0000 * p,
            p > 0,
    ;
    assert(m >= 0x1_0000) by (nonlinear_arith)
        requires
            v == p * m + r,
            r < p,
            v >= 0x1_0000 * p,
            p > 0,
    ;
    if m >= 0x80_0000 {
        if n == 32 {
            assert(v >= 0x80_0000 * p) by (nonlinear_arith)
                requires
                    v == p * m + r,
                    m >= 0x80_0000,
                    p > 0,
                    r >= 0,
            ;
            bytes::lemma_pow256_add(3, 29);
            assert(false);
        }
        let c = ((n + 1) * 0x100_0000 + m / 256) as u32;
        assert(compact_of(v) == c);
        assert(c / 0x100_0000 == n + 1);
        assert(c % 0x100_0000 == m / 256);
        let q = bytes::pow256((n - 2) as nat);
        assert(q == 256 * p);
        let h = m / 256;
        let low = m % 256;
        assert(h * q <= v && v < (h + 1) * q) by (nonlinear_arith)
            requires
                v == p * m + r,
                m == 256 * h + low,
                q == 256 * p,
                low <= 255,
                0 <= r < p,
                p > 0,
        ;
        (h, (n - 2) as nat)
    } else {
        let c = (n * 0x100_0000 + m) as u32;
        assert(compact_of(v) == c);
        assert(c / 0x100_0000 == n);
        assert(c % 0x100_0000 == m);
        assert(compact_value(c) == m * p) by {
            if n == 3 {
                assert(m / 1 == m);
                assert(m * 1 == m);
            }
        }
        assert(m * p <= v && v < (m + 1) * p) by (nonlinear_arith)
            requires
                v == p * m + r,
                0 <= r < p,
        ;
        (m, (n - 3) as nat)
    }
}

/// Whether bits have a mantissa without its high bit, as compacting makes them.
pub open spec fn plain_bits(bits: u32) -> bool {
    bits % 0x100_0000 < 0x80_0000
}

/// Compacting a target below two to the power 255 is the best fit from below:
/// no bits with a plain mantissa stand for more without passing the target.
pub proof fn compact_fits_best(v: nat, bits: u32)
    requires
        2 * v < bytes::pow256(32),
        plain_bits(bits),
        compact_value(bits) <= v,
    ensures
        compact_value(bits) <= compact_value(compact_of(v)) <= v,
{
    compact_rounds_down(v);
    if v == 0 {
    } else if v < 0x1_0000 {
        lemma_small_target(v);
    } else {
        let (h, k) = lemma_leading_digits(v);
        let q = bytes::pow256(k);
        bytes::lemma_pow256_pos(k);
        bytes::lemma_pow256_values();
        let e = (bits / 0x100_0000) as nat;
        let w = (bits % 0x100_0000) as nat;
        let cv = compact_value(bits);
        assert(h * q >= 0x8000 * q) by (nonlinear_arith)
            requires
                h >= 0x8000,
                q > 0,
        ;
        if e > 32 {
            assert(false);
        } else if k == 0 {
            assert(h * 1 == h && (h + 1) * 1 == h + 1);
        } else if e >= k + 3 {
            // a multiple of the last place that compacting keeps
            let d = (e - 3 - k) as nat;
            bytes::lemma_pow256_add(d, k);
            let x = w * bytes::pow256(d);
            assert(w * (bytes::pow256(d) * q) == (w * bytes::pow256(d)) * q) by (nonlinear_arith);
            assert(cv == x * q);
            assert(x <= h) by (nonlinear_arith)
                requires
                    x * q < (h + 1) * q,
                    q > 0,
            ;
            assert(x * q <= h * q) by (nonlinear_arith)
                requires
                    x <= h,
                    q > 0,
            ;
        } else if e <= 3 {
            let z = bytes::pow256((3 - e) as nat);
            bytes::lemma_pow256_pos((3 - e) as nat);
            assert(w / z <= w) by (nonlinear_arith)
                requires
                    z > 0,
                    w >= 0,
            ;
            bytes::lemma_pow256_monotone(1, k);
            assert(0x8000 * q >= 0x80_0000);
        } else {
            let z = bytes::pow256((e - 3) as nat);
            bytes::lemma_pow256_monotone((e - 3) as nat, (k - 1) as nat);
            assert(w * z <= 0x8000 * q) by (nonlinear_arith)
                requires
                    w < 0x80_0000,
                    256 * z <= q,
                    z >= 0,
                    w >= 0,
            ;
        }
    }
}

/// A target of one or two bytes survives compacting unchanged.
#[verifier::spinoff_prover]
proof fn lemma_small_target(v: nat)
    requires
        0 < v < 0x1_0000,
    ensures
        compact_value(compact_of(v)) == v,
{
    bytes::lemma_pow256_values();
    vstd::arithmetic::div_mod::lemma_div_basics(v as int);
    if v >= 0x100 {
        lemma_byte_len(v, 2);
        let m = top_bytes(v, 2);
        assert(m == v * 256);
        if m >= 0x80_0000 {
            let c = (3 * 0x100_0000 + m / 256) as u32;
            assert(compact_of(v) == c);
            assert(c / 0x100_0000 == 3);
            assert(c % 0x100_0000 == m / 256);
            assert(compact_value(c) == v);
        } else {
            let c = (2 * 0x100_0000 + m) as u32;
            assert(compact_of(v) == c);
            assert(c / 0x100_0000 == 2);
            assert(c % 0x100_0000 == m);
            assert(compact_value(c) == m / 0x100);
        }
    } else {
        lemma_byte_len(v, 1);
        let m = top_bytes(v, 1);
        assert(m == v * 0x1_0000);
        if m >= 0x80_0000 {
            let c = (2 * 0x100_0000 + m / 256) as u32;
            assert(compact_of(v) == c);
            assert(c / 0x100_0000 == 2);
            assert(c % 0x100_0000 == m / 256);
            assert(compact_value(c) == (m / 256) / 0x100);
        } else {
            let c = (0x100_0000 + m) as u32;
            assert(compact_of(v) == c);
            assert(c / 0x100_0000 == 1);
            assert(c % 0x100_0000 == m);
            assert(compact_value(c) == m / 0x1_0000);
        }
    }
}

/// The difficulty of a target: the difficulty-one target over it, as far as a
/// machine integer goes.
pub open spec fn difficulty_of(bits: u32) -> nat {
    let target = compact_value(bits);
    if target == 0 || compact_value(0x1d00ffff) / target > u64::MAX {
        u64::MAX as nat
    } else {
        compact_value(0x1d00ffff) / target
    }
}

impl Difficulty {
    pub fn genesis() -> (r: Difficulty)
        ensures
            r.0 == 1,
    {
        Difficulty(1)
    }

    /// Compute difficulty from a compact target.
    pub fn from_bits(bits: CompactTarget) -> (r: Difficulty)
        ensures
            r.0 == difficulty_of(bits.0),
    {
        let current = U256::from_be_bytes(&bits.to_full_target());
        if current.is_zero() {
            return Difficulty(u64::MAX);
        }
        let one = U256::from_be_bytes(&CompactTarget::difficulty_1().to_full_target());
        match one.div(&current).to_u64() {
            Some(q) => Difficulty(q),
            None => Difficulty(u64::MAX),
        }
    }
}

/// What compact bits stand for: a mantissa of three bytes, moved so that the
/// whole has as many bytes as the exponent says; what falls below one byte is
/// lost, and an exponent past 32 stands for the largest target there is.
pub proof fn compact_bits_are_mantissa_and_exponent(exponent: nat, mantissa: nat)
    requires
        exponent < 256,
        mantissa < 0x100_0000,
    ensures
        ({
            let v = compact_value((exponent * 0x100_0000 + mantissa) as u32);
            &&& 3 <= exponent <= 32 ==> v == mantissa * bytes::pow256((exponent - 3) as nat)
            &&& exponent == 2 ==> v == mantissa / 0x100
            &&& exponent == 1 ==> v == mantissa / 0x1_0000
            &&& exponent == 0 ==> v == 0
            &&& exponent > 32 ==> v == bytes::pow256(32) - 1
        }),
{
    bytes::lemma_pow256_values();
    let bits = (exponent * 0x100_0000 + mantissa) as u32;
    assert(bits / 0x100_0000 == exponent);
    assert(bits % 0x100_0000 == mantissa);
    if exponent == 3 {
        assert(mantissa / 1 == mantissa);
        assert(mantissa * 1 == mantissa);
    }
    if exponent == 0 {
        assert(mantissa / 0x100_0000 == 0);
    }
}

/// Compacting gives bits with a plain mantissa.
pub proof fn compact_form_is_plain(v: nat)
    requires
        v < bytes::pow256(32),
    ensures
        plain_bits(compact_of(v)),
{
    bytes::lemma_pow256_values();
    if v > 0 {
        lemma_byte_len_bounds(v);
        let n = byte_len(v);
        let m = top_bytes(v, n);
        if n > 32 {
            bytes::lemma_pow256_monotone(32, (n - 1) as nat);
            assert(false);
        }
        assert(m < 0x100_0000) by {
            if n >= 3 {
                let p = bytes::pow256((n - 3) as nat);
                bytes::lemma_pow256_pos((n - 3) as nat);
                bytes::lemma_pow256_add(3, (n - 3) as nat);
                assert(v / p < 0x100_0000) by (nonlinear_arith)
                    requires
                        v < 0x100_0000 * p,
                        p > 0,
                ;
            } else if n == 2 {
                assert(m == v * bytes::pow256(1));
            } else {
                assert(m == v * bytes::pow256(2));
            }
        }
        if m >= 0x80_0000 {
            assert(((n + 1) * 0x100_0000 + m / 256) as u32 % 0x100_0000 == m / 256);
        } else {
            assert((n * 0x100_0000 + m) as u32 % 0x100_0000 == m);
        }
    }
}

/// The difficulty of a target is how many times it goes into that of difficulty
/// one, as far as a machine integer counts.
pub proof fn difficulty_is_a_quotient(bits: u32)
    ensures
        ({
            let target = compact_value(bits) as int;
            let one = compact_value(0x1d00ffff) as int;
            let d = difficulty_of(bits) as int;
            &&& target == 0 ==> d == u64::MAX
            &&& d <= u64::MAX
            &&& target > 0 ==> d * target <= one
            &&& target > 0 && d < u64::MAX ==> one < (d + 1) * target
        }),
{
    let target = compact_value(bits) as int;
    let one = compact_value(0x1d00ffff) as int;
    if target > 0 {
        vstd::arithmetic::div_mod::lemma_fundamental_div_mod(one, target);
        vstd::arithmetic::div_mod::lemma_mod_pos_bound(one, target);
        let q = one / target;
        assert(q * target <= one < (q + 1) * target) by (nonlinear_arith)
            requires
                one == target * q + one % target,
                0 <= one % target < target,
        ;
        if q > u64::MAX {
            assert(u64::MAX * target <= q * target) by (nonlinear_arith)
                requires
                    q > u64::MAX,
                    target > 0,
            ;
        }
    }
}

/// Each network has its own byte and its own name.
pub proof fn networks_are_told_apart(a: NetworkId, b: NetworkId)
    ensures
        network_byte(NetworkId::Devnet) == 0,
        network_byte(NetworkId::Testnet) == 1,
        network_byte(NetworkId::Mainnet) == 2,
        network_byte(NetworkId::Regtest) == 3,
        network_byte(NetworkId::Unknown) == 255,
        network_name(NetworkId::Devnet) == "chroma-devnet"@,
        network_name(NetworkId::Testnet) == "chroma-testnet"@,
        network_name(NetworkId::Mainnet) == "chroma-mainnet"@,
        network_name(NetworkId::Regtest) == "chroma-regtest"@,
        network_name(NetworkId::Unknown) == "unknown"@,
        a != b ==> network_byte(a) != network_byte(b),
{
}

/// Heights and targets take four bytes, amounts and nonces eight, least
/// significant first; an address is its twenty bytes and a network its one.
pub proof fn values_have_fixed_widths(
    h: BlockHeight,
    t: CompactTarget,
    a: Amount,
    n: Nonce,
    to: Address,
    net: NetworkId,
    data: Seq<u8>,
    i: int,
)
    requires
        0 <= i,
    ensures
        ({
            let w = vstd::arithmetic::power::pow(256, i as nat);
            &&& i < 4 ==> h.spec_encode()[i] == h.0 as int / w % 256
            &&& i < 4 ==> t.spec_encode()[i] == t.0 as int / w % 256
            &&& i < 8 ==> a.spec_encode()[i] == a.0 as int / w % 256
            &&& i < 8 ==> n.spec_encode()[i] == n.0 as int / w % 256
        }),
        h.spec_encode().len() == 4,
        t.spec_encode().len() == 4,
        a.spec_encode().len() == 8,
        n.spec_encode().len() == 8,
        to.spec_encode() == to.0.0@,
        net.spec_encode() == seq![network_byte(net)],
        BlockHeight::decodable(data) <==> data.len() == 4,
        CompactTarget::decodable(data) <==> data.len() == 4,
        Amount::decodable(data) <==> data.len() == 8,
        Nonce::decodable(data) <==> data.len() == 8,
        Address::decodable(data) <==> data.len() == 20,
        NetworkId::decodable(data) <==> data.len() == 1 && (data[0] < 4 || data[0] == 255),
        BlockHeight::denotes(data, h) <==> data == h.spec_encode(),
        CompactTarget::denotes(data, t) <==> data == t.spec_encode(),
        Amount::denotes(data, a) <==> data == a.spec_encode(),
        Nonce::denotes(data, n) <==> data == n.spec_encode(),
        Address::denotes(data, to) <==> data == to.spec_encode(),
        NetworkId::denotes(data, net) <==> data == net.spec_encode(),
{
    bytes::lemma_le_bytes_len(h.0 as nat, 4);
    bytes::lemma_le_bytes_len(t.0 as nat, 4);
    bytes::lemma_le_bytes_len(a.0 as nat, 8);
    bytes::lemma_le_bytes_len(n.0 as nat, 8);
    if i < 4 {
        bytes::bytes_are_digits(h.0 as nat, 4, i);
        bytes::bytes_are_digits(t.0 as nat, 4, i);
    }
    if i < 8 {
        bytes::bytes_are_digits(a.0 as nat, 8, i);
        bytes::bytes_are_digits(n.0 as nat, 8, i);
    }
}

} // verus!
