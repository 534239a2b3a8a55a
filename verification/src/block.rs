//! Blocks: canonical structure, serialization and validation.
//!
//! Block header, little-endian:
//!
//! ```text
//!   version          4 bytes
//!   previous_hash   32 bytes
//!   state_root      32 bytes
//!   tx_merkle_root  32 bytes
//!   timestamp        8 bytes
//!   bits             4 bytes
//!   height           4 bytes
//!   nonce            8 bytes
//! ```
//!
//! A block is its header, a LEB128 transaction count and the transactions.

use vstd::prelude::*;
use crate::bytes;
use crate::constants::{
    BLOCK_REWARD_UNITS, MAX_BLOCK_SIZE, MAX_FUTURE_TIMESTAMP_OFFSET, MAX_SUPPLY_UNITS,
    MAX_TRANSACTION_SIZE, MAX_TXS_PER_SENDER_PER_BLOCK,
};
use crate::crypto::randomx;
use crate::crypto::randomx::PowAlgorithm;
use crate::crypto::schnorr;
use crate::error;
use crate::error::{joined, joined4, CoreError, ErrorKind, Fault, Result};
use crate::hash;
use crate::keymap;
use crate::keymap::KeyMap;
use crate::serialize;
use crate::serialize::{CanonicalDecode, CanonicalEncode};
use crate::state;
use crate::state::{Accounts, State, StateView};
use crate::text;
use crate::tx;
use crate::tx::Transaction;
use crate::types;
use crate::types::{BlockHeight, CompactTarget};

verus! {

/// Block header: 124 bytes.
#[derive(Clone, Copy, Debug, Eq)]
pub struct BlockHeader {
    pub version: u32,
    pub previous_hash: hash::Hash,
    pub state_root: hash::Hash,
    pub tx_merkle_root: hash::Hash,
    pub timestamp: u64,
    pub bits: CompactTarget,
    pub height: BlockHeight,
    pub nonce: u64,
}

impl PartialEq for BlockHeader {
    fn eq(&self, other: &Self) -> (r: bool) {
        self.version == other.version && self.previous_hash == other.previous_hash
            && self.state_root == other.state_root && self.tx_merkle_root == other.tx_merkle_root
            && self.timestamp == other.timestamp && self.bits == other.bits && self.height
            == other.height && self.nonce == other.nonce
    }
}

impl vstd::std_specs::cmp::PartialEqSpecImpl for BlockHeader {
    open spec fn obeys_eq_spec() -> bool {
        true
    }

    open spec fn eq_spec(&self, other: &Self) -> bool {
        *self == *other
    }
}

/// The hash a header is known by.
#[verifier::opaque]
pub open spec fn header_hash(h: BlockHeader) -> hash::Hash {
    hash::hash_of(h.spec_encode())
}

impl BlockHeader {
    /// Canonical header size.
    pub const SERIALIZED_SIZE: usize = 124;

    /// The hash of the header's encoding.
    pub fn hash(&self) -> (r: hash::Hash)
        ensures
            r == header_hash(*self),
    {
        proof {
            reveal(header_hash);
        }
        hash::blake3(&self.encode())
    }
}

impl CanonicalEncode for BlockHeader {
    open spec fn spec_encode(&self) -> Seq<u8> {
        bytes::le_bytes(self.version as nat, 4) + self.previous_hash.0@ + self.state_root.0@
            + self.tx_merkle_root.0@ + bytes::le_bytes(self.timestamp as nat, 8)
            + bytes::le_bytes(self.bits.0 as nat, 4) + bytes::le_bytes(self.height.0 as nat, 4)
            + bytes::le_bytes(self.nonce as nat, 8)
    }

    fn encode(&self) -> (r: Vec<u8>) {
        let mut buf: Vec<u8> = Vec::new();
        bytes::push_le(&mut buf, self.version as u64, 4);
        bytes::push_bytes(&mut buf, &self.previous_hash.0);
        bytes::push_bytes(&mut buf, &self.state_root.0);
        bytes::push_bytes(&mut buf, &self.tx_merkle_root.0);
        bytes::push_le(&mut buf, self.timestamp, 8);
        bytes::push_le(&mut buf, self.bits.0 as u64, 4);
        bytes::push_le(&mut buf, self.height.0 as u64, 4);
        bytes::push_le(&mut buf, self.nonce, 8);
        assert(buf@ =~= self.spec_encode());
        buf
    }
}

/// A header takes 124 bytes.
pub proof fn lemma_header_len(h: BlockHeader)
    ensures
        h.spec_encode().len() == 124,
{
    bytes::lemma_le_bytes_len(h.version as nat, 4);
    bytes::lemma_le_bytes_len(h.timestamp as nat, 8);
    bytes::lemma_le_bytes_len(h.bits.0 as nat, 4);
    bytes::lemma_le_bytes_len(h.height.0 as nat, 4);
    bytes::lemma_le_bytes_len(h.nonce as nat, 8);
}

/// Header bytes tell headers apart.
pub proof fn header_encoding_injective(a: BlockHeader, b: BlockHeader)
    requires
        a.spec_encode() == b.spec_encode(),
    ensures
        a == b,
{
    let a1 = bytes::le_bytes(a.version as nat, 4);
    let b1 = bytes::le_bytes(b.version as nat, 4);
    let a2 = a1 + a.previous_hash.0@;
    let b2 = b1 + b.previous_hash.0@;
    let a3 = a2 + a.state_root.0@;
    let b3 = b2 + b.state_root.0@;
    let a4 = a3 + a.tx_merkle_root.0@;
    let b4 = b3 + b.tx_merkle_root.0@;
    let at = bytes::le_bytes(a.timestamp as nat, 8);
    let bt = bytes::le_bytes(b.timestamp as nat, 8);
    let ab = bytes::le_bytes(a.bits.0 as nat, 4);
    let bb = bytes::le_bytes(b.bits.0 as nat, 4);
    let ah = bytes::le_bytes(a.height.0 as nat, 4);
    let bh = bytes::le_bytes(b.height.0 as nat, 4);
    let an = bytes::le_bytes(a.nonce as nat, 8);
    let bn = bytes::le_bytes(b.nonce as nat, 8);
    lemma_header_len(a);
    lemma_header_len(b);
    bytes::lemma_le_bytes_len(a.version as nat, 4);
    bytes::lemma_le_bytes_len(b.version as nat, 4);
    bytes::lemma_le_bytes_len(a.timestamp as nat, 8);
    bytes::lemma_le_bytes_len(b.timestamp as nat, 8);
    bytes::lemma_le_bytes_len(a.bits.0 as nat, 4);
    bytes::lemma_le_bytes_len(b.bits.0 as nat, 4);
    bytes::lemma_le_bytes_len(a.height.0 as nat, 4);
    bytes::lemma_le_bytes_len(b.height.0 as nat, 4);
    bytes::lemma_le_bytes_len(a.nonce as nat, 8);
    bytes::lemma_le_bytes_len(b.nonce as nat, 8);
    bytes::lemma_split_equal(a4 + at + ab + ah, an, b4 + bt + bb + bh, bn);
    bytes::lemma_split_equal(a4 + at + ab, ah, b4 + bt + bb, bh);
    bytes::lemma_split_equal(a4 + at, ab, b4 + bt, bb);
    bytes::lemma_split_equal(a4, at, b4, bt);
    bytes::lemma_split_equal(a3, a.tx_merkle_root.0@, b3, b.tx_merkle_root.0@);
    bytes::lemma_split_equal(a2, a.state_root.0@, b2, b.state_root.0@);
    bytes::lemma_split_equal(a1, a.previous_hash.0@, b1, b.previous_hash.0@);
    bytes::lemma_array_equal(a.previous_hash.0, b.previous_hash.0);
    bytes::lemma_array_equal(a.state_root.0, b.state_root.0);
    bytes::lemma_array_equal(a.tx_merkle_root.0, b.tx_merkle_root.0);
    bytes::lemma_pow256_values();
    bytes::lemma_le_bytes_injective(a.version as nat, b.version as nat, 4);
    bytes::lemma_le_bytes_injective(a.timestamp as nat, b.timestamp as nat, 8);
    bytes::lemma_le_bytes_injective(a.bits.0 as nat, b.bits.0 as nat, 4);
    bytes::lemma_le_bytes_injective(a.height.0 as nat, b.height.0 as nat, 4);
    bytes::lemma_le_bytes_injective(a.nonce as nat, b.nonce as nat, 8);
}

/// The complaint that bytes have not the size of a header.
pub open spec fn header_size_fault(len: nat) -> Fault {
    error::malformed("block header: expected 124 bytes, got "@ + text::decimal(len))
}

impl CanonicalDecode for BlockHeader {
    open spec fn denotes(data: Seq<u8>, v: Self) -> bool {
        data == v.spec_encode()
    }

    open spec fn denotes_prefix(data: Seq<u8>, v: Self, used: nat) -> bool {
        used == 124 && data.subrange(0, 124) == v.spec_encode()
    }

    open spec fn decodable(data: Seq<u8>) -> bool {
        data.len() == 124
    }

    open spec fn decodable_prefix(data: Seq<u8>) -> bool {
        data.len() >= 124
    }

    open spec fn decode_fault(data: Seq<u8>) -> Fault {
        header_size_fault(data.len())
    }

    open spec fn partial_fault(data: Seq<u8>) -> Fault {
        header_size_fault(data.len())
    }

    fn decode(data: &[u8]) -> (r: Result<Self>) {
        if data.len() != BlockHeader::SERIALIZED_SIZE {
            return Err(
                CoreError::Serialization(
                    text::phrase1("block header: expected 124 bytes, got ", data.len() as u64),
                ),
            );
        }
        match BlockHeader::decode_partial(data) {
            Ok((h, _)) => {
                assert(data@.subrange(0, 124) =~= data@);
                Ok(h)
            },
            Err(e) => Err(e),
        }
    }

    fn decode_partial(data: &[u8]) -> (r: Result<(Self, usize)>) {
        if data.len() < BlockHeader::SERIALIZED_SIZE {
            return Err(
                CoreError::Serialization(
                    text::phrase1("block header: expected 124 bytes, got ", data.len() as u64),
                ),
            );
        }
        proof {
            bytes::lemma_pow256_values();
        }
        let version: u32 = bytes::read_le(data, 0, 4) as u32;
        let previous_hash: [u8; 32] = bytes::take_array::<32>(data, 4);
        let state_root: [u8; 32] = bytes::take_array::<32>(data, 36);
        let tx_merkle_root: [u8; 32] = bytes::take_array::<32>(data, 68);
        let timestamp: u64 = bytes::read_le(data, 100, 8);
        let bits: u32 = bytes::read_le(data, 108, 4) as u32;
        let height: u32 = bytes::read_le(data, 112, 4) as u32;
        let nonce: u64 = bytes::read_le(data, 116, 8);
        let header = BlockHeader {
            version,
            previous_hash: hash::Hash(previous_hash),
            state_root: hash::Hash(state_root),
            tx_merkle_root: hash::Hash(tx_merkle_root),
            timestamp,
            bits: CompactTarget(bits),
            height: BlockHeight(height),
            nonce,
        };
        proof {
            bytes::lemma_le_bytes_of_value(data@.subrange(0, 4));
            bytes::lemma_le_bytes_of_value(data@.subrange(100, 108));
            bytes::lemma_le_bytes_of_value(data@.subrange(108, 112));
            bytes::lemma_le_bytes_of_value(data@.subrange(112, 116));
            bytes::lemma_le_bytes_of_value(data@.subrange(116, 124));
            bytes::lemma_join_ranges(data@, 0, 4, 36);
            bytes::lemma_join_ranges(data@, 0, 36, 68);
            bytes::lemma_join_ranges(data@, 0, 68, 100);
            bytes::lemma_join_ranges(data@, 0, 100, 108);
            bytes::lemma_join_ranges(data@, 0, 108, 112);
            bytes::lemma_join_ranges(data@, 0, 112, 116);
            bytes::lemma_join_ranges(data@, 0, 116, 124);
        }
        Ok((header, BlockHeader::SERIALIZED_SIZE))
    }
}

/// A header reads back from its bytes, whatever follows them.
pub proof fn header_roundtrip(h: BlockHeader, after: Seq<u8>, v: BlockHeader, used: nat)
    ensures
        BlockHeader::decodable_prefix(h.spec_encode() + after),
        BlockHeader::denotes_prefix(h.spec_encode() + after, v, used) <==> v == h && used == 124,
{
    let data = h.spec_encode() + after;
    lemma_header_len(h);
    assert(data.subrange(0, 124) =~= h.spec_encode());
    if BlockHeader::denotes_prefix(data, v, used) {
        header_encoding_injective(v, h);
    }
}

// ---------------------------------------------------------------------------
// Block
// ---------------------------------------------------------------------------

/// A complete block.
#[derive(Debug)]
pub struct Block {
    pub header: BlockHeader,
    pub transactions: Vec<Transaction>,
}

/// What a block holds.
#[verifier::ext_equal]
pub struct BlockView {
    pub header: BlockHeader,
    pub txs: Seq<Transaction>,
}

impl View for Block {
    type V = BlockView;

    open spec fn view(&self) -> BlockView {
        BlockView { header: self.header, txs: self.transactions@ }
    }
}

impl Clone for Block {
    fn clone(&self) -> (r: Self)
        ensures
            r@ == self@,
    {
        let mut transactions: Vec<Transaction> = Vec::new();
        let mut i: usize = 0;
        while i < self.transactions.len()
            invariant
                i <= self.transactions@.len(),
                transactions@ == self.transactions@.subrange(0, i as int),
            decreases self.transactions@.len() - i,
        {
            transactions.push(self.transactions[i]);
            i = i + 1;
            assert(transactions@ =~= self.transactions@.subrange(0, i as int));
        }
        assert(transactions@ =~= self.transactions@);
        Block { header: self.header, transactions }
    }
}

/// Transactions one after the other.
pub open spec fn txs_bytes(txs: Seq<Transaction>) -> Seq<u8>
    decreases txs.len(),
{
    if txs.len() == 0 {
        Seq::empty()
    } else {
        txs_bytes(txs.drop_last()) + txs.last().spec_encode()
    }
}

/// The root that commits to the transactions.
pub open spec fn tx_root(txs: Seq<Transaction>) -> hash::Hash {
    if txs.len() == 0 {
        hash::zero_hash()
    } else {
        hash::hash_of(txs_bytes(txs))
    }
}

/// The bytes of a block.
pub open spec fn block_bytes(b: BlockView) -> Seq<u8> {
    b.header.spec_encode() + serialize::leb128(b.txs.len()) + txs_bytes(b.txs)
}

/// Whether bytes are a block: a header, a count, and as many transactions with
/// admissible keys as it says, with nothing left over.
pub open spec fn block_decodable(data: Seq<u8>) -> bool {
    data.len() >= 124 && match serialize::leb_value(data, 124) {
        Some((count, pos)) => {
            &&& data.len() == pos + 132 * count
            &&& forall|i: int|
                0 <= i < count ==> #[trigger] tx::tx_decodable_prefix(
                    data.subrange(pos + 132 * i, data.len() as int),
                )
        },
        None => false,
    }
}

/// What is wrong with bytes that are not so many transactions and nothing else.
pub open spec fn txs_fault(data: Seq<u8>, n: nat) -> Fault
    decreases n,
{
    if n == 0 {
        error::malformed(
            text::number_between(
                "block: "@,
                data.len(),
                " trailing bytes after transactions"@,
            ),
        )
    } else if !tx::tx_decodable_prefix(data) {
        Transaction::partial_fault(data)
    } else {
        txs_fault(data.subrange(132, data.len() as int), (n - 1) as nat)
    }
}

/// What is wrong with bytes that are no block.
pub open spec fn block_fault(data: Seq<u8>) -> Fault {
    if data.len() < 124 {
        header_size_fault(data.len())
    } else {
        match serialize::leb_value(data, 124) {
            Some((count, pos)) => {
                let most = data.len() / 132 + 1;
                if count > most {
                    error::malformed(
                        text::two_numbers(
                            "block: tx_count "@,
                            count,
                            " exceeds maximum possible "@,
                            most,
                        ),
                    )
                } else {
                    txs_fault(data.subrange(pos, data.len() as int), count)
                }
            },
            None => serialize::leb_fault(data, 124),
        }
    }
}

/// Whether bytes are those of a block with these contents.
pub open spec fn block_denotes(data: Seq<u8>, b: BlockView) -> bool {
    data.subrange(0, 124) == b.header.spec_encode() && match serialize::leb_value(data, 124) {
        Some((count, pos)) => b.txs.len() == count && data.subrange(pos, data.len() as int)
            == txs_bytes(b.txs),
        None => false,
    }
}

pub proof fn lemma_txs_len(txs: Seq<Transaction>)
    ensures
        txs_bytes(txs).len() == 132 * txs.len(),
    decreases txs.len(),
{
    if txs.len() > 0 {
        lemma_txs_len(txs.drop_last());
        tx::lemma_tx_len(txs.last());
    }
}

proof fn lemma_txs_injective(a: Seq<Transaction>, b: Seq<Transaction>)
    requires
        a.len() == b.len(),
        txs_bytes(a) == txs_bytes(b),
    ensures
        a == b,
    decreases a.len(),
{
    if a.len() > 0 {
        tx::lemma_tx_len(a.last());
        tx::lemma_tx_len(b.last());
        bytes::lemma_split_equal(
            txs_bytes(a.drop_last()),
            a.last().spec_encode(),
            txs_bytes(b.drop_last()),
            b.last().spec_encode(),
        );
        lemma_txs_injective(a.drop_last(), b.drop_last());
        tx::tx_encoding_injective(a.last(), b.last());
        assert(a =~= a.drop_last().push(a.last()));
        assert(b =~= b.drop_last().push(b.last()));
    } else {
        assert(a =~= b);
    }
}

/// Where the i-th transaction stands in a row of them.
proof fn lemma_txs_at(txs: Seq<Transaction>, i: int)
    requires
        0 <= i < txs.len(),
    ensures
        132 * i + 132 <= txs_bytes(txs).len(),
        txs_bytes(txs).subrange(132 * i, 132 * i + 132) == txs[i].spec_encode(),
    decreases txs.len(),
{
    let s = txs_bytes(txs);
    lemma_txs_len(txs);
    lemma_txs_len(txs.drop_last());
    tx::lemma_tx_len(txs.last());
    if i == txs.len() - 1 {
        assert(s.subrange(132 * i, 132 * i + 132) =~= txs.last().spec_encode());
    } else {
        lemma_txs_at(txs.drop_last(), i);
        assert(s.subrange(132 * i, 132 * i + 132) =~= txs_bytes(txs.drop_last()).subrange(
            132 * i,
            132 * i + 132,
        ));
    }
}

/// A block whose keys are admissible reads back from its bytes, and its bytes
/// stand for no other block.
pub proof fn block_roundtrip(b: BlockView, v: BlockView)
    requires
        b.txs.len() <= u64::MAX,
        forall|i: int|
            0 <= i < b.txs.len() ==> tx::key_admissible((#[trigger] b.txs[i]).sender_pubkey.0),
    ensures
        block_decodable(block_bytes(b)),
        block_denotes(block_bytes(b), v) <==> v == b,
{
    let data = block_bytes(b);
    let head = b.header.spec_encode();
    let count = serialize::leb128(b.txs.len());
    let body = txs_bytes(b.txs);
    lemma_header_len(b.header);
    lemma_txs_len(b.txs);
    serialize::leb128_roundtrip(b.txs.len(), head, body);
    let pos = (124 + count.len()) as int;
    assert(data.subrange(0, 124) =~= head);
    assert(data.subrange(pos, data.len() as int) =~= body);
    assert forall|i: int| 0 <= i < b.txs.len() implies #[trigger] tx::tx_decodable_prefix(
        data.subrange(pos + 132 * i, data.len() as int),
    ) by {
        lemma_txs_at(b.txs, i);
        let d = data.subrange(pos + 132 * i, data.len() as int);
        let t = b.txs[i];
        let rest = data.subrange(pos + 132 * i + 132, data.len() as int);
        assert(d =~= t.spec_encode() + rest) by {
            assert(body.subrange(132 * i, 132 * i + 132) =~= data.subrange(
                pos + 132 * i,
                pos + 132 * i + 132,
            ));
        }
        tx::tx_roundtrip(t, rest, t, 132);
    }
    if block_denotes(data, v) {
        header_encoding_injective(v.header, b.header);
        lemma_txs_injective(v.txs, b.txs);
        assert(v =~= b);
    }
}

/// The root tells lists of transactions apart as far as the hash function does:
/// lists of one length with the same bytes under the hash are the same.
pub proof fn tx_bytes_injective(a: Seq<Transaction>, b: Seq<Transaction>)
    requires
        txs_bytes(a) == txs_bytes(b),
    ensures
        a == b,
{
    lemma_txs_len(a);
    lemma_txs_len(b);
    lemma_txs_injective(a, b);
}

impl Block {
    /// The root that commits to a list of transactions; zero for none.
    pub fn compute_tx_merkle_root(transactions: &[Transaction]) -> (r: hash::Hash)
        ensures
            r == tx_root(transactions@),
    {
        if transactions.len() == 0 {
            return hash::Hash::zero();
        }
        let mut buf: Vec<u8> = Vec::new();
        push_txs(&mut buf, transactions);
        assert(buf@ =~= txs_bytes(transactions@));
        hash::blake3(&buf)
    }

    /// The hash of the header.
    pub fn hash(&self) -> (r: hash::Hash)
        ensures
            r == header_hash(self.header),
    {
        self.header.hash()
    }

    /// Serialize the full block.
    pub fn encode_block(&self) -> (r: Vec<u8>)
        ensures
            r@ == block_bytes(self@),
    {
        let mut buf = self.header.encode();
        bytes::push_bytes(&mut buf, &serialize::encode_leb128(self.transactions.len() as u64));
        push_txs(&mut buf, &self.transactions);
        assert(buf@ =~= block_bytes(self@));
        buf
    }

    /// Deserialize a full block.
    pub fn decode_block(data: &[u8]) -> (r: Result<Block>)
        ensures
            r is Ok <==> block_decodable(data@),
            r matches Ok(b) ==> block_denotes(data@, b@),
            r matches Err(e) ==> e.fault() == block_fault(data@),
    {
        let header = match BlockHeader::decode_partial(data) {
            Ok((h, _)) => h,
            Err(e) => {
                return Err(e);
            },
        };
        let (count, start) = match serialize::decode_leb128(data, BlockHeader::SERIALIZED_SIZE) {
            Ok(p) => p,
            Err(e) => {
                return Err(e);
            },
        };
        let most: usize = data.len() / Transaction::SERIALIZED_SIZE + 1;
        if count > most as u64 {
            return Err(
                CoreError::Serialization(
                    text::phrase2("block: tx_count ", count, " exceeds maximum possible ", most as u64),
                ),
            );
        }
        let n: usize = count as usize;
        let mut transactions: Vec<Transaction> = Vec::new();
        let mut i: usize = 0;
        let mut pos: usize = start;
        assert(data@.subrange(start as int, start as int) =~= Seq::<u8>::empty());
        while i < n
            invariant
                i <= n,
                n == count,
                n <= data@.len() / 132 + 1,
                pos == start + 132 * i,
                pos <= data@.len(),
                data@.len() >= 124,
                block_fault(data@) == txs_fault(
                    data@.subrange(pos as int, data@.len() as int),
                    (n - i) as nat,
                ),
                start >= 124,
                serialize::leb_value(data@, 124) == Some((count as nat, start as int)),
                transactions@.len() == i,
                txs_bytes(transactions@) == data@.subrange(start as int, pos as int),
                forall|j: int|
                    0 <= j < i ==> #[trigger] tx::tx_decodable_prefix(
                        data@.subrange(start + 132 * j, data@.len() as int),
                    ),
            decreases n - i,
        {
            let rest = &data[pos..data.len()];
            match Transaction::decode_partial(rest) {
                Ok((t, used)) => {
                    let ghost before = transactions@;
                    transactions.push(t);
                    proof {
                        assert(transactions@.drop_last() =~= before);
                        assert(rest@.subrange(0, 132) =~= data@.subrange(pos as int, pos + 132));
                        bytes::lemma_join_ranges(data@, start as int, pos as int, pos + 132);
                        assert(rest@ =~= data@.subrange(start + 132 * i, data@.len() as int));
                        assert(rest@.subrange(132, rest@.len() as int) =~= data@.subrange(
                            pos + 132,
                            data@.len() as int,
                        ));
                    }
                    pos = pos + used;
                },
                Err(e) => {
                    assert(rest@ =~= data@.subrange(start + 132 * i, data@.len() as int));
                    return Err(e);
                },
            }
            i = i + 1;
        }
        if pos != data.len() {
            return Err(
                CoreError::Serialization(
                    text::phrase_around(
                        "block: ",
                        (data.len() - pos) as u64,
                        " trailing bytes after transactions",
                    ),
                ),
            );
        }
        Ok(Block { header, transactions })
    }
}

/// Append transactions to a buffer.
fn push_txs(buf: &mut Vec<u8>, transactions: &[Transaction])
    ensures
        final(buf)@ == old(buf)@ + txs_bytes(transactions@),
{
    let mut i: usize = 0;
    assert(transactions@.subrange(0, 0) =~= Seq::<Transaction>::empty());
    assert(buf@ =~= old(buf)@ + txs_bytes(transactions@.subrange(0, 0)));
    while i < transactions.len()
        invariant
            i <= transactions@.len(),
            buf@ == old(buf)@ + txs_bytes(transactions@.subrange(0, i as int)),
        decreases transactions@.len() - i,
    {
        bytes::push_bytes(buf, &transactions[i].encode());
        proof {
            let t = transactions@.subrange(0, i + 1);
            assert(t.drop_last() =~= transactions@.subrange(0, i as int));
            assert(buf@ =~= old(buf)@ + txs_bytes(t));
        }
        i = i + 1;
    }
    assert(transactions@.subrange(0, i as int) =~= transactions@);
}

// ---------------------------------------------------------------------------
// Validation
// ---------------------------------------------------------------------------

/// What a block is validated against.
#[derive(Clone, Copy, Debug)]
pub struct BlockValidationContext {
    /// Previous block header hash.
    pub previous_hash: hash::Hash,
    /// Expected height: the previous one and one more.
    pub expected_height: BlockHeight,
    /// Previous block timestamp.
    pub previous_timestamp: u64,
    /// Median time past of the blocks before.
    pub median_time_past: u64,
    /// Expected target bits.
    pub expected_bits: CompactTarget,
    /// Supply before the block.
    pub current_supply: u64,
    /// Previous block's state root.
    pub previous_state_root: hash::Hash,
    /// Network-adjusted time.
    pub network_time: u64,
    /// The function that proves work.
    pub pow_algorithm: PowAlgorithm,
    /// The epoch seed of that function.
    pub pow_seed: hash::Hash,
}

/// The hash that proves a header's work, where this build can compute it.
pub open spec fn pow_digest(algorithm: PowAlgorithm, h: BlockHeader) -> Option<hash::Hash> {
    match algorithm {
        PowAlgorithm::Blake3 => Some(header_hash(h)),
        PowAlgorithm::RandomX => None,
    }
}

/// Whether a header proves its work.
pub open spec fn proves_work(algorithm: PowAlgorithm, h: BlockHeader) -> bool {
    pow_digest(algorithm, h) matches Some(d) && randomx::meets(d, types::compact_value(h.bits.0))
}

/// How many of some transactions an address sends.
pub open spec fn sent_by(txs: Seq<Transaction>, sender: [u8; 20]) -> nat
    decreases txs.len(),
{
    if txs.len() == 0 {
        0
    } else {
        sent_by(txs.drop_last(), sender) + if tx::sender_of(txs.last()) == sender {
            1nat
        } else {
            0nat
        }
    }
}

/// Whether no sender has more than its share of a block's transfers.
pub open spec fn within_cap(txs: Seq<Transaction>) -> bool {
    forall|sender: [u8; 20]| #[trigger]
        sent_by(txs, sender) <= MAX_TXS_PER_SENDER_PER_BLOCK
}

/// The accounts after transfers in order, or why the first bad one is refused.
pub open spec fn apply_transfers(accounts: Accounts, txs: Seq<Transaction>) -> std::result::Result<
    Accounts,
    Fault,
>
    decreases txs.len(),
{
    if txs.len() == 0 {
        Ok(accounts)
    } else {
        match apply_transfers(accounts, txs.drop_last()) {
            Ok(a) => {
                let t = txs.last();
                if !tx::signed(t) {
                    Err(
                        ErrorKind::InvalidSignature.because(
                            "transaction signature verification failed"@,
                        ),
                    )
                } else {
                    state::after_transfer(
                        a,
                        tx::sender_of(t),
                        t.recipient.0.0,
                        t.amount.0,
                        t.nonce.0,
                    )
                }
            },
            Err(k) => Err(k),
        }
    }
}

/// A comparison of what was expected with what was found.
pub open spec fn mismatch(expected: Seq<char>, found: Seq<char>) -> Seq<char> {
    "expected "@ + expected + ", got "@ + found
}

/// Target bits as eight hexadecimal digits.
pub open spec fn bits_words(bits: u32) -> Seq<char> {
    text::hex_text(
        seq![
            (bits / 0x100_0000) as u8,
            (bits / 0x1_0000 % 0x100) as u8,
            (bits / 0x100 % 0x100) as u8,
            (bits % 0x100) as u8,
        ],
    )
}

/// Why a header does not prove its work, if it does not: its hash is above the
/// target, which `above` says, or this build cannot compute it.
pub open spec fn work_fault(algorithm: PowAlgorithm, h: BlockHeader, above: Seq<char>) -> Option<
    Fault,
> {
    match pow_digest(algorithm, h) {
        Some(d) => if randomx::meets(d, types::compact_value(h.bits.0)) {
            None
        } else {
            Some(ErrorKind::InvalidProofOfWork.because(above))
        },
        None => Some(ErrorKind::InvalidProofOfWork.because(no_randomx())),
    }
}

/// What this build says of RandomX.
pub open spec fn no_randomx() -> Seq<char> {
    "randomx error: "@ + "not implemented in devnet"@
}

/// What is wrong with a block's size or header, if anything.
pub open spec fn header_fault(b: BlockView, ctx: BlockValidationContext) -> Option<Fault> {
    let h = b.header;
    if block_bytes(b).len() > MAX_BLOCK_SIZE {
        Some(
            ErrorKind::BlockSizeExceeded(block_bytes(b).len() as usize, MAX_BLOCK_SIZE).because(
                text::decimal(block_bytes(b).len()) + " bytes > max "@ + text::decimal(
                    MAX_BLOCK_SIZE as nat,
                ),
            ),
        )
    } else if h.version != 1 {
        Some(
            ErrorKind::InvalidBlock.because(
                "unsupported version: "@ + text::decimal(h.version as nat),
            ),
        )
    } else if h.previous_hash != ctx.previous_hash {
        Some(
            ErrorKind::InvalidBlock.because(
                "previous hash mismatch: "@ + mismatch(
                    text::hex_text(ctx.previous_hash.0@),
                    text::hex_text(h.previous_hash.0@),
                ),
            ),
        )
    } else if h.height != ctx.expected_height {
        Some(
            ErrorKind::InvalidBlock.because(
                "height mismatch: "@ + mismatch(
                    text::decimal(ctx.expected_height.0 as nat),
                    text::decimal(h.height.0 as nat),
                ),
            ),
        )
    } else if h.timestamp <= ctx.median_time_past {
        Some(
            ErrorKind::InvalidTimestamp.because(
                text::two_numbers(
                    "block timestamp "@,
                    h.timestamp as nat,
                    " must be after MTP "@,
                    ctx.median_time_past as nat,
                ),
            ),
        )
    } else if h.timestamp > ctx.network_time + MAX_FUTURE_TIMESTAMP_OFFSET {
        Some(
            ErrorKind::InvalidTimestamp.because(
                text::two_numbers(
                    "block timestamp "@,
                    h.timestamp as nat,
                    " is too far in the future (network time: "@,
                    ctx.network_time as nat,
                ) + ")"@,
            ),
        )
    } else if h.bits != ctx.expected_bits {
        Some(
            ErrorKind::InvalidDifficulty.because(
                "expected bits "@ + bits_words(ctx.expected_bits.0) + ", got "@ + bits_words(
                    h.bits.0,
                ),
            ),
        )
    } else {
        work_fault(ctx.pow_algorithm, h, "block hash does not meet target"@)
    }
}

/// A header proves its work where nothing is wrong with it.
pub proof fn lemma_work_fault(algorithm: PowAlgorithm, h: BlockHeader, above: Seq<char>)
    ensures
        work_fault(algorithm, h, above) is None <==> proves_work(algorithm, h),
{
}

/// What is said of a block in which some sender has more than its share.
pub open spec fn over_cap() -> Seq<char> {
    "a sender has more than the transactions allowed per block: "@ + text::decimal(
        MAX_TXS_PER_SENDER_PER_BLOCK as nat,
    )
}

/// Whether a block has a good coinbase and a sender with more than its share.
pub open spec fn crowded(b: BlockView) -> bool {
    &&& b.txs.len() > 0
    &&& b.txs[0].amount.0 == BLOCK_REWARD_UNITS
    &&& b.txs[0].nonce.0 == 0
    &&& !within_cap(b.txs.subrange(1, b.txs.len() as int))
}

/// What is wrong with a block's coinbase or its number of transfers per
/// sender, if anything.
pub open spec fn contents_fault(b: BlockView) -> Option<Fault> {
    if b.txs.len() == 0 {
        Some(
            ErrorKind::InvalidBlock.because(
                "block must contain at least one transaction (coinbase)"@,
            ),
        )
    } else if b.txs[0].amount.0 != BLOCK_REWARD_UNITS {
        Some(
            ErrorKind::InvalidBlock.because(
                text::two_numbers(
                    "coinbase reward must be exactly "@,
                    BLOCK_REWARD_UNITS as nat,
                    " units, got "@,
                    b.txs[0].amount.0 as nat,
                ),
            ),
        )
    } else if b.txs[0].nonce.0 != 0 {
        Some(ErrorKind::InvalidBlock.because("coinbase nonce must be 0"@))
    } else if !within_cap(b.txs.subrange(1, b.txs.len() as int)) {
        Some(ErrorKind::InvalidBlock.because(over_cap()))
    } else {
        None
    }
}

/// The state after a block's coinbase and transfers, or why they do not apply.
pub open spec fn after_transactions(
    txs: Seq<Transaction>,
    s: StateView,
) -> std::result::Result<StateView, Fault> {
    match state::after_subsidy(s, txs[0].recipient.0.0) {
        Ok(paid) => if paid.supply > MAX_SUPPLY_UNITS {
            Err(
                ErrorKind::SupplyInvariant.because(
                    text::two_numbers(
                        "total supply "@,
                        paid.supply as nat,
                        " exceeds max "@,
                        MAX_SUPPLY_UNITS as nat,
                    ),
                ),
            )
        } else {
            match apply_transfers(paid.accounts, txs.subrange(1, txs.len() as int)) {
                Ok(accounts) => Ok(StateView { accounts, supply: paid.supply }),
                Err(k) => Err(k),
            }
        },
        Err(k) => Err(k),
    }
}

/// The state a valid block leads to, or what is wrong with the block. The
/// checks come in this order.
#[verifier::opaque]
pub open spec fn after_block(
    b: BlockView,
    ctx: BlockValidationContext,
    s: StateView,
) -> std::result::Result<StateView, Fault> {
    if header_fault(b, ctx) is Some {
        Err(header_fault(b, ctx)->0)
    } else if contents_fault(b) is Some {
        Err(contents_fault(b)->0)
    } else {
        match after_transactions(b.txs, s) {
            Ok(after) => if state::state_root(after.accounts) != b.header.state_root {
                Err(
                    ErrorKind::InvalidStateRoot.because(
                        mismatch(
                            text::hex_text(b.header.state_root.0@),
                            text::hex_text(state::state_root(after.accounts).0@),
                        ),
                    ),
                )
            } else if tx_root(b.txs) != b.header.tx_merkle_root {
                Err(
                    ErrorKind::InvalidMerkleRoot.because(
                        mismatch(
                            text::hex_text(b.header.tx_merkle_root.0@),
                            text::hex_text(tx_root(b.txs).0@),
                        ),
                    ),
                )
            } else {
                Ok(after)
            },
            Err(k) => Err(k),
        }
    }
}

/// The hash that proves a header's work. Fails for a function that this build
/// does not have.
pub fn pow_hash(algorithm: PowAlgorithm, seed: &hash::Hash, header: &BlockHeader) -> (r: Result<
    hash::Hash,
>)
    ensures
        match pow_digest(algorithm, *header) {
            Some(d) => r == Ok::<hash::Hash, CoreError>(d),
            None => r matches Err(e) && e.fault() == ErrorKind::InvalidProofOfWork.because(
                no_randomx(),
            ),
        },
{
    match algorithm {
        PowAlgorithm::Blake3 => Ok(header.hash()),
        PowAlgorithm::RandomX => match randomx::init_randomx_context(seed) {
            Ok(_) => Ok(header.hash()),
            Err(e) => Err(CoreError::InvalidProofOfWork(e.message())),
        },
    }
}

/// A comparison of what was expected with what was found.
fn differing(expected: &str, found: &str) -> (r: String)
    ensures
        r@ == mismatch(expected@, found@),
{
    joined4("expected ", expected, ", got ", found)
}

/// Target bits as eight hexadecimal digits.
fn bits_text(bits: u32) -> (r: String)
    ensures
        r@ == bits_words(bits),
{
    let b: [u8; 4] = [
        (bits / 0x100_0000) as u8,
        (bits / 0x1_0000 % 0x100) as u8,
        (bits / 0x100 % 0x100) as u8,
        (bits % 0x100) as u8,
    ];
    assert(b@ =~= seq![
        (bits / 0x100_0000) as u8,
        (bits / 0x1_0000 % 0x100) as u8,
        (bits / 0x100 % 0x100) as u8,
        (bits % 0x100) as u8,
    ]);
    text::hex_encode(&b)
}

/// Check a block's size and header.
fn check_header(block: &Block, ctx: &BlockValidationContext) -> (r: Result<()>)
    ensures
        match header_fault(block@, *ctx) {
            Some(k) => r matches Err(e) && e.fault() == k,
            None => r is Ok,
        },
{
    let header = &block.header;
    let size: usize = block.encode_block().len();
    if size > MAX_BLOCK_SIZE {
        return Err(CoreError::BlockSizeExceeded(size, MAX_BLOCK_SIZE));
    }
    if header.version != 1 {
        return Err(
            CoreError::InvalidBlock(text::phrase1("unsupported version: ", header.version as u64)),
        );
    }
    if header.previous_hash != ctx.previous_hash {
        return Err(
            CoreError::InvalidBlock(
                joined(
                    "previous hash mismatch: ",
                    differing(
                        ctx.previous_hash.to_hex().as_str(),
                        header.previous_hash.to_hex().as_str(),
                    ).as_str(),
                ),
            ),
        );
    }
    if header.height != ctx.expected_height {
        return Err(
            CoreError::InvalidBlock(
                joined(
                    "height mismatch: ",
                    differing(
                        text::decimal_text(ctx.expected_height.0 as u64).as_str(),
                        text::decimal_text(header.height.0 as u64).as_str(),
                    ).as_str(),
                ),
            ),
        );
    }
    if header.timestamp <= ctx.median_time_past {
        return Err(
            CoreError::InvalidTimestamp(
                text::phrase2(
                    "block timestamp ",
                    header.timestamp,
                    " must be after MTP ",
                    ctx.median_time_past,
                ),
            ),
        );
    }
    if header.timestamp > ctx.network_time && header.timestamp - ctx.network_time
        > MAX_FUTURE_TIMESTAMP_OFFSET as u64 {
        return Err(
            CoreError::InvalidTimestamp(
                joined(
                    text::phrase2(
                        "block timestamp ",
                        header.timestamp,
                        " is too far in the future (network time: ",
                        ctx.network_time,
                    ).as_str(),
                    ")",
                ),
            ),
        );
    }
    if header.bits != ctx.expected_bits {
        return Err(
            CoreError::InvalidDifficulty(
                joined4(
                    "expected bits ",
                    bits_text(ctx.expected_bits.0).as_str(),
                    ", got ",
                    bits_text(header.bits.0).as_str(),
                ),
            ),
        );
    }
    let digest = match pow_hash(ctx.pow_algorithm, &ctx.pow_seed, header) {
        Ok(d) => d,
        Err(e) => {
            return Err(e);
        },
    };
    if !randomx::hash_meets_target(&digest, &header.bits.to_full_target()) {
        return Err(CoreError::InvalidProofOfWork("block hash does not meet target".to_string()));
    }
    Ok(())
}

/// Whether no sender has more than its share among the transfers that follow
/// the coinbase.
fn senders_within_cap(transactions: &Vec<Transaction>) -> (r: bool)
    requires
        transactions@.len() > 0,
    ensures
        r == within_cap(transactions@.subrange(1, transactions@.len() as int)),
{
    let mut counts: KeyMap<20, u32> = KeyMap::new();
    let mut i: usize = 1;
    let ghost body = transactions@.subrange(1, transactions@.len() as int);
    proof {
        assert(body.subrange(0, 0) =~= Seq::<Transaction>::empty());
        lemma_no_counts();
    }
    while i < transactions.len()
        invariant
            1 <= i <= transactions@.len(),
            body == transactions@.subrange(1, transactions@.len() as int),
            keymap::ascending(counts@),
            counts_senders(counts@, body.subrange(0, i - 1)),
            within_cap(body.subrange(0, i - 1)),
        decreases transactions@.len() - i,
    {
        let sender = transactions[i].sender_address().0.0;
        let n: u32 = match counts.get(&sender) {
            Some(c) => *c,
            None => 0,
        };
        let ghost prefix = body.subrange(0, i as int);
        let ghost before = body.subrange(0, i - 1);
        proof {
            assert(prefix.drop_last() =~= before);
            assert(prefix =~= before.push(transactions@[i as int]));
            assert(count_in(counts@, sender) == sent_by(before, sender));
            assert(sent_by(before, sender) <= MAX_TXS_PER_SENDER_PER_BLOCK);
            assert(sent_by(prefix, sender) == n + 1);
        }
        if n as usize >= MAX_TXS_PER_SENDER_PER_BLOCK {
            proof {
                lemma_sent_monotone(body, i as int, sender);
            }
            return false;
        }
        proof {
            lemma_count_one_more(counts@, before, transactions@[i as int]);
            assert forall|k: [u8; 20]| #[trigger]
                sent_by(prefix, k) <= MAX_TXS_PER_SENDER_PER_BLOCK by {
                assert(sent_by(before, k) <= MAX_TXS_PER_SENDER_PER_BLOCK);
            }
        }
        counts.insert(sender, n + 1);
        i = i + 1;
    }
    assert(body.subrange(0, i - 1) =~= body);
    true
}

/// The count kept for a sender.
pub open spec fn count_in(counts: Seq<([u8; 20], u32)>, k: [u8; 20]) -> nat {
    match keymap::value_of(counts, k) {
        Some(c) => c as nat,
        None => 0,
    }
}

/// Whether counts are those of the senders of some transactions.
pub open spec fn counts_senders(counts: Seq<([u8; 20], u32)>, txs: Seq<Transaction>) -> bool {
    forall|k: [u8; 20]| count_in(counts, k) == #[trigger] sent_by(txs, k)
}

/// No counts are those of no transactions.
pub proof fn lemma_no_counts()
    ensures
        counts_senders(Seq::empty(), Seq::empty()),
{
    reveal(keymap::value_of);
}

/// Counting one more transaction.
pub proof fn lemma_count_one_more(
    counts: Seq<([u8; 20], u32)>,
    txs: Seq<Transaction>,
    t: Transaction,
)
    requires
        keymap::ascending(counts),
        counts_senders(counts, txs),
        count_in(counts, tx::sender_of(t)) < u32::MAX,
    ensures
        counts_senders(
            keymap::put(
                counts,
                tx::sender_of(t),
                (count_in(counts, tx::sender_of(t)) + 1) as u32,
            ),
            txs.push(t),
        ),
{
    let sender = tx::sender_of(t);
    let n = (count_in(counts, sender) + 1) as u32;
    let more = txs.push(t);
    assert(more.drop_last() =~= txs);
    assert forall|k: [u8; 20]|
        count_in(keymap::put(counts, sender, n), k) == #[trigger] sent_by(more, k) by {
        keymap::put_and_lookup(counts, sender, n, k);
        assert(count_in(counts, k) == sent_by(txs, k));
    }
}

proof fn lemma_sent_monotone(txs: Seq<Transaction>, n: int, k: [u8; 20])
    requires
        0 <= n <= txs.len(),
    ensures
        sent_by(txs.subrange(0, n), k) <= sent_by(txs, k),
    decreases txs.len(),
{
    if n == txs.len() {
        assert(txs.subrange(0, n) =~= txs);
    } else {
        assert(txs.drop_last().subrange(0, n) =~= txs.subrange(0, n));
        lemma_sent_monotone(txs.drop_last(), n, k);
    }
}

/// Check a block's coinbase and its transfers per sender.
fn check_contents(block: &Block) -> (r: Result<()>)
    ensures
        match contents_fault(block@) {
            Some(k) => r matches Err(e) && e.fault() == k,
            None => r is Ok,
        },
{
    if block.transactions.len() == 0 {
        return Err(
            CoreError::InvalidBlock(
                "block must contain at least one transaction (coinbase)".to_string(),
            ),
        );
    }
    let coinbase = &block.transactions[0];
    if coinbase.amount.0 != BLOCK_REWARD_UNITS {
        return Err(
            CoreError::InvalidBlock(
                text::phrase2(
                    "coinbase reward must be exactly ",
                    BLOCK_REWARD_UNITS,
                    " units, got ",
                    coinbase.amount.0,
                ),
            ),
        );
    }
    if coinbase.nonce.0 != 0 {
        return Err(CoreError::InvalidBlock("coinbase nonce must be 0".to_string()));
    }
    if !senders_within_cap(&block.transactions) {
        return Err(
            CoreError::InvalidBlock(
                text::phrase1(
                    "a sender has more than the transactions allowed per block: ",
                    MAX_TXS_PER_SENDER_PER_BLOCK as u64,
                ),
            ),
        );
    }
    Ok(())
}

/// Pay the coinbase and apply the transfers of a block.
fn apply_transactions(transactions: &Vec<Transaction>, height: u32, working: &mut State) -> (r:
    Result<()>)
    requires
        transactions@.len() > 0,
    ensures
        match after_transactions(transactions@, old(working)@) {
            Ok(after) => r is Ok && final(working)@ == after,
            Err(k) => r matches Err(e) && e.fault() == k,
        },
{
    match working.apply_subsidy(&transactions[0].recipient, height) {
        Ok(_) => {},
        Err(e) => {
            return Err(e);
        },
    }
    if working.total_supply() as u128 > MAX_SUPPLY_UNITS {
        return Err(
            CoreError::SupplyInvariant(
                text::phrase2(
                    "total supply ",
                    working.total_supply(),
                    " exceeds max ",
                    MAX_SUPPLY_UNITS as u64,
                ),
            ),
        );
    }
    let ghost paid = working@;
    let ghost body = transactions@.subrange(1, transactions@.len() as int);
    let mut i: usize = 1;
    assert(body.subrange(0, 0) =~= Seq::<Transaction>::empty());
    while i < transactions.len()
        invariant
            1 <= i <= transactions@.len(),
            body == transactions@.subrange(1, transactions@.len() as int),
            apply_transfers(paid.accounts, body.subrange(0, i - 1)) == Ok::<Accounts, Fault>(
                working@.accounts,
            ),
            working@.supply == paid.supply,
            paid.supply <= MAX_SUPPLY_UNITS,
            state::after_subsidy(old(working)@, transactions@[0].recipient.0.0) == Ok::<
                StateView,
                Fault,
            >(paid),
        decreases transactions@.len() - i,
    {
        let t = &transactions[i];
        let ghost prefix = body.subrange(0, i as int);
        proof {
            assert(prefix.drop_last() =~= body.subrange(0, i - 1));
            assert(prefix.last() == *t);
            tx::lemma_tx_len(*t);
        }
        let size: usize = t.encode().len();
        if size > MAX_TRANSACTION_SIZE {
            return Err(CoreError::TransactionSizeExceeded(size, MAX_TRANSACTION_SIZE));
        }
        if !t.verify_signature() {
            proof {
                lemma_fault_sticks(paid.accounts, body, i as int);
            }
            return Err(
                CoreError::InvalidSignature(
                    "transaction signature verification failed".to_string(),
                ),
            );
        }
        match working.apply_transaction(&t.sender_address(), &t.recipient, t.amount.0, t.nonce.0) {
            Ok(_) => {},
            Err(e) => {
                proof {
                    lemma_fault_sticks(paid.accounts, body, i as int);
                }
                return Err(e);
            },
        }
        i = i + 1;
    }
    assert(body.subrange(0, i - 1) =~= body);
    Ok(())
}

/// A transfer that is refused decides the outcome, whatever follows it.
proof fn lemma_fault_sticks(accounts: Accounts, txs: Seq<Transaction>, n: int)
    requires
        0 <= n <= txs.len(),
        apply_transfers(accounts, txs.subrange(0, n)) is Err,
    ensures
        apply_transfers(accounts, txs) == apply_transfers(accounts, txs.subrange(0, n)),
    decreases txs.len(),
{
    if n == txs.len() {
        assert(txs.subrange(0, n) =~= txs);
    } else {
        assert(txs.drop_last().subrange(0, n) =~= txs.subrange(0, n));
        lemma_fault_sticks(accounts, txs.drop_last(), n);
    }
}

/// Validate a complete block against its context and apply it to the state.
///
/// Gives the state root after the block. A refused block leaves the state as
/// it was.
pub fn validate_block(block: &Block, ctx: &BlockValidationContext, state: &mut State) -> (r: Result<
    hash::Hash,
>)
    ensures
        match after_block(block@, *ctx, old(state)@) {
            Ok(after) => r == Ok::<hash::Hash, CoreError>(block.header.state_root) && final(state)@
                == after,
            Err(k) => r matches Err(e) && e.fault() == k && final(state)@ == old(state)@,
        },
        header_fault(block@, *ctx) is None && crowded(block@) ==> (r matches Err(e)
            && e.fault() == ErrorKind::InvalidBlock.because(over_cap())),
{
    proof {
        reveal(after_block);
    }
    match check_header(block, ctx) {
        Ok(_) => {},
        Err(e) => {
            return Err(e);
        },
    }
    match check_contents(block) {
        Ok(_) => {},
        Err(e) => {
            return Err(e);
        },
    }
    // Everything is applied before the state root can be checked, so it is
    // applied to a copy.
    let mut working = state.clone();
    match apply_transactions(&block.transactions, block.header.height.0, &mut working) {
        Ok(_) => {},
        Err(e) => {
            return Err(e);
        },
    }
    let root = working.compute_state_root();
    if root != block.header.state_root {
        return Err(CoreError::InvalidStateRoot(
                differing(block.header.state_root.to_hex().as_str(), root.to_hex().as_str()),
            ));
    }
    let merkle = Block::compute_tx_merkle_root(&block.transactions);
    if merkle != block.header.tx_merkle_root {
        return Err(CoreError::InvalidMerkleRoot(
                differing(
                    block.header.tx_merkle_root.to_hex().as_str(),
                    merkle.to_hex().as_str(),
                ),
            ));
    }
    *state = working;
    Ok(root)
}

// ---------------------------------------------------------------------------
// Laws
// ---------------------------------------------------------------------------

/// Transfers neither make nor destroy money, however many of them there are.
pub proof fn transfers_conserve_supply(accounts: Accounts, txs: Seq<Transaction>)
    requires
        keymap::ascending(accounts),
        apply_transfers(accounts, txs) is Ok,
    ensures
        keymap::ascending(apply_transfers(accounts, txs)->Ok_0),
        state::total_balance(apply_transfers(accounts, txs)->Ok_0) == state::total_balance(
            accounts,
        ),
    decreases txs.len(),
{
    if txs.len() > 0 {
        transfers_conserve_supply(accounts, txs.drop_last());
        let a = apply_transfers(accounts, txs.drop_last())->Ok_0;
        let t = txs.last();
        state::transfer_conserves_supply(
            a,
            tx::sender_of(t),
            t.recipient.0.0,
            t.amount.0,
            t.nonce.0,
            tx::sender_of(t),
        );
    }
}

/// A valid block mints the subsidy and nothing more: supply and balances grow
/// by it together, the supply stays within its cap, and the state it leads to
/// has the root that its header declares.
pub proof fn valid_block_mints_only_the_subsidy(
    b: BlockView,
    ctx: BlockValidationContext,
    s: StateView,
)
    requires
        keymap::ascending(s.accounts),
        after_block(b, ctx, s) is Ok,
    ensures
        ({
            let after = after_block(b, ctx, s)->Ok_0;
            &&& keymap::ascending(after.accounts)
            &&& after.supply == s.supply + state::subsidy_at(s.supply)
            &&& after.supply <= MAX_SUPPLY_UNITS
            &&& state::total_balance(after.accounts) == state::total_balance(s.accounts)
                + state::subsidy_at(s.supply)
            &&& state::state_root(after.accounts) == b.header.state_root
        }),
{
    reveal(after_block);
    state::subsidy_respects_the_cap(s, b.txs[0].recipient.0.0);
    let paid = state::after_subsidy(s, b.txs[0].recipient.0.0)->Ok_0;
    transfers_conserve_supply(paid.accounts, b.txs.subrange(1, b.txs.len() as int));
}

/// Where each field of a header stands in its bytes, and that a header is known
/// by their digest.
pub proof fn header_layout(h: BlockHeader)
    ensures
        ({
            let s = h.spec_encode();
            &&& s.len() == 124
            &&& s.subrange(0, 4) == bytes::le_bytes(h.version as nat, 4)
            &&& s.subrange(4, 36) == h.previous_hash.0@
            &&& s.subrange(36, 68) == h.state_root.0@
            &&& s.subrange(68, 100) == h.tx_merkle_root.0@
            &&& s.subrange(100, 108) == bytes::le_bytes(h.timestamp as nat, 8)
            &&& s.subrange(108, 112) == bytes::le_bytes(h.bits.0 as nat, 4)
            &&& s.subrange(112, 116) == bytes::le_bytes(h.height.0 as nat, 4)
            &&& s.subrange(116, 124) == bytes::le_bytes(h.nonce as nat, 8)
            &&& header_hash(h).0 == hash::spec_blake3(s)
        }),
{
    reveal(header_hash);
    lemma_header_len(h);
    bytes::lemma_le_bytes_len(h.version as nat, 4);
    bytes::lemma_le_bytes_len(h.timestamp as nat, 8);
    bytes::lemma_le_bytes_len(h.bits.0 as nat, 4);
    bytes::lemma_le_bytes_len(h.height.0 as nat, 4);
    bytes::lemma_le_bytes_len(h.nonce as nat, 8);
    let s = h.spec_encode();
    assert(s.subrange(0, 4) =~= bytes::le_bytes(h.version as nat, 4));
    assert(s.subrange(4, 36) =~= h.previous_hash.0@);
    assert(s.subrange(36, 68) =~= h.state_root.0@);
    assert(s.subrange(68, 100) =~= h.tx_merkle_root.0@);
    assert(s.subrange(100, 108) =~= bytes::le_bytes(h.timestamp as nat, 8));
    assert(s.subrange(108, 112) =~= bytes::le_bytes(h.bits.0 as nat, 4));
    assert(s.subrange(112, 116) =~= bytes::le_bytes(h.height.0 as nat, 4));
    assert(s.subrange(116, 124) =~= bytes::le_bytes(h.nonce as nat, 8));
}

/// Where each transaction stands in the bytes of them all.
pub proof fn transactions_stand_in_order(txs: Seq<Transaction>, i: int)
    requires
        0 <= i < txs.len(),
    ensures
        txs_bytes(txs).len() == 132 * txs.len(),
        txs_bytes(txs).subrange(132 * i, 132 * i + 132) == txs[i].spec_encode(),
    decreases txs.len(),
{
    lemma_txs_len(txs);
    lemma_txs_len(txs.drop_last());
    tx::lemma_tx_len(txs.last());
    let head = txs_bytes(txs.drop_last());
    if i < txs.len() - 1 {
        transactions_stand_in_order(txs.drop_last(), i);
        assert(txs_bytes(txs).subrange(132 * i, 132 * i + 132) =~= head.subrange(
            132 * i,
            132 * i + 132,
        ));
    } else {
        assert(txs_bytes(txs).subrange(132 * i, 132 * i + 132) =~= txs.last().spec_encode());
    }
}

/// Whether bytes are those of all of some transactions, each at its place.
pub open spec fn holds_every_transaction(bs: Seq<u8>, txs: Seq<Transaction>) -> bool {
    &&& bs.len() == 132 * txs.len()
    &&& forall|i: int|
        0 <= i < txs.len() ==> bs.subrange(132 * i, 132 * i + 132) == (
        #[trigger] txs[i]).spec_encode()
}

/// The root commits to every transaction: it is the digest of the bytes of all
/// of them in order, and zero for none.
pub proof fn root_commits_to_every_transaction(txs: Seq<Transaction>)
    ensures
        txs.len() == 0 ==> tx_root(txs).0@ == bytes::zeros(32),
        txs.len() > 0 ==> exists|bs: Seq<u8>|
            #![trigger hash::spec_blake3(bs)]
            holds_every_transaction(bs, txs) && tx_root(txs).0 == hash::spec_blake3(bs),
{
    if txs.len() == 0 {
        hash::lemma_zero_hash();
    } else {
        let bs = txs_bytes(txs);
        lemma_txs_len(txs);
        assert forall|i: int| 0 <= i < txs.len() implies bs.subrange(132 * i, 132 * i + 132) == (
        #[trigger] txs[i]).spec_encode() by {
            transactions_stand_in_order(txs, i);
        }
        assert(tx_root(txs).0 == hash::spec_blake3(bs));
    }
}

/// Different lists of transactions have different roots, unless BLAKE3 gives two
/// different inputs one digest. Neither list may be empty: the root of none is
/// zero, whatever digests are.
pub proof fn changed_transactions_change_the_root(a: Seq<Transaction>, b: Seq<Transaction>)
    requires
        a.len() > 0,
        b.len() > 0,
        tx_root(a) == tx_root(b),
    ensures
        a == b || schnorr::digests_collide(),
{
    lemma_txs_len(a);
    lemma_txs_len(b);
    let x = txs_bytes(a);
    let y = txs_bytes(b);
    if x == y {
        assert(a.len() == b.len());
        tx_bytes_injective(a, b);
    } else {
        assert(x != y && hash::spec_blake3(x) == hash::spec_blake3(y));
    }
}

// ---------------------------------------------------------------------------
// Reading
// ---------------------------------------------------------------------------

/// A block is read from bytes exactly when there is a header, a count, and behind
/// it nothing but as many transactions of 132 bytes, each of which begins with a
/// key that can be used.
pub proof fn block_is_readable_exactly_when(data: Seq<u8>)
    ensures
        block_decodable(data) <==> {
            &&& data.len() >= 124
            &&& serialize::leb_value(data, 124) matches Some((n, pos)) && data.len() == pos + 132 * n
                && forall|i: int|
                0 <= i < n ==> #[trigger] tx::starts_with_a_usable_key(
                    data.subrange(pos + 132 * i, data.len() as int),
                )
        },
{
    if data.len() >= 124 && serialize::leb_value(data, 124) is Some {
        let (n, pos) = serialize::leb_value(data, 124)->0;
        if data.len() == pos + 132 * n {
            assert forall|i: int| 0 <= i < n implies tx::tx_decodable_prefix(
                #[trigger] data.subrange(pos + 132 * i, data.len() as int),
            ) == tx::starts_with_a_usable_key(
                data.subrange(pos + 132 * i, data.len() as int),
            ) by {
                let s = data.subrange(pos + 132 * i, data.len() as int);
                tx::transaction_is_readable_exactly_when(s);
                serialize::lemma_leb_value_in(data, 124);
                assert(pos + 132 * i + 132 <= data.len());
            }
            if block_decodable(data) {
                assert forall|i: int| 0 <= i < n implies #[trigger] tx::starts_with_a_usable_key(
                    data.subrange(pos + 132 * i, data.len() as int),
                ) by {
                    assert(tx::tx_decodable_prefix(
                        data.subrange(pos + 132 * i, data.len() as int),
                    ));
                }
            }
            if forall|i: int|
                0 <= i < n ==> #[trigger] tx::starts_with_a_usable_key(
                    data.subrange(pos + 132 * i, data.len() as int),
                ) {
                assert forall|i: int| 0 <= i < n implies #[trigger] tx::tx_decodable_prefix(
                    data.subrange(pos + 132 * i, data.len() as int),
                ) by {
                    assert(tx::starts_with_a_usable_key(
                        data.subrange(pos + 132 * i, data.len() as int),
                    ));
                }
            }
        }
    }
}

/// What is read is the header in the first 124 bytes and, behind the count, the
/// transactions in order, and nothing else could be.
pub proof fn block_is_read_as_it_stands(data: Seq<u8>, b: BlockView, i: int)
    requires
        block_decodable(data),
        block_denotes(data, b),
        0 <= i < b.txs.len(),
    ensures
        data.subrange(0, 124) == b.header.spec_encode(),
        serialize::leb_value(data, 124) matches Some((n, pos)) && n == b.txs.len()
            && data.subrange(pos + 132 * i, pos + 132 * i + 132) == b.txs[i].spec_encode(),
{
    let (n, pos) = serialize::leb_value(data, 124)->0;
    serialize::lemma_leb_value_in(data, 124);
    let tail = data.subrange(pos, data.len() as int);
    transactions_stand_in_order(b.txs, i);
    assert(data.subrange(pos + 132 * i, pos + 132 * i + 132) =~= tail.subrange(
        132 * i,
        132 * i + 132,
    ));
}

/// A header is read from exactly 124 bytes.
pub proof fn header_is_readable_exactly_when(data: Seq<u8>, h: BlockHeader)
    ensures
        BlockHeader::decodable(data) <==> data.len() == 124,
        BlockHeader::decodable_prefix(data) <==> data.len() >= 124,
        BlockHeader::denotes(data, h) <==> data == h.spec_encode(),
        BlockHeader::denotes_prefix(data, h, 124) <==> data.subrange(0, 124) == h.spec_encode(),
{
}

} // verus!
