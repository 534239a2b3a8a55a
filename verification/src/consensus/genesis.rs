//! The genesis block.

use vstd::prelude::*;
use vstd::string::*;
use crate::block;
use crate::block::{Block, BlockHeader};
use crate::consensus::params;
use crate::consensus::params::ChainParams;
use crate::constants::GENESIS_RANDOMX_SEED;
use crate::hash;
use crate::serialize::CanonicalEncode;
use crate::types::{BlockHeight, NetworkId};

verus! {

/// The header of a network's genesis block.
pub open spec fn genesis_header(params: ChainParams) -> BlockHeader {
    BlockHeader {
        version: 1,
        previous_hash: hash::zero_hash(),
        state_root: hash::zero_hash(),
        tx_merkle_root: hash::zero_hash(),
        timestamp: params.genesis_timestamp,
        bits: params.genesis_bits,
        height: BlockHeight(0),
        nonce: 0,
    }
}

/// Build the genesis block of the devnet.
pub fn build_genesis_block() -> (r: Block)
    ensures
        r.transactions@.len() == 0,
        exists|p: ChainParams|
            params::params_for(p, NetworkId::Devnet) && r.header == #[trigger] genesis_header(p),
{
    let p = ChainParams::devnet();
    let r = build_genesis_block_with(&p);
    assert(r.header == genesis_header(p));
    r
}

/// Build the genesis block for a network. Networks with different targets have
/// different ones.
pub fn build_genesis_block_with(params: &ChainParams) -> (r: Block)
    ensures
        r.header == genesis_header(*params),
        r.transactions@.len() == 0,
{
    let header = BlockHeader {
        version: 1,
        previous_hash: hash::Hash::zero(),
        state_root: hash::Hash::zero(),
        tx_merkle_root: hash::Hash::zero(),
        timestamp: params.genesis_timestamp,
        bits: params.genesis_bits,
        height: BlockHeight(0),
        nonce: 0,
    };
    Block { header, transactions: Vec::new() }
}

/// Get the genesis block hash of the devnet.
pub fn genesis_hash() -> (r: hash::Hash)
    ensures
        exists|p: ChainParams|
            params::params_for(p, NetworkId::Devnet) && r == block::header_hash(
                #[trigger] genesis_header(p),
            ),
{
    let b = build_genesis_block();
    b.hash()
}

/// The seed of the first epochs.
pub open spec fn genesis_seed() -> hash::Hash {
    hash::hash_of(GENESIS_RANDOMX_SEED.spec_bytes())
}

/// Get the genesis RandomX seed.
pub fn genesis_randomx_seed() -> (r: hash::Hash)
    ensures
        r == genesis_seed(),
{
    hash::blake3(GENESIS_RANDOMX_SEED.as_bytes())
}

/// Whether BLAKE3 gives two different inputs one digest.
pub open spec fn digests_collide() -> bool {
    exists|a: Seq<u8>, b: Seq<u8>| a != b && #[trigger] hash::hash_of(a) == #[trigger] hash::hash_of(b)
}

/// The genesis headers of networks that differ in target or time differ in
/// their bytes, and in their hashes unless BLAKE3 gives two different inputs
/// one digest.
pub proof fn genesis_tells_networks_apart(p: ChainParams, q: ChainParams)
    requires
        p.genesis_bits != q.genesis_bits || p.genesis_timestamp != q.genesis_timestamp,
    ensures
        genesis_header(p).spec_encode() != genesis_header(q).spec_encode(),
        block::header_hash(genesis_header(p)) != block::header_hash(genesis_header(q))
            || digests_collide(),
{
    reveal(block::header_hash);
    let a = genesis_header(p).spec_encode();
    let b = genesis_header(q).spec_encode();
    if a == b {
        block::header_encoding_injective(genesis_header(p), genesis_header(q));
    }
    if block::header_hash(genesis_header(p)) == block::header_hash(genesis_header(q)) {
        assert(a != b && hash::hash_of(a) == hash::hash_of(b));
    }
}

/// The genesis of the regression-test network is that of no other network:
/// its hash differs, unless BLAKE3 gives two different inputs one digest. The
/// other networks have the same target and time, and so one genesis.
pub proof fn regtest_genesis_stands_apart(
    p: ChainParams,
    q: ChainParams,
    r: ChainParams,
    n: NetworkId,
    m: NetworkId,
)
    requires
        params::params_for(p, NetworkId::Regtest),
        n != NetworkId::Regtest,
        params::params_for(q, n),
        m != NetworkId::Regtest,
        params::params_for(r, m),
    ensures
        block::header_hash(genesis_header(p)) != block::header_hash(genesis_header(q))
            || digests_collide(),
        genesis_header(q) == genesis_header(r),
{
    genesis_tells_networks_apart(p, q);
}

} // verus!
