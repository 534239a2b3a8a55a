//! Protocol constants. Changing any of these requires a hard fork.

use vstd::prelude::*;

verus! {

/// Project identity.
pub const PROJECT_NAME: &'static str = "Chroma";
pub const TICKER: &'static str = "CHR";
pub const SLOGAN: &'static str = "We are truly free.";

/// 1 CHR is this many units; all arithmetic is on whole units.
pub const UNITS_PER_CHR: u64 = 1_000_000;
pub const MAX_SUPPLY_CHR: u64 = 100_000_000;
pub const MAX_SUPPLY_UNITS: u128 = 100_000_000_000_000;
pub const INITIAL_SUPPLY_UNITS: u128 = 0;

/// Block reward: one CHR per block.
pub const BLOCK_REWARD_UNITS: u64 = UNITS_PER_CHR;

/// Block timing.
pub const TARGET_BLOCK_TIME_SECS: u64 = 10;
pub const DIFFICULTY_ADJUSTMENT_WINDOW: u32 = 10;
pub const TARGET_TIME_PER_WINDOW_SECS: u64 = 100;

/// How far one retarget may move the target, up and down.
pub const MAX_DIFFICULTY_INCREASE_FACTOR: u64 = 4;
pub const MAX_DIFFICULTY_DECREASE_FACTOR: u64 = 4;

/// Size limits in bytes.
pub const MAX_BLOCK_SIZE: usize = 1_048_576;
pub const MAX_TRANSACTION_SIZE: usize = 65536;

/// How many transactions one account may have in a single block.
///
/// A consensus rule, not a relay policy: a block carrying more than this from
/// one sender is invalid. The coinbase is exempt, since it has no sender.
pub const MAX_TXS_PER_SENDER_PER_BLOCK: usize = 2;

/// Mempool limits.
pub const MAX_MEMPOOL_SIZE: usize = 50_000_000;
pub const MAX_MEMPOOL_TXS: usize = 100_000;

/// Network.
pub const DEFAULT_PORT: u16 = 8333;
pub const PROTOCOL_VERSION: u32 = 1;

/// Genesis: 2026-01-01 00:00:00 UTC, at difficulty one.
pub const GENESIS_TIMESTAMP: u64 = 1767225600;
pub const GENESIS_TARGET_BITS: u32 = 0x1d00ffff;

/// Timestamp validation.
pub const MTP_WINDOW: usize = 7;
pub const MAX_FUTURE_TIMESTAMP_OFFSET: i64 = 20;

/// RandomX epochs, in blocks.
pub const RANDOMX_EPOCH_LENGTH: u32 = 1000;
pub const RANDOMX_SEED_LAG: u32 = 100;
pub const GENESIS_RANDOMX_SEED: &'static str = "Chroma Genesis Seed";

/// How many blocks can be rolled back without replaying the chain.
pub const REORG_JOURNAL_DEPTH: u32 = 2000;

/// State.
pub const ADDRESS_HASH_LEN: usize = 20;
pub const ACCOUNT_VALUE_LEN: usize = 16;

/// Network identifiers.
pub const DEVNET_NETWORK_ID: &'static str = "chroma-devnet";
pub const TESTNET_NETWORK_ID: &'static str = "chroma-testnet";
pub const MAINNET_NETWORK_ID: &'static str = "chroma-mainnet";

/// Human readable part of an address.
pub const ADDRESS_HRP: &'static str = "chr";

/// Peer scoring.
pub const PEER_BAN_THRESHOLD: i32 = 100;

/// Rate limits per peer and second.
pub const PEER_MSG_RATE_LIMIT: usize = 100;
pub const PEER_TX_RATE_LIMIT: usize = 10;

/// Connection limits.
pub const DEFAULT_OUTBOUND_CONNECTIONS: usize = 8;
pub const DEFAULT_INBOUND_CONNECTIONS: usize = 128;

} // verus!
