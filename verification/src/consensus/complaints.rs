//! What is said of a block, a transfer or a branch that is refused.

use vstd::prelude::*;
use crate::block;
use crate::block::{BlockHeader, BlockValidationContext, BlockView};
use crate::bytes;
use crate::consensus::chain;
use crate::consensus::retarget;
use crate::crypto::error::CryptoError;
use crate::error::{ErrorKind, Fault};
use crate::hash;
use crate::p2p::address::PeerTextError;
use crate::p2p::node::event::P2pError;
use crate::serialize;
use crate::serialize::CanonicalDecode;
use crate::state;
use crate::state::Accounts;
use crate::text;
use crate::text::HexError;
use crate::tx;
use crate::tx::Transaction;

verus! {

/// A transfer is refused for the first thing that is wrong with it, with the
/// numbers that do not fit.
pub proof fn refused_transfer_is_told_why(
    accounts: Accounts,
    from: [u8; 20],
    to: [u8; 20],
    amount: u64,
    nonce: u64,
)
    ensures
        ({
            let r = state::after_transfer(accounts, from, to, amount, nonce);
            let s = state::account_at(accounts, from);
            let t = state::account_at(accounts, to);
            let sound = amount > 0 && from != to;
            let due = sound && nonce == s.nonce;
            let covered = due && amount <= s.balance;
            &&& amount == 0 ==> r == Err::<Accounts, Fault>(
                Fault {
                    kind: ErrorKind::InvalidTransaction,
                    detail: "amount must be greater than zero"@,
                },
            )
            &&& amount > 0 && from == to ==> r == Err::<Accounts, Fault>(
                Fault {
                    kind: ErrorKind::InvalidTransaction,
                    detail: "sender and recipient must differ"@,
                },
            )
            &&& sound && !due ==> r == Err::<Accounts, Fault>(
                Fault {
                    kind: ErrorKind::InvalidNonce,
                    detail: "expected nonce "@ + text::decimal(s.nonce as nat) + ", got "@
                        + text::decimal(nonce as nat),
                },
            )
            &&& due && !covered ==> r == Err::<Accounts, Fault>(
                Fault {
                    kind: ErrorKind::InsufficientBalance,
                    detail: "account has "@ + text::decimal(s.balance as nat)
                        + " units, tried to send "@ + text::decimal(amount as nat),
                },
            )
            &&& covered && nonce == u64::MAX ==> r == Err::<Accounts, Fault>(
                Fault { kind: ErrorKind::Overflow, detail: "nonce overflow"@ },
            )
            &&& covered && nonce < u64::MAX && t.balance + amount > u64::MAX ==> r == Err::<
                Accounts,
                Fault,
            >(
                Fault {
                    kind: ErrorKind::Overflow,
                    detail: "recipient balance overflow: "@ + text::decimal(t.balance as nat)
                        + " + "@ + text::decimal(amount as nat),
                },
            )
        }),
{
}

/// Target bits are written as the four bytes that they are, the highest first.
pub proof fn bits_are_written_highest_first(bits: u32, s: Seq<u8>)
    requires
        s.len() == 4,
        bytes::be_value(s) == bits,
    ensures
        block::bits_words(bits) == text::hex_text(s),
{
    let t = seq![
        (bits / 0x100_0000) as u8,
        (bits / 0x1_0000 % 0x100) as u8,
        (bits / 0x100 % 0x100) as u8,
        (bits % 0x100) as u8,
    ];
    reveal_with_fuel(bytes::be_value, 5);
    assert(bytes::be_value(t) == bits);
    bytes::lemma_be_value_injective(s, t);
}

/// A header is refused for the first thing that does not fit, with what was
/// expected and what was found.
pub proof fn refused_header_is_told_why(b: BlockView, ctx: BlockValidationContext)
    ensures
        ({
            let r = block::header_fault(b, ctx);
            let h = b.header;
            let size = block::block_bytes(b).len();
            let small = size <= 1_048_576;
            let ours = small && h.version == 1;
            let linked = ours && h.previous_hash == ctx.previous_hash;
            let placed = linked && h.height == ctx.expected_height;
            let past = placed && h.timestamp > ctx.median_time_past;
            let timely = past && h.timestamp <= ctx.network_time + 20;
            &&& !small ==> (r matches Some(f) && f.detail == text::decimal(size) + " bytes > max "@
                + text::decimal(1_048_576))
            &&& small && !ours ==> r == Some(
                Fault {
                    kind: ErrorKind::InvalidBlock,
                    detail: "unsupported version: "@ + text::decimal(h.version as nat),
                },
            )
            &&& ours && !linked ==> r == Some(
                Fault {
                    kind: ErrorKind::InvalidBlock,
                    detail: "previous hash mismatch: "@ + ("expected "@ + text::hex_text(
                        ctx.previous_hash.0@,
                    ) + ", got "@ + text::hex_text(h.previous_hash.0@)),
                },
            )
            &&& linked && !placed ==> r == Some(
                Fault {
                    kind: ErrorKind::InvalidBlock,
                    detail: "height mismatch: "@ + ("expected "@ + text::decimal(
                        ctx.expected_height.0 as nat,
                    ) + ", got "@ + text::decimal(h.height.0 as nat)),
                },
            )
            &&& placed && !past ==> r == Some(
                Fault {
                    kind: ErrorKind::InvalidTimestamp,
                    detail: "block timestamp "@ + text::decimal(h.timestamp as nat)
                        + " must be after MTP "@ + text::decimal(ctx.median_time_past as nat),
                },
            )
            &&& past && !timely ==> r == Some(
                Fault {
                    kind: ErrorKind::InvalidTimestamp,
                    detail: "block timestamp "@ + text::decimal(h.timestamp as nat)
                        + " is too far in the future (network time: "@ + text::decimal(
                        ctx.network_time as nat,
                    ) + ")"@,
                },
            )
            &&& timely && h.bits != ctx.expected_bits ==> r == Some(
                Fault {
                    kind: ErrorKind::InvalidDifficulty,
                    detail: "expected bits "@ + block::bits_words(ctx.expected_bits.0) + ", got "@
                        + block::bits_words(h.bits.0),
                },
            )
        }),
{
}

/// What is said of a block whose coinbase or whose senders do not fit.
pub proof fn refused_contents_are_told_why(b: BlockView)
    ensures
        ({
            let r = block::contents_fault(b);
            let reward = b.txs[0].amount.0;
            &&& b.txs.len() == 0 ==> r == Some(
                Fault {
                    kind: ErrorKind::InvalidBlock,
                    detail: "block must contain at least one transaction (coinbase)"@,
                },
            )
            &&& b.txs.len() > 0 && reward != 1_000_000 ==> r == Some(
                Fault {
                    kind: ErrorKind::InvalidBlock,
                    detail: "coinbase reward must be exactly "@ + text::decimal(1_000_000)
                        + " units, got "@ + text::decimal(reward as nat),
                },
            )
            &&& b.txs.len() > 0 && reward == 1_000_000 && b.txs[0].nonce.0 != 0 ==> r == Some(
                Fault { kind: ErrorKind::InvalidBlock, detail: "coinbase nonce must be 0"@ },
            )
            &&& b.txs.len() > 0 && reward == 1_000_000 && b.txs[0].nonce.0 == 0 && !(forall|
                sender: [u8; 20],
            | #[trigger]
                block::sent_by(b.txs.subrange(1, b.txs.len() as int), sender) <= 2) ==> r == Some(
                Fault {
                    kind: ErrorKind::InvalidBlock,
                    detail: "a sender has more than the transactions allowed per block: "@
                        + text::decimal(2),
                },
            )
        }),
{
}

/// What is said of a branch that cannot be followed, or of a block that has no
/// place on one.
pub proof fn missing_links_are_named(h: BlockHeader, k: hash::Hash, height: u32, parent: u32)
    ensures
        chain::unavailable(k) == (Fault {
            kind: ErrorKind::InvalidBlock,
            detail: "cannot replay branch: block "@ + text::hex_text(k.0@) + " is not available"@,
        }),
        chain::unknown_branch(k) == (Fault {
            kind: ErrorKind::InvalidBlock,
            detail: "branch block "@ + text::hex_text(k.0@) + " is unknown"@,
        }),
        chain::missing_parent(h) == (Fault {
            kind: ErrorKind::InvalidBlock,
            detail: "missing parent "@ + text::hex_text(h.previous_hash.0@)
                + " for block at height "@ + text::decimal(h.height.0 as nat),
        }),
        chain::wrong_height(height, parent) == (Fault {
            kind: ErrorKind::InvalidBlock,
            detail: "height "@ + text::decimal(height as nat) + " does not follow parent at "@
                + text::decimal(parent as nat),
        }),
        retarget::missing_at(height) == (Fault {
            kind: ErrorKind::InvalidDifficulty,
            detail: "missing header for height "@ + text::decimal(height as nat),
        }),
{
}

/// What the message of each kind of error begins with.
pub proof fn errors_begin_with_their_kind(detail: Seq<char>, a: usize, b: usize)
    ensures
        (Fault { kind: ErrorKind::Serialization, detail }).words() == "serialization error: "@
            + detail,
        (Fault { kind: ErrorKind::InvalidFormat, detail }).words() == "invalid format: "@ + detail,
        (Fault { kind: ErrorKind::Overflow, detail }).words() == "arithmetic overflow: "@ + detail,
        (Fault { kind: ErrorKind::SupplyInvariant, detail }).words()
            == "supply invariant violation: "@ + detail,
        (Fault { kind: ErrorKind::InvalidBlock, detail }).words() == "invalid block: "@ + detail,
        (Fault { kind: ErrorKind::InvalidTransaction, detail }).words() == "invalid transaction: "@
            + detail,
        (Fault { kind: ErrorKind::InvalidSignature, detail }).words() == "invalid signature: "@
            + detail,
        (Fault { kind: ErrorKind::InvalidNonce, detail }).words() == "invalid nonce: "@ + detail,
        (Fault { kind: ErrorKind::InsufficientBalance, detail }).words()
            == "insufficient balance: "@ + detail,
        (Fault { kind: ErrorKind::InvalidStateRoot, detail }).words() == "invalid state root: "@
            + detail,
        (Fault { kind: ErrorKind::InvalidMerkleRoot, detail }).words() == "invalid merkle root: "@
            + detail,
        (Fault { kind: ErrorKind::InvalidProofOfWork, detail }).words()
            == "invalid proof of work: "@ + detail,
        (Fault { kind: ErrorKind::InvalidTimestamp, detail }).words() == "invalid timestamp: "@
            + detail,
        (Fault { kind: ErrorKind::InvalidDifficulty, detail }).words() == "invalid difficulty: "@
            + detail,
        (Fault { kind: ErrorKind::BlockSizeExceeded(a, b), detail }).words()
            == "block size exceeded: "@ + detail,
        (Fault { kind: ErrorKind::TransactionSizeExceeded(a, b), detail }).words()
            == "transaction size exceeded: "@ + detail,
        (Fault { kind: ErrorKind::MempoolFull(a, b), detail }).words() == "mempool full: size "@
            + detail,
        (Fault { kind: ErrorKind::PeerBanned, detail }).words() == "peer banned: "@ + detail,
        (Fault { kind: ErrorKind::InvalidNetworkId, detail }).words() == "invalid network ID: "@
            + detail,
        (Fault { kind: ErrorKind::Storage, detail }).words() == "storage error: "@ + detail,
        (Fault { kind: ErrorKind::Genesis, detail }).words() == "genesis error: "@ + detail,
        (Fault { kind: ErrorKind::Io, detail }).words() == "io error: "@ + detail,
{
}

/// What is said of bytes that are no number with an end, no bytes behind their
/// length, no header, no transaction or no block.
pub proof fn bad_bytes_are_told_why(data: Seq<u8>, at: int, n: nat)
    ensures
        serialize::leb_end(data, at, 0) is Truncated ==> serialize::leb_fault(data, at) == (Fault {
            kind: ErrorKind::Serialization,
            detail: "LEB128 truncated"@,
        }),
        serialize::leb_end(data, at, 0) is TooLong ==> serialize::leb_fault(data, at) == (Fault {
            kind: ErrorKind::Serialization,
            detail: "LEB128 value too large"@,
        }),
        serialize::leb_value(data, at) is None ==> serialize::prefixed_fault(data, at)
            == serialize::leb_fault(data, at),
        serialize::leb_value(data, at) matches Some((len, pos)) ==> serialize::prefixed_fault(
            data,
            at,
        ) == (Fault {
            kind: ErrorKind::Serialization,
            detail: if pos + len > usize::MAX {
                "bytes: length overflow"@
            } else {
                "bytes: declared length exceeds data"@
            },
        }),
        block::header_size_fault(n) == (Fault {
            kind: ErrorKind::Serialization,
            detail: "block header: expected 124 bytes, got "@ + text::decimal(n),
        }),
        tx::wrong_size(n) == (Fault {
            kind: ErrorKind::Serialization,
            detail: "transaction: expected 132 bytes, got "@ + text::decimal(n),
        }),
        Transaction::decode_fault(data) == if data.len() != 132 {
            tx::wrong_size(data.len())
        } else {
            Fault {
                kind: ErrorKind::Serialization,
                detail: "invalid public key: "@ + "InvalidPublicKey"@,
            }
        },
        data.len() < 124 ==> block::block_fault(data) == block::header_size_fault(data.len()),
        data.len() >= 124 && serialize::leb_value(data, 124) is None ==> block::block_fault(data)
            == serialize::leb_fault(data, 124),
        data.len() >= 124 ==> (serialize::leb_value(data, 124) matches Some((count, pos)) ==> {
            let most = data.len() / 132 + 1;
            &&& count > most ==> block::block_fault(data) == (Fault {
                kind: ErrorKind::Serialization,
                detail: "block: tx_count "@ + text::decimal(count) + " exceeds maximum possible "@
                    + text::decimal(most),
            })
            &&& count <= most ==> block::block_fault(data) == block::txs_fault(
                data.subrange(pos, data.len() as int),
                count,
            )
        }),
        block::txs_fault(data, 0) == (Fault {
            kind: ErrorKind::Serialization,
            detail: "block: "@ + text::decimal(data.len()) + " trailing bytes after transactions"@,
        }),
        n > 0 && tx::tx_decodable_prefix(data) ==> block::txs_fault(data, n) == block::txs_fault(
            data.subrange(132, data.len() as int),
            (n - 1) as nat,
        ),
        n > 0 && !tx::tx_decodable_prefix(data) ==> block::txs_fault(data, n)
            == Transaction::partial_fault(data),
{
}

/// What is said in words of a key, a connection or an address that is no good.
pub proof fn other_faults_have_words(s: String, t: Seq<char>, c: char, index: usize)
    ensures
        CryptoError::InvalidSecretKey(s).spec_message() == "invalid secret key: "@ + s@,
        CryptoError::InvalidPublicKey(s).spec_message() == "invalid public key: "@ + s@,
        CryptoError::InvalidSignature(s).spec_message() == "invalid signature: "@ + s@,
        CryptoError::InvalidAddress(s).spec_message() == "invalid address: "@ + s@,
        CryptoError::RandomX(s).spec_message() == "randomx error: "@ + s@,
        CryptoError::Noise(s).spec_message() == "noise error: "@ + s@,
        HexError::OddLength.words() == "Odd number of digits"@,
        HexError::InvalidStringLength.words() == "Invalid string length"@,
        (HexError::InvalidHexCharacter { c, index }).words() == "Invalid character "@
            + text::spec_debug_char(c) + (" at position "@ + text::decimal(index as nat)),
        PeerTextError::Shape.words(t) == "expected <node-id>.<noise-key>@<host:port>, got "@
            + text::spec_debug_text(t),
        PeerTextError::BadNodeId(HexError::OddLength).words(t) == "bad node id: "@
            + "Odd number of digits"@,
        PeerTextError::BadNoiseKey(HexError::OddLength).words(t) == "bad noise key: "@
            + "Odd number of digits"@,
        P2pError::Io(s).words() == "io: "@ + s@,
        P2pError::Protocol(s).words() == "protocol: "@ + s@,
{
}

} // verus!
