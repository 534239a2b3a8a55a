//! Errors of the protocol rules.

use vstd::prelude::*;
use crate::text;

verus! {

/// Core protocol errors. The text says what was wrong.
#[derive(Debug, Clone, PartialEq, Eq)]
pub enum CoreError {
    Serialization(String),
    InvalidFormat(String),
    Overflow(String),
    SupplyInvariant(String),
    InvalidBlock(String),
    InvalidTransaction(String),
    InvalidSignature(String),
    InvalidNonce(String),
    InsufficientBalance(String),
    InvalidStateRoot(String),
    InvalidMerkleRoot(String),
    InvalidProofOfWork(String),
    InvalidTimestamp(String),
    InvalidDifficulty(String),
    /// The size found and the size allowed.
    BlockSizeExceeded(usize, usize),
    /// The size found and the size allowed.
    TransactionSizeExceeded(usize, usize),
    /// The size found and the size allowed.
    MempoolFull(usize, usize),
    PeerBanned(String),
    InvalidNetworkId(String),
    Storage(String),
    Genesis(String),
    Io(String),
}

/// An error without its text, for contracts.
pub enum ErrorKind {
    Serialization,
    InvalidFormat,
    Overflow,
    SupplyInvariant,
    InvalidBlock,
    InvalidTransaction,
    InvalidSignature,
    InvalidNonce,
    InsufficientBalance,
    InvalidStateRoot,
    InvalidMerkleRoot,
    InvalidProofOfWork,
    InvalidTimestamp,
    InvalidDifficulty,
    BlockSizeExceeded(usize, usize),
    TransactionSizeExceeded(usize, usize),
    MempoolFull(usize, usize),
    PeerBanned,
    InvalidNetworkId,
    Storage,
    Genesis,
    Io,
}

impl ErrorKind {
    /// What the message of such an error begins with.
    pub open spec fn label(self) -> Seq<char> {
        match self {
            ErrorKind::Serialization => "serialization error: "@,
            ErrorKind::InvalidFormat => "invalid format: "@,
            ErrorKind::Overflow => "arithmetic overflow: "@,
            ErrorKind::SupplyInvariant => "supply invariant violation: "@,
            ErrorKind::InvalidBlock => "invalid block: "@,
            ErrorKind::InvalidTransaction => "invalid transaction: "@,
            ErrorKind::InvalidSignature => "invalid signature: "@,
            ErrorKind::InvalidNonce => "invalid nonce: "@,
            ErrorKind::InsufficientBalance => "insufficient balance: "@,
            ErrorKind::InvalidStateRoot => "invalid state root: "@,
            ErrorKind::InvalidMerkleRoot => "invalid merkle root: "@,
            ErrorKind::InvalidProofOfWork => "invalid proof of work: "@,
            ErrorKind::InvalidTimestamp => "invalid timestamp: "@,
            ErrorKind::InvalidDifficulty => "invalid difficulty: "@,
            ErrorKind::BlockSizeExceeded(_, _) => "block size exceeded: "@,
            ErrorKind::TransactionSizeExceeded(_, _) => "transaction size exceeded: "@,
            ErrorKind::MempoolFull(_, _) => "mempool full: size "@,
            ErrorKind::PeerBanned => "peer banned: "@,
            ErrorKind::InvalidNetworkId => "invalid network ID: "@,
            ErrorKind::Storage => "storage error: "@,
            ErrorKind::Genesis => "genesis error: "@,
            ErrorKind::Io => "io error: "@,
        }
    }

    /// Such an error with these details.
    pub open spec fn because(self, detail: Seq<char>) -> Fault {
        Fault { kind: self, detail }
    }
}

/// What an error says.
#[verifier::ext_equal]
pub struct Fault {
    pub kind: ErrorKind,
    /// What follows the fixed beginning of its message.
    pub detail: Seq<char>,
}

/// The complaint that bytes do not stand for what they should.
pub open spec fn malformed(detail: Seq<char>) -> Fault {
    ErrorKind::Serialization.because(detail)
}

impl Fault {
    /// The message to show.
    pub open spec fn words(self) -> Seq<char> {
        self.kind.label() + self.detail
    }
}

/// Result type for core operations.
pub type Result<T> = std::result::Result<T, CoreError>;

impl CoreError {
    /// Which error this is, whatever its text says.
    pub open spec fn kind(&self) -> ErrorKind {
        match *self {
            CoreError::Serialization(_) => ErrorKind::Serialization,
            CoreError::InvalidFormat(_) => ErrorKind::InvalidFormat,
            CoreError::Overflow(_) => ErrorKind::Overflow,
            CoreError::SupplyInvariant(_) => ErrorKind::SupplyInvariant,
            CoreError::InvalidBlock(_) => ErrorKind::InvalidBlock,
            CoreError::InvalidTransaction(_) => ErrorKind::InvalidTransaction,
            CoreError::InvalidSignature(_) => ErrorKind::InvalidSignature,
            CoreError::InvalidNonce(_) => ErrorKind::InvalidNonce,
            CoreError::InsufficientBalance(_) => ErrorKind::InsufficientBalance,
            CoreError::InvalidStateRoot(_) => ErrorKind::InvalidStateRoot,
            CoreError::InvalidMerkleRoot(_) => ErrorKind::InvalidMerkleRoot,
            CoreError::InvalidProofOfWork(_) => ErrorKind::InvalidProofOfWork,
            CoreError::InvalidTimestamp(_) => ErrorKind::InvalidTimestamp,
            CoreError::InvalidDifficulty(_) => ErrorKind::InvalidDifficulty,
            CoreError::BlockSizeExceeded(a, b) => ErrorKind::BlockSizeExceeded(a, b),
            CoreError::TransactionSizeExceeded(a, b) => ErrorKind::TransactionSizeExceeded(a, b),
            CoreError::MempoolFull(a, b) => ErrorKind::MempoolFull(a, b),
            CoreError::PeerBanned(_) => ErrorKind::PeerBanned,
            CoreError::InvalidNetworkId(_) => ErrorKind::InvalidNetworkId,
            CoreError::Storage(_) => ErrorKind::Storage,
            CoreError::Genesis(_) => ErrorKind::Genesis,
            CoreError::Io(_) => ErrorKind::Io,
        }
    }

    /// The message's fixed beginning.
    pub open spec fn label(&self) -> Seq<char> {
        self.kind().label()
    }

    /// What follows the fixed beginning.
    pub open spec fn detail(&self) -> Seq<char> {
        match *self {
            CoreError::Serialization(s) => s@,
            CoreError::InvalidFormat(s) => s@,
            CoreError::Overflow(s) => s@,
            CoreError::SupplyInvariant(s) => s@,
            CoreError::InvalidBlock(s) => s@,
            CoreError::InvalidTransaction(s) => s@,
            CoreError::InvalidSignature(s) => s@,
            CoreError::InvalidNonce(s) => s@,
            CoreError::InsufficientBalance(s) => s@,
            CoreError::InvalidStateRoot(s) => s@,
            CoreError::InvalidMerkleRoot(s) => s@,
            CoreError::InvalidProofOfWork(s) => s@,
            CoreError::InvalidTimestamp(s) => s@,
            CoreError::InvalidDifficulty(s) => s@,
            CoreError::BlockSizeExceeded(a, b) => text::decimal(a as nat) + " bytes > max "@
                + text::decimal(b as nat),
            CoreError::TransactionSizeExceeded(a, b) => text::decimal(a as nat) + " bytes > max "@
                + text::decimal(b as nat),
            CoreError::MempoolFull(a, b) => text::decimal(a as nat) + " > max "@ + text::decimal(
                b as nat,
            ),
            CoreError::PeerBanned(s) => s@,
            CoreError::InvalidNetworkId(s) => s@,
            CoreError::Storage(s) => s@,
            CoreError::Genesis(s) => s@,
            CoreError::Io(s) => s@,
        }
    }

    /// What this error says.
    pub open spec fn fault(&self) -> Fault {
        Fault { kind: self.kind(), detail: self.detail() }
    }

    /// The message to show.
    pub fn message(&self) -> (m: String)
        ensures
            m@ == self.label() + self.detail(),
            m@ == self.fault().words(),
    {
        let m = match self {
            CoreError::Serialization(s) => joined("serialization error: ", s),
            CoreError::InvalidFormat(s) => joined("invalid format: ", s),
            CoreError::Overflow(s) => joined("arithmetic overflow: ", s),
            CoreError::SupplyInvariant(s) => joined("supply invariant violation: ", s),
            CoreError::InvalidBlock(s) => joined("invalid block: ", s),
            CoreError::InvalidTransaction(s) => joined("invalid transaction: ", s),
            CoreError::InvalidSignature(s) => joined("invalid signature: ", s),
            CoreError::InvalidNonce(s) => joined("invalid nonce: ", s),
            CoreError::InsufficientBalance(s) => joined("insufficient balance: ", s),
            CoreError::InvalidStateRoot(s) => joined("invalid state root: ", s),
            CoreError::InvalidMerkleRoot(s) => joined("invalid merkle root: ", s),
            CoreError::InvalidProofOfWork(s) => joined("invalid proof of work: ", s),
            CoreError::InvalidTimestamp(s) => joined("invalid timestamp: ", s),
            CoreError::InvalidDifficulty(s) => joined("invalid difficulty: ", s),
            CoreError::BlockSizeExceeded(a, b) => text::phrase2(
                "block size exceeded: ",
                *a as u64,
                " bytes > max ",
                *b as u64,
            ),
            CoreError::TransactionSizeExceeded(a, b) => text::phrase2(
                "transaction size exceeded: ",
                *a as u64,
                " bytes > max ",
                *b as u64,
            ),
            CoreError::MempoolFull(a, b) => text::phrase2(
                "mempool full: size ",
                *a as u64,
                " > max ",
                *b as u64,
            ),
            CoreError::PeerBanned(s) => joined("peer banned: ", s),
            CoreError::InvalidNetworkId(s) => joined("invalid network ID: ", s),
            CoreError::Storage(s) => joined("storage error: ", s),
            CoreError::Genesis(s) => joined("genesis error: ", s),
            CoreError::Io(s) => joined("io error: ", s),
        };
        assert(m@ =~= self.label() + self.detail());
        m
    }
}

/// Two pieces of text, one after the other.
pub fn joined(a: &str, b: &str) -> (m: String)
    ensures
        m@ == a@ + b@,
{
    let mut m: String = a.to_string();
    m.append(b);
    m
}

/// Four pieces of text, one after the other.
pub fn joined4(a: &str, b: &str, c: &str, d: &str) -> (m: String)
    ensures
        m@ == a@ + b@ + c@ + d@,
{
    let mut m: String = joined(a, b);
    m.append(c);
    m.append(d);
    m
}

} // verus!
