//! Transactions: signed transfers, and the coinbase that pays a miner.

use vstd::prelude::*;
use crate::bytes;
use crate::crypto::hash as digest;
use crate::crypto::schnorr;
use crate::crypto::schnorr::{PublicKey32, SecretKey32, Signature64};
use crate::error;
use crate::error::{CoreError, ErrorKind, Fault, Result};
use crate::hash;
use crate::hash::Hash160;
use crate::serialize::{CanonicalDecode, CanonicalEncode};
use crate::text;
use crate::types::{Address, Amount, Nonce};

verus! {

/// A transfer, signed by the key that hashes to the sender's address.
///
/// A public key of zeros marks the coinbase, which has no sender.
#[derive(Clone, Copy, Eq, Debug)]
pub struct Transaction {
    pub sender_pubkey: PublicKey32,
    pub recipient: Address,
    pub amount: Amount,
    pub nonce: Nonce,
    pub signature: Signature64,
}

impl PartialEq for Transaction {
    fn eq(&self, other: &Self) -> (r: bool) {
        self.sender_pubkey == other.sender_pubkey && self.recipient == other.recipient
            && self.amount == other.amount && self.nonce == other.nonce && self.signature
            == other.signature
    }
}

impl vstd::std_specs::cmp::PartialEqSpecImpl for Transaction {
    open spec fn obeys_eq_spec() -> bool {
        true
    }

    open spec fn eq_spec(&self, other: &Self) -> bool {
        *self == *other
    }
}

/// The address that a transaction spends from.
pub open spec fn sender_of(tx: Transaction) -> [u8; 20] {
    digest::spec_hash160(tx.sender_pubkey.0@)
}

/// The message that a transaction's signature must sign.
pub open spec fn signed_message(tx: Transaction) -> [u8; 32] {
    schnorr::sighash(sender_of(tx)@, tx.recipient.0.0@, tx.amount.0, tx.nonce.0)
}

/// Whether a transaction is signed by its sender.
pub open spec fn signed(tx: Transaction) -> bool {
    schnorr::signature_valid(tx.sender_pubkey, signed_message(tx), tx.signature)
}

/// Whether a transaction has the coinbase's key.
pub open spec fn is_coinbase_tx(tx: Transaction) -> bool {
    tx.sender_pubkey.0@ == bytes::zeros(32)
}

/// Whether bytes can stand where a transaction has its public key: a point of
/// the curve, or the zeros of a coinbase.
pub open spec fn key_admissible(key: [u8; 32]) -> bool {
    key@ == bytes::zeros(32) || schnorr::spec_valid_xonly(key)
}

impl CanonicalEncode for Transaction {
    open spec fn spec_encode(&self) -> Seq<u8> {
        self.sender_pubkey.0@ + self.recipient.0.0@ + bytes::le_bytes(self.amount.0 as nat, 8)
            + bytes::le_bytes(self.nonce.0 as nat, 8) + self.signature.0@
    }

    fn encode(&self) -> (r: Vec<u8>) {
        let mut buf: Vec<u8> = Vec::new();
        bytes::push_bytes(&mut buf, &self.sender_pubkey.0);
        bytes::push_bytes(&mut buf, &self.recipient.0.0);
        bytes::push_le(&mut buf, self.amount.0, 8);
        bytes::push_le(&mut buf, self.nonce.0, 8);
        bytes::push_bytes(&mut buf, &self.signature.0);
        assert(buf@ =~= self.spec_encode());
        buf
    }
}

/// A transaction takes 132 bytes.
pub proof fn lemma_tx_len(tx: Transaction)
    ensures
        tx.spec_encode().len() == 132,
{
    bytes::lemma_le_bytes_len(tx.amount.0 as nat, 8);
    bytes::lemma_le_bytes_len(tx.nonce.0 as nat, 8);
}

/// Transaction bytes tell transactions apart.
pub proof fn tx_encoding_injective(a: Transaction, b: Transaction)
    requires
        a.spec_encode() == b.spec_encode(),
    ensures
        a == b,
{
    bytes::lemma_le_bytes_len(a.amount.0 as nat, 8);
    bytes::lemma_le_bytes_len(a.nonce.0 as nat, 8);
    bytes::lemma_le_bytes_len(b.amount.0 as nat, 8);
    bytes::lemma_le_bytes_len(b.nonce.0 as nat, 8);
    let a1 = a.sender_pubkey.0@;
    let b1 = b.sender_pubkey.0@;
    let a2 = a.recipient.0.0@;
    let b2 = b.recipient.0.0@;
    let a3 = bytes::le_bytes(a.amount.0 as nat, 8);
    let b3 = bytes::le_bytes(b.amount.0 as nat, 8);
    let a4 = bytes::le_bytes(a.nonce.0 as nat, 8);
    let b4 = bytes::le_bytes(b.nonce.0 as nat, 8);
    bytes::lemma_split_equal(a1 + a2 + a3 + a4, a.signature.0@, b1 + b2 + b3 + b4, b.signature.0@);
    bytes::lemma_split_equal(a1 + a2 + a3, a4, b1 + b2 + b3, b4);
    bytes::lemma_split_equal(a1 + a2, a3, b1 + b2, b3);
    bytes::lemma_split_equal(a1, a2, b1, b2);
    bytes::lemma_array_equal(a.sender_pubkey.0, b.sender_pubkey.0);
    bytes::lemma_array_equal(a.recipient.0.0, b.recipient.0.0);
    bytes::lemma_array_equal(a.signature.0, b.signature.0);
    bytes::lemma_pow256_values();
    bytes::lemma_le_bytes_injective(a.amount.0 as nat, b.amount.0 as nat, 8);
    bytes::lemma_le_bytes_injective(a.nonce.0 as nat, b.nonce.0 as nat, 8);
}

/// Whether some bytes begin with a transaction: enough of them, and a public
/// key that can be one.
pub open spec fn tx_decodable_prefix(data: Seq<u8>) -> bool {
    data.len() >= 132 && exists|k: [u8; 32]|
        #![trigger key_admissible(k)]
        k@ == data.subrange(0, 32) && key_admissible(k)
}

/// The complaint that bytes have not the size of a transaction.
pub open spec fn wrong_size(len: nat) -> Fault {
    error::malformed("transaction: expected 132 bytes, got "@ + text::decimal(len))
}

impl CanonicalDecode for Transaction {
    open spec fn denotes(data: Seq<u8>, v: Self) -> bool {
        data == v.spec_encode()
    }

    open spec fn denotes_prefix(data: Seq<u8>, v: Self, used: nat) -> bool {
        used == 132 && data.subrange(0, 132) == v.spec_encode()
    }

    open spec fn decodable(data: Seq<u8>) -> bool {
        data.len() == 132 && tx_decodable_prefix(data)
    }

    open spec fn decodable_prefix(data: Seq<u8>) -> bool {
        tx_decodable_prefix(data)
    }

    open spec fn decode_fault(data: Seq<u8>) -> Fault {
        if data.len() != 132 {
            wrong_size(data.len())
        } else {
            Self::partial_fault(data)
        }
    }

    open spec fn partial_fault(data: Seq<u8>) -> Fault {
        if data.len() < 132 {
            wrong_size(data.len())
        } else {
            error::malformed(schnorr::off_curve())
        }
    }

    fn decode(data: &[u8]) -> (r: Result<Self>) {
        if data.len() != Transaction::SERIALIZED_SIZE {
            return Err(
                CoreError::Serialization(
                    text::phrase1("transaction: expected 132 bytes, got ", data.len() as u64),
                ),
            );
        }
        match Transaction::decode_partial(data) {
            Ok((tx, _)) => {
                assert(data@.subrange(0, 132) =~= data@);
                Ok(tx)
            },
            Err(e) => Err(e),
        }
    }

    fn decode_partial(data: &[u8]) -> (r: Result<(Self, usize)>) {
        if data.len() < Transaction::SERIALIZED_SIZE {
            return Err(
                CoreError::Serialization(
                    text::phrase1("transaction: expected 132 bytes, got ", data.len() as u64),
                ),
            );
        }
        let key: [u8; 32] = bytes::take_array::<32>(data, 0);
        let recipient: [u8; 20] = bytes::take_array::<20>(data, 32);
        let amount: u64 = bytes::read_le(data, 52, 8);
        let nonce: u64 = bytes::read_le(data, 60, 8);
        let signature: [u8; 64] = bytes::take_array::<64>(data, 68);
        let tx = Transaction {
            sender_pubkey: PublicKey32(key),
            recipient: Address(Hash160(recipient)),
            amount: Amount(amount),
            nonce: Nonce(nonce),
            signature: Signature64(signature),
        };
        if !tx.is_coinbase() {
            match PublicKey32::from_bytes(key) {
                Ok(_) => {},
                Err(e) => {
                    proof {
                        assert forall|k: [u8; 32]|
                            #![trigger key_admissible(k)]
                            k@ == data@.subrange(0, 32) implies !key_admissible(k) by {
                            bytes::lemma_array_equal(k, key);
                        }
                    }
                    return Err(CoreError::Serialization(e.message()));
                },
            }
        }
        proof {
            assert(key_admissible(key));
            bytes::lemma_le_bytes_of_value(data@.subrange(52, 60));
            bytes::lemma_le_bytes_of_value(data@.subrange(60, 68));
            bytes::lemma_join_ranges(data@, 0, 32, 52);
            bytes::lemma_join_ranges(data@, 0, 52, 60);
            bytes::lemma_join_ranges(data@, 0, 60, 68);
            bytes::lemma_join_ranges(data@, 0, 68, 132);
        }
        Ok((tx, Transaction::SERIALIZED_SIZE))
    }
}

/// A transaction reads back from its bytes, whatever follows them, if its key
/// can be one; otherwise the bytes are refused.
pub proof fn tx_roundtrip(tx: Transaction, after: Seq<u8>, v: Transaction, used: nat)
    ensures
        Transaction::decodable_prefix(tx.spec_encode() + after) <==> key_admissible(
            tx.sender_pubkey.0,
        ),
        Transaction::denotes_prefix(tx.spec_encode() + after, v, used) <==> v == tx && used == 132,
{
    let data = tx.spec_encode() + after;
    lemma_tx_len(tx);
    assert(data.subrange(0, 32) =~= tx.sender_pubkey.0@);
    assert(data.subrange(0, 132) =~= tx.spec_encode());
    assert forall|k: [u8; 32]|
        #![trigger key_admissible(k)]
        k@ == data.subrange(0, 32) implies k == tx.sender_pubkey.0 by {
        bytes::lemma_array_equal(k, tx.sender_pubkey.0);
    }
    if Transaction::denotes_prefix(data, v, used) {
        tx_encoding_injective(v, tx);
    }
    if key_admissible(tx.sender_pubkey.0) {
        assert(tx.sender_pubkey.0@ == data.subrange(0, 32));
    }
}

impl Transaction {
    /// Bytes a transaction takes.
    pub const SERIALIZED_SIZE: usize = 132;

    /// The transaction that pays a miner.
    pub fn coinbase(recipient: Address, amount: Amount) -> (r: Transaction)
        ensures
            is_coinbase_tx(r),
            r.recipient == recipient,
            r.amount == amount,
            r.nonce.0 == 0,
            r.signature.0@ == bytes::zeros(64),
    {
        Transaction {
            sender_pubkey: PublicKey32(bytes::zero_array::<32>()),
            recipient,
            amount,
            nonce: Nonce(0),
            signature: Signature64(bytes::zero_array::<64>()),
        }
    }

    /// Whether the transaction has the coinbase's key.
    pub fn is_coinbase(&self) -> (r: bool)
        ensures
            r == is_coinbase_tx(*self),
    {
        bytes::bytes_equal(&self.sender_pubkey.0, &bytes::zero_array::<32>())
    }

    /// The address the transaction spends from.
    pub fn sender_address(&self) -> (r: Address)
        ensures
            r.0.0 == sender_of(*self),
    {
        Address(Hash160(digest::hash160(&self.sender_pubkey.0)))
    }

    /// Whether the transaction is signed by its sender.
    pub fn verify_signature(&self) -> (r: bool)
        ensures
            r == signed(*self),
    {
        let sender = self.sender_address();
        let msg = schnorr::compute_sighash(
            &sender.0.0,
            &self.recipient.0.0,
            self.amount.0,
            self.nonce.0,
        );
        schnorr::schnorr_verify(&self.sender_pubkey, &msg, &self.signature)
    }

    /// The hash a transaction is known by.
    pub fn hash(&self) -> (r: hash::Hash)
        ensures
            r == tx_hash(*self),
    {
        hash::blake3(&self.encode())
    }
}

/// The hash a transaction is known by.
pub open spec fn tx_hash(tx: Transaction) -> hash::Hash {
    hash::hash_of(tx.spec_encode())
}

/// Create and sign a transfer. The signature covers `sender`, so it verifies
/// exactly when that is the address of the signing key.
pub fn create_transaction(
    secret: &SecretKey32,
    sender: Address,
    recipient: Address,
    amount: Amount,
    nonce: Nonce,
) -> (r: Result<Transaction>)
    ensures
        match r {
            Ok(tx) => {
                &&& schnorr::valid_secret(secret.0@)
                &&& tx.sender_pubkey.0 == schnorr::spec_xonly(secret.0)
                &&& key_admissible(tx.sender_pubkey.0)
                &&& tx.recipient == recipient
                &&& tx.amount == amount
                &&& tx.nonce == nonce
                &&& tx.signature.0 == schnorr::spec_sign(
                    secret.0,
                    schnorr::sighash(sender.0.0@, recipient.0.0@, amount.0, nonce.0),
                )
                &&& sender.0.0 == sender_of(tx) ==> signed(tx)
            },
            Err(e) => !schnorr::valid_secret(secret.0@) && e.fault()
                == ErrorKind::InvalidSignature.because(
                "invalid secret key: "@ + "InvalidSecretKey"@,
            ),
        },
{
    let key = match PublicKey32::from_secret(secret) {
        Ok(k) => k,
        Err(e) => {
            return Err(CoreError::InvalidSignature(e.message()));
        },
    };
    let msg = schnorr::compute_sighash(&sender.0.0, &recipient.0.0, amount.0, nonce.0);
    match schnorr::schnorr_sign(secret, &msg) {
        Ok(signature) => Ok(
            Transaction { sender_pubkey: key, recipient, amount, nonce, signature },
        ),
        Err(e) => Err(CoreError::InvalidSignature(e.message())),
    }
}

// ---------------------------------------------------------------------------
// What a signature and a hash cover
// ---------------------------------------------------------------------------

/// Where each field of a transaction stands in its bytes.
pub proof fn transaction_layout(t: Transaction)
    ensures
        t.spec_encode().len() == 132,
        t.spec_encode().subrange(0, 32) == t.sender_pubkey.0@,
        t.spec_encode().subrange(32, 52) == t.recipient.0.0@,
        t.spec_encode().subrange(52, 60) == bytes::le_bytes(t.amount.0 as nat, 8),
        t.spec_encode().subrange(60, 68) == bytes::le_bytes(t.nonce.0 as nat, 8),
        t.spec_encode().subrange(68, 132) == t.signature.0@,
{
    bytes::lemma_le_bytes_len(t.amount.0 as nat, 8);
    bytes::lemma_le_bytes_len(t.nonce.0 as nat, 8);
    let s = t.spec_encode();
    assert(s.subrange(0, 32) =~= t.sender_pubkey.0@);
    assert(s.subrange(32, 52) =~= t.recipient.0.0@);
    assert(s.subrange(52, 60) =~= bytes::le_bytes(t.amount.0 as nat, 8));
    assert(s.subrange(60, 68) =~= bytes::le_bytes(t.nonce.0 as nat, 8));
    assert(s.subrange(68, 132) =~= t.signature.0@);
}

/// A transaction is signed exactly when its key is on the curve and the
/// signature verifies for the digest of the domain tag, the address of that key,
/// the recipient, the amount and the nonce. The address of a key is the
/// RIPEMD-160 digest of its SHA-256 digest.
pub proof fn signed_means_signed_by_the_sender(t: Transaction)
    ensures
        sender_of(t) == digest::spec_ripemd160(digest::spec_sha256(t.sender_pubkey.0@)@),
        signed(t) <==> schnorr::spec_valid_xonly(t.sender_pubkey.0) && schnorr::spec_verify(
            t.sender_pubkey.0,
            hash::spec_blake3(
                vstd::utf8::encode_utf8("Chroma Transaction Signing v1"@)
                    + digest::spec_ripemd160(digest::spec_sha256(t.sender_pubkey.0@)@)@
                    + t.recipient.0.0@ + bytes::le_bytes(t.amount.0 as nat, 8) + bytes::le_bytes(
                    t.nonce.0 as nat,
                    8,
                ),
            ),
            t.signature.0,
        ),
        is_coinbase_tx(t) <==> (forall|i: int| 0 <= i < 32 ==> #[trigger] t.sender_pubkey.0@[i] == 0),
{
    if forall|i: int| 0 <= i < 32 ==> #[trigger] t.sender_pubkey.0@[i] == 0 {
        assert(t.sender_pubkey.0@ =~= bytes::zeros(32));
    }
}

/// The message that a transaction's signature signs changes with its recipient,
/// its amount and its nonce, unless BLAKE3 gives two different inputs one
/// digest.
pub proof fn redirected_transaction_needs_another_signature(t: Transaction, u: Transaction)
    requires
        t.sender_pubkey == u.sender_pubkey,
        t.recipient != u.recipient || t.amount != u.amount || t.nonce != u.nonce,
    ensures
        signed_message(t) != signed_message(u) || schnorr::digests_collide(),
{
    if t.recipient.0.0@ == u.recipient.0.0@ {
        bytes::lemma_array_equal(t.recipient.0.0, u.recipient.0.0);
    }
    schnorr::changed_transfer_needs_another_signature(
        sender_of(t)@,
        t.recipient.0.0@,
        t.amount.0,
        t.nonce.0,
        sender_of(u)@,
        u.recipient.0.0@,
        u.amount.0,
        u.nonce.0,
    );
}

/// A transaction is known by the digest of its bytes: two different ones have
/// different hashes, unless BLAKE3 gives two different inputs one digest.
pub proof fn transaction_hash_names_the_transaction(t: Transaction, u: Transaction)
    ensures
        tx_hash(t).0 == hash::spec_blake3(t.spec_encode()),
        tx_hash(t) == tx_hash(u) ==> t == u || schnorr::digests_collide(),
{
    if tx_hash(t) == tx_hash(u) && t.spec_encode() == u.spec_encode() {
        tx_encoding_injective(t, u);
    } else if tx_hash(t) == tx_hash(u) {
        let a = t.spec_encode();
        let b = u.spec_encode();
        assert(a != b && hash::spec_blake3(a) == hash::spec_blake3(b));
    }
}

/// Whether a key can stand in a transaction: all zeros, for the coinbase, or the
/// x coordinate of a point.
pub open spec fn usable_key(k: [u8; 32]) -> bool {
    schnorr::spec_valid_xonly(k) || forall|i: int| 0 <= i < 32 ==> k[i] == 0
}

/// Whether bytes begin with a key that can stand in a transaction.
pub open spec fn starts_with_a_usable_key(data: Seq<u8>) -> bool {
    exists|k: [u8; 32]| k@ == data.subrange(0, 32) && #[trigger] usable_key(k)
}

/// A transaction is read from exactly 132 bytes that begin with a key that can be
/// used, and as what would have been written.
pub proof fn transaction_is_readable_exactly_when(data: Seq<u8>)
    ensures
        Transaction::decodable(data) <==> data.len() == 132 && starts_with_a_usable_key(data),
        Transaction::decodable_prefix(data) <==> data.len() >= 132 && starts_with_a_usable_key(
            data,
        ),
        tx_decodable_prefix(data) <==> data.len() >= 132 && starts_with_a_usable_key(data),
        forall|t: Transaction| #[trigger]
            Transaction::denotes(data, t) <==> data == t.spec_encode(),
{
    assert forall|k: [u8; 32]| #[trigger] usable_key(k) <==> key_admissible(k) by {
        if key_admissible(k) && !schnorr::spec_valid_xonly(k) {
            assert forall|i: int| 0 <= i < 32 implies k[i] == 0 by {
                assert(k@[i] == bytes::zeros(32)[i]);
            }
        }
        if usable_key(k) && !schnorr::spec_valid_xonly(k) {
            assert(k@ =~= bytes::zeros(32));
        }
    }
    if data.len() >= 132 {
        if tx_decodable_prefix(data) {
            let k = choose|k: [u8; 32]|
                #![trigger key_admissible(k)]
                k@ == data.subrange(0, 32) && key_admissible(k);
            assert(usable_key(k));
        }
        if starts_with_a_usable_key(data) {
            let k = choose|k: [u8; 32]| k@ == data.subrange(0, 32) && #[trigger] usable_key(k);
            assert(key_admissible(k));
        }
    }
}

} // verus!
