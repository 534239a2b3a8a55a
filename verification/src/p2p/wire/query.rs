//! Messages by which a client asks a node about chain, accounts and
//! transactions.

use vstd::prelude::*;
use crate::bytes;
use crate::error;
use crate::error::{CoreError, Fault, Result};
use crate::hash;
use crate::hash::Hash160;
use crate::text;
use crate::types::Address;

verus! {

/// The complaint that a message of a fixed size has another.
pub open spec fn wrong_size(what: Seq<char>, expected: nat, found: nat) -> Fault {
    error::malformed(
        what + text::two_numbers(": expected "@, expected, " bytes, got "@, found),
    )
}

/// The text of that complaint.
pub fn wrong_size_text(what: &str, expected: u64, found: usize) -> (s: String)
    ensures
        s@ == wrong_size(what@, expected as nat, found as nat).detail,
{
    error::joined(
        what,
        text::phrase2(": expected ", expected, " bytes, got ", found as u64).as_str(),
    )
}

/// What is wrong with bytes that are no account answer.
pub open spec fn account_fault(data: Seq<u8>) -> Fault {
    if data.len() != 37 {
        wrong_size("account"@, 37, data.len())
    } else {
        error::malformed("account: exists flag is not a boolean"@)
    }
}

/// Where a node's chain stands.
#[derive(Clone, Copy, Debug, PartialEq, Eq)]
pub struct ChainInfoMessage {
    pub height: u32,
    pub tip: hash::Hash,
    pub bits: u32,
    pub supply: u64,
}

impl ChainInfoMessage {
    /// Canonical encoded size.
    pub const SERIALIZED_SIZE: usize = 48;

    /// The bytes on the wire.
    pub open spec fn spec_bytes(self) -> Seq<u8> {
        bytes::le_bytes(self.height as nat, 4)
            + self.tip.0@
            + bytes::le_bytes(self.bits as nat, 4)
            + bytes::le_bytes(self.supply as nat, 8)
    }

    pub fn encode(&self) -> (r: Vec<u8>)
        ensures
            r@ == self.spec_bytes(),
    {
        let mut buf: Vec<u8> = Vec::new();
        bytes::push_le(&mut buf, self.height as u64, 4);
        bytes::push_bytes(&mut buf, &self.tip.0);
        bytes::push_le(&mut buf, self.bits as u64, 4);
        bytes::push_le(&mut buf, self.supply, 8);
        assert(buf@ =~= self.spec_bytes());
        buf
    }

    pub fn decode(data: &[u8]) -> (r: Result<ChainInfoMessage>)
        ensures
            match r {
                Ok(m) => data@ == m.spec_bytes(),
                Err(e) => data@.len() != 48 && e.fault() == wrong_size("chaininfo"@, 48, data@.len()),
            },
    {
        if data.len() != 48 {
            return Err(
                CoreError::Serialization(
                    wrong_size_text("chaininfo", 48, data.len()),
                ),
            );
        }
        proof {
            bytes::lemma_pow256_values();
        }
        let height: u32 = bytes::read_le(data, 0, 4) as u32;
        let tip: [u8; 32] = bytes::take_array::<32>(data, 4);
        let bits: u32 = bytes::read_le(data, 36, 4) as u32;
        let supply: u64 = bytes::read_le(data, 40, 8);
        let m = ChainInfoMessage { height, tip: hash::Hash(tip), bits, supply };
        proof {
            bytes::lemma_le_bytes_of_value(data@.subrange(0, 4));
            bytes::lemma_le_bytes_of_value(data@.subrange(36, 40));
            bytes::lemma_le_bytes_of_value(data@.subrange(40, 48));
            bytes::lemma_join_ranges(data@, 0, 4, 36);
            bytes::lemma_join_ranges(data@, 0, 36, 40);
            bytes::lemma_join_ranges(data@, 0, 40, 48);
            assert(data@.subrange(0, 48) =~= data@);
        }
        Ok(m)
    }
}

/// A chain status reads back from its bytes: they have the fixed length and stand
/// for no other value.
pub proof fn chain_info_roundtrip(m: ChainInfoMessage, v: ChainInfoMessage)
    ensures
        m.spec_bytes().len() == 48,
        m.spec_bytes() == v.spec_bytes() ==> m == v,
{
    bytes::lemma_le_bytes_len(m.height as nat, 4);
    bytes::lemma_le_bytes_len(v.height as nat, 4);
    bytes::lemma_le_bytes_len(m.bits as nat, 4);
    bytes::lemma_le_bytes_len(v.bits as nat, 4);
    bytes::lemma_le_bytes_len(m.supply as nat, 8);
    bytes::lemma_le_bytes_len(v.supply as nat, 8);
    if m.spec_bytes() == v.spec_bytes() {
        bytes::lemma_split_equal(
            bytes::le_bytes(m.height as nat, 4) + m.tip.0@ + bytes::le_bytes(m.bits as nat, 4),
            bytes::le_bytes(m.supply as nat, 8),
            bytes::le_bytes(v.height as nat, 4) + v.tip.0@ + bytes::le_bytes(v.bits as nat, 4),
            bytes::le_bytes(v.supply as nat, 8),
        );
        bytes::lemma_split_equal(
            bytes::le_bytes(m.height as nat, 4) + m.tip.0@,
            bytes::le_bytes(m.bits as nat, 4),
            bytes::le_bytes(v.height as nat, 4) + v.tip.0@,
            bytes::le_bytes(v.bits as nat, 4),
        );
        bytes::lemma_split_equal(
            bytes::le_bytes(m.height as nat, 4),
            m.tip.0@,
            bytes::le_bytes(v.height as nat, 4),
            v.tip.0@,
        );
        bytes::lemma_pow256_values();
        bytes::lemma_le_bytes_injective(m.height as nat, v.height as nat, 4);
        bytes::lemma_array_equal(m.tip.0, v.tip.0);
        bytes::lemma_le_bytes_injective(m.bits as nat, v.bits as nat, 4);
        bytes::lemma_le_bytes_injective(m.supply as nat, v.supply as nat, 8);
    }
}

/// Which account a client is asking about.
#[derive(Clone, Copy, Debug, PartialEq, Eq)]
pub struct GetAccountMessage {
    pub address: Address,
}

impl GetAccountMessage {
    /// Canonical encoded size.
    pub const SERIALIZED_SIZE: usize = 20;

    /// The bytes on the wire.
    pub open spec fn spec_bytes(self) -> Seq<u8> {
        self.address.0.0@
    }

    pub fn encode(&self) -> (r: Vec<u8>)
        ensures
            r@ == self.spec_bytes(),
    {
        let mut buf: Vec<u8> = Vec::new();
        bytes::push_bytes(&mut buf, &self.address.0.0);
        assert(buf@ =~= self.spec_bytes());
        buf
    }

    pub fn decode(data: &[u8]) -> (r: Result<GetAccountMessage>)
        ensures
            match r {
                Ok(m) => data@ == m.spec_bytes(),
                Err(e) => data@.len() != 20 && e.fault() == wrong_size("getaccount"@, 20, data@.len()),
            },
    {
        if data.len() != 20 {
            return Err(
                CoreError::Serialization(
                    wrong_size_text("getaccount", 20, data.len()),
                ),
            );
        }
        proof {
            bytes::lemma_pow256_values();
        }
        let address: [u8; 20] = bytes::take_array::<20>(data, 0);
        let m = GetAccountMessage { address: Address(Hash160(address)) };
        proof {
            assert(data@.subrange(0, 20) =~= data@);
        }
        Ok(m)
    }
}

/// An account request reads back from its bytes: they have the fixed length and stand
/// for no other value.
pub proof fn get_account_roundtrip(m: GetAccountMessage, v: GetAccountMessage)
    ensures
        m.spec_bytes().len() == 20,
        m.spec_bytes() == v.spec_bytes() ==> m == v,
{
    if m.spec_bytes() == v.spec_bytes() {
        bytes::lemma_array_equal(m.address.0.0, v.address.0.0);
    }
}

/// A truth value on the wire.
pub open spec fn flag_byte(b: bool) -> u8 {
    if b {
        1
    } else {
        0
    }
}

/// The answer. `exists` distinguishes an account holding nothing from one the
/// chain has never seen: the balance is zero either way.
#[derive(Clone, Copy, Debug, PartialEq, Eq)]
pub struct AccountMessage {
    pub address: Address,
    pub exists: bool,
    pub balance: u64,
    pub nonce: u64,
}

impl AccountMessage {
    /// Canonical encoded size.
    pub const SERIALIZED_SIZE: usize = 37;

    /// The bytes on the wire.
    pub open spec fn spec_bytes(self) -> Seq<u8> {
        self.address.0.0@
            + seq![flag_byte(self.exists)]
            + bytes::le_bytes(self.balance as nat, 8)
            + bytes::le_bytes(self.nonce as nat, 8)
    }

    pub fn encode(&self) -> (r: Vec<u8>)
        ensures
            r@ == self.spec_bytes(),
    {
        let mut buf: Vec<u8> = Vec::new();
        bytes::push_bytes(&mut buf, &self.address.0.0);
        buf.push(if self.exists {
            1
        } else {
            0
        });
        bytes::push_le(&mut buf, self.balance, 8);
        bytes::push_le(&mut buf, self.nonce, 8);
        assert(buf@ =~= self.spec_bytes());
        buf
    }

    pub fn decode(data: &[u8]) -> (r: Result<AccountMessage>)
        ensures
            match r {
                Ok(m) => data@ == m.spec_bytes(),
                Err(e) => (data@.len() != 37 || data@[20] > 1) && e.fault() == account_fault(data@),
            },
    {
        if data.len() != 37 {
            return Err(
                CoreError::Serialization(
                    wrong_size_text("account", 37, data.len()),
                ),
            );
        }
        if data[20] > 1 {
            return Err(
                CoreError::Serialization("account: exists flag is not a boolean".to_string()),
            );
        }
        proof {
            bytes::lemma_pow256_values();
        }
        let address: [u8; 20] = bytes::take_array::<20>(data, 0);
        let exists = data[20] == 1;
        let balance: u64 = bytes::read_le(data, 21, 8);
        let nonce: u64 = bytes::read_le(data, 29, 8);
        let m = AccountMessage { address: Address(Hash160(address)), exists, balance, nonce };
        proof {
            assert(seq![flag_byte(exists)] =~= data@.subrange(20, 21));
            bytes::lemma_le_bytes_of_value(data@.subrange(21, 29));
            bytes::lemma_le_bytes_of_value(data@.subrange(29, 37));
            bytes::lemma_join_ranges(data@, 0, 20, 21);
            bytes::lemma_join_ranges(data@, 0, 21, 29);
            bytes::lemma_join_ranges(data@, 0, 29, 37);
            assert(data@.subrange(0, 37) =~= data@);
        }
        Ok(m)
    }
}

/// An account answer reads back from its bytes: they have the fixed length and stand
/// for no other value.
pub proof fn account_roundtrip(m: AccountMessage, v: AccountMessage)
    ensures
        m.spec_bytes().len() == 37,
        m.spec_bytes() == v.spec_bytes() ==> m == v,
{
    bytes::lemma_le_bytes_len(m.balance as nat, 8);
    bytes::lemma_le_bytes_len(v.balance as nat, 8);
    bytes::lemma_le_bytes_len(m.nonce as nat, 8);
    bytes::lemma_le_bytes_len(v.nonce as nat, 8);
    if m.spec_bytes() == v.spec_bytes() {
        bytes::lemma_split_equal(
            m.address.0.0@ + seq![flag_byte(m.exists)] + bytes::le_bytes(m.balance as nat, 8),
            bytes::le_bytes(m.nonce as nat, 8),
            v.address.0.0@ + seq![flag_byte(v.exists)] + bytes::le_bytes(v.balance as nat, 8),
            bytes::le_bytes(v.nonce as nat, 8),
        );
        bytes::lemma_split_equal(
            m.address.0.0@ + seq![flag_byte(m.exists)],
            bytes::le_bytes(m.balance as nat, 8),
            v.address.0.0@ + seq![flag_byte(v.exists)],
            bytes::le_bytes(v.balance as nat, 8),
        );
        bytes::lemma_split_equal(
            m.address.0.0@,
            seq![flag_byte(m.exists)],
            v.address.0.0@,
            seq![flag_byte(v.exists)],
        );
        bytes::lemma_pow256_values();
        bytes::lemma_array_equal(m.address.0.0, v.address.0.0);
        assert(seq![flag_byte(m.exists)][0] == seq![flag_byte(v.exists)][0]);
        bytes::lemma_le_bytes_injective(m.balance as nat, v.balance as nat, 8);
        bytes::lemma_le_bytes_injective(m.nonce as nat, v.nonce as nat, 8);
    }
}

/// Which transaction a client is asking about.
#[derive(Clone, Copy, Debug, PartialEq, Eq)]
pub struct GetTransactionMessage {
    pub tx_hash: hash::Hash,
}

impl GetTransactionMessage {
    /// Canonical encoded size.
    pub const SERIALIZED_SIZE: usize = 32;

    /// The bytes on the wire.
    pub open spec fn spec_bytes(self) -> Seq<u8> {
        self.tx_hash.0@
    }

    pub fn encode(&self) -> (r: Vec<u8>)
        ensures
            r@ == self.spec_bytes(),
    {
        let mut buf: Vec<u8> = Vec::new();
        bytes::push_bytes(&mut buf, &self.tx_hash.0);
        assert(buf@ =~= self.spec_bytes());
        buf
    }

    pub fn decode(data: &[u8]) -> (r: Result<GetTransactionMessage>)
        ensures
            match r {
                Ok(m) => data@ == m.spec_bytes(),
                Err(e) => data@.len() != 32 && e.fault() == wrong_size("gettransaction"@, 32, data@.len()),
            },
    {
        if data.len() != 32 {
            return Err(
                CoreError::Serialization(
                    wrong_size_text("gettransaction", 32, data.len()),
                ),
            );
        }
        proof {
            bytes::lemma_pow256_values();
        }
        let tx_hash: [u8; 32] = bytes::take_array::<32>(data, 0);
        let m = GetTransactionMessage { tx_hash: hash::Hash(tx_hash) };
        proof {
            assert(data@.subrange(0, 32) =~= data@);
        }
        Ok(m)
    }
}

/// A transaction request reads back from its bytes: they have the fixed length and stand
/// for no other value.
pub proof fn get_transaction_roundtrip(m: GetTransactionMessage, v: GetTransactionMessage)
    ensures
        m.spec_bytes().len() == 32,
        m.spec_bytes() == v.spec_bytes() ==> m == v,
{
    if m.spec_bytes() == v.spec_bytes() {
        bytes::lemma_array_equal(m.tx_hash.0, v.tx_hash.0);
    }
}

/// Which address's transactions a client is asking about.
#[derive(Clone, Copy, Debug, PartialEq, Eq)]
pub struct GetHistoryMessage {
    pub address: Address,
    /// Entries wanted, from the newest end.
    pub limit: u32,
}

impl GetHistoryMessage {
    /// Canonical encoded size.
    pub const SERIALIZED_SIZE: usize = 24;

    /// The bytes on the wire.
    pub open spec fn spec_bytes(self) -> Seq<u8> {
        self.address.0.0@
            + bytes::le_bytes(self.limit as nat, 4)
    }

    pub fn encode(&self) -> (r: Vec<u8>)
        ensures
            r@ == self.spec_bytes(),
    {
        let mut buf: Vec<u8> = Vec::new();
        bytes::push_bytes(&mut buf, &self.address.0.0);
        bytes::push_le(&mut buf, self.limit as u64, 4);
        assert(buf@ =~= self.spec_bytes());
        buf
    }

    pub fn decode(data: &[u8]) -> (r: Result<GetHistoryMessage>)
        ensures
            match r {
                Ok(m) => data@ == m.spec_bytes(),
                Err(e) => data@.len() != 24 && e.fault() == wrong_size("gethistory"@, 24, data@.len()),
            },
    {
        if data.len() != 24 {
            return Err(
                CoreError::Serialization(
                    wrong_size_text("gethistory", 24, data.len()),
                ),
            );
        }
        proof {
            bytes::lemma_pow256_values();
        }
        let address: [u8; 20] = bytes::take_array::<20>(data, 0);
        let limit: u32 = bytes::read_le(data, 20, 4) as u32;
        let m = GetHistoryMessage { address: Address(Hash160(address)), limit };
        proof {
            bytes::lemma_le_bytes_of_value(data@.subrange(20, 24));
            bytes::lemma_join_ranges(data@, 0, 20, 24);
            assert(data@.subrange(0, 24) =~= data@);
        }
        Ok(m)
    }
}

/// A history request reads back from its bytes: they have the fixed length and stand
/// for no other value.
pub proof fn get_history_roundtrip(m: GetHistoryMessage, v: GetHistoryMessage)
    ensures
        m.spec_bytes().len() == 24,
        m.spec_bytes() == v.spec_bytes() ==> m == v,
{
    bytes::lemma_le_bytes_len(m.limit as nat, 4);
    bytes::lemma_le_bytes_len(v.limit as nat, 4);
    if m.spec_bytes() == v.spec_bytes() {
        bytes::lemma_split_equal(
            m.address.0.0@,
            bytes::le_bytes(m.limit as nat, 4),
            v.address.0.0@,
            bytes::le_bytes(v.limit as nat, 4),
        );
        bytes::lemma_pow256_values();
        bytes::lemma_array_equal(m.address.0.0, v.address.0.0);
        bytes::lemma_le_bytes_injective(m.limit as nat, v.limit as nat, 4);
    }
}

} // verus!
