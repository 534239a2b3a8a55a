//! Answers to transaction lookups.

use vstd::prelude::*;
use crate::bytes;
use crate::error;
use crate::error::{CoreError, Fault, Result};
use crate::hash;
use crate::p2p::wire::query;
use crate::serialize::{CanonicalDecode, CanonicalEncode};
use crate::text;
use crate::tx;
use crate::tx::Transaction;

verus! {

/// How many history entries one answer may carry.
pub const MAX_HISTORY_ENTRIES: u32 = 1000;

/// Why a lookup came back without an answer.
///
/// "Not found" and "this node does not keep the index" are different facts,
/// and a client told only the first would conclude a transaction never
/// happened when the truth is that nobody looked.
#[derive(Clone, Copy, Debug, PartialEq, Eq, Structural)]
pub enum LookupStatus {
    Found,
    NotFound,
    NotIndexed,
}

/// The byte that stands for a status.
pub open spec fn status_code(s: LookupStatus) -> u8 {
    match s {
        LookupStatus::Found => 0,
        LookupStatus::NotFound => 1,
        LookupStatus::NotIndexed => 2,
    }
}

/// The complaint that a byte stands for no status.
pub open spec fn unknown_status(v: u8) -> Fault {
    error::malformed("lookup status: unknown value "@ + text::decimal(v as nat))
}

impl LookupStatus {
    /// The byte that stands for the status.
    pub fn code(&self) -> (r: u8)
        ensures
            r == status_code(*self),
    {
        match self {
            LookupStatus::Found => 0,
            LookupStatus::NotFound => 1,
            LookupStatus::NotIndexed => 2,
        }
    }

    pub fn from_u8(v: u8) -> (r: Result<Self>)
        ensures
            match r {
                Ok(s) => status_code(s) == v,
                Err(e) => v > 2 && e.fault() == unknown_status(v),
            },
    {
        match v {
            0 => Ok(LookupStatus::Found),
            1 => Ok(LookupStatus::NotFound),
            2 => Ok(LookupStatus::NotIndexed),
            _ => Err(
                CoreError::Serialization(text::phrase1("lookup status: unknown value ", v as u64)),
            ),
        }
    }
}

/// Where a transaction was mined, and the transaction itself.
#[derive(Clone, Copy, Debug, PartialEq, Eq)]
pub struct TransactionAtMessage {
    pub status: LookupStatus,
    pub tx_hash: hash::Hash,
    pub block_hash: hash::Hash,
    pub height: u32,
    pub position: u32,
    /// False when the block that carries it lost a fork. The transaction is
    /// real and was mined, but not on the chain anyone is following.
    pub on_active_chain: bool,
    pub transaction: Option<Transaction>,
}

/// The answer that there is no transaction to show.
pub open spec fn no_transaction(status: LookupStatus) -> TransactionAtMessage {
    TransactionAtMessage {
        status,
        tx_hash: hash::zero_hash(),
        block_hash: hash::zero_hash(),
        height: 0,
        position: 0,
        on_active_chain: false,
        transaction: None,
    }
}

impl TransactionAtMessage {
    /// The whole answer when a transaction was found.
    pub const FOUND_SIZE: usize = 206;

    /// The bytes in front of the transaction when one was found.
    pub open spec fn place_bytes(self) -> Seq<u8> {
        seq![status_code(self.status)] + self.tx_hash.0@ + self.block_hash.0@ + bytes::le_bytes(
            self.height as nat,
            4,
        ) + bytes::le_bytes(self.position as nat, 4) + seq![query::flag_byte(self.on_active_chain)]
    }

    /// The bytes on the wire. Without a transaction only the status goes out.
    pub open spec fn spec_bytes(self) -> Seq<u8> {
        if self.status != LookupStatus::Found {
            seq![status_code(self.status)]
        } else {
            self.place_bytes() + match self.transaction {
                Some(t) => t.spec_encode(),
                None => bytes::zeros(132),
            }
        }
    }

    pub fn missing(status: LookupStatus) -> (r: TransactionAtMessage)
        ensures
            r == no_transaction(status),
    {
        TransactionAtMessage {
            status,
            tx_hash: hash::Hash::zero(),
            block_hash: hash::Hash::zero(),
            height: 0,
            position: 0,
            on_active_chain: false,
            transaction: None,
        }
    }

    pub fn encode(&self) -> (r: Vec<u8>)
        ensures
            r@ == self.spec_bytes(),
    {
        let mut buf: Vec<u8> = Vec::new();
        buf.push(self.status.code());
        if self.status != LookupStatus::Found {
            assert(buf@ =~= self.spec_bytes());
            return buf;
        }
        bytes::push_bytes(&mut buf, &self.tx_hash.0);
        bytes::push_bytes(&mut buf, &self.block_hash.0);
        bytes::push_le(&mut buf, self.height as u64, 4);
        bytes::push_le(&mut buf, self.position as u64, 4);
        buf.push(if self.on_active_chain {
            1
        } else {
            0
        });
        assert(buf@ =~= self.place_bytes());
        match &self.transaction {
            Some(t) => {
                bytes::push_bytes(&mut buf, &t.encode());
            },
            None => {
                bytes::push_bytes(&mut buf, &bytes::zero_array::<132>());
            },
        }
        buf
    }

    /// Decode an answer. Whatever is not zero counts as being on the active
    /// chain.
    pub fn decode(data: &[u8]) -> (r: Result<TransactionAtMessage>)
        ensures
            r is Ok <==> transaction_at_decodable(data@),
            r matches Ok(m) ==> transaction_at_denoted(data@, m),
            r matches Err(e) ==> e.fault() == transaction_at_fault(data@),
    {
        if data.len() == 0 {
            return Err(CoreError::Serialization("transactionat: empty payload".to_string()));
        }
        let status = match LookupStatus::from_u8(data[0]) {
            Ok(s) => s,
            Err(e) => {
                return Err(e);
            },
        };
        if status != LookupStatus::Found {
            if data.len() != 1 {
                return Err(
                    CoreError::Serialization(
                        text::phrase_around(
                            "transactionat: ",
                            (data.len() - 1) as u64,
                            " trailing bytes",
                        ),
                    ),
                );
            }
            assert(data@ =~= no_transaction(status).spec_bytes());
            return Ok(TransactionAtMessage::missing(status));
        }
        if data.len() != TransactionAtMessage::FOUND_SIZE {
            return Err(
                CoreError::Serialization(
                    query::wrong_size_text("transactionat", 206, data.len()),
                ),
            );
        }
        proof {
            bytes::lemma_pow256_values();
        }
        let tx_hash: [u8; 32] = bytes::take_array::<32>(data, 1);
        let block_hash: [u8; 32] = bytes::take_array::<32>(data, 33);
        let height: u32 = bytes::read_le(data, 65, 4) as u32;
        let position: u32 = bytes::read_le(data, 69, 4) as u32;
        let on_active_chain = data[73] != 0;
        let transaction = match Transaction::decode(&data[74..data.len()]) {
            Ok(t) => t,
            Err(e) => {
                return Err(e);
            },
        };
        let m = TransactionAtMessage {
            status,
            tx_hash: hash::Hash(tx_hash),
            block_hash: hash::Hash(block_hash),
            height,
            position,
            on_active_chain,
            transaction: Some(transaction),
        };
        proof {
            bytes::lemma_le_bytes_of_value(data@.subrange(65, 69));
            bytes::lemma_le_bytes_of_value(data@.subrange(69, 73));
        }
        Ok(m)
    }
}

/// Whether some bytes are an answer to a lookup.
pub open spec fn transaction_at_decodable(data: Seq<u8>) -> bool {
    ||| data.len() == 1 && (data[0] == 1 || data[0] == 2)
    ||| data.len() == 206 && data[0] == 0 && Transaction::decodable(data.subrange(74, 206))
}

/// What is wrong with bytes that are no answer to a lookup.
pub open spec fn transaction_at_fault(data: Seq<u8>) -> Fault {
    if data.len() == 0 {
        error::malformed("transactionat: empty payload"@)
    } else if data[0] > 2 {
        unknown_status(data[0])
    } else if data[0] != 0 {
        error::malformed(
            text::number_between(
                "transactionat: "@,
                (data.len() - 1) as nat,
                " trailing bytes"@,
            ),
        )
    } else if data.len() != 206 {
        query::wrong_size("transactionat"@, 206, data.len())
    } else {
        Transaction::decode_fault(data.subrange(74, 206))
    }
}

/// Whether some bytes are this answer to a lookup.
pub open spec fn transaction_at_denoted(data: Seq<u8>, m: TransactionAtMessage) -> bool {
    if data[0] != 0 {
        m == no_transaction(m.status) && data == m.spec_bytes()
    } else {
        &&& m.status == LookupStatus::Found
        &&& m.tx_hash.0@ == data.subrange(1, 33)
        &&& m.block_hash.0@ == data.subrange(33, 65)
        &&& bytes::le_bytes(m.height as nat, 4) == data.subrange(65, 69)
        &&& bytes::le_bytes(m.position as nat, 4) == data.subrange(69, 73)
        &&& m.on_active_chain == (data[73] != 0)
        &&& m.transaction matches Some(t) && Transaction::denotes(data.subrange(74, 206), t)
    }
}

/// An answer that shows a transaction reads back from its bytes, and one that
/// shows none keeps saying why.
pub proof fn transaction_at_roundtrip(m: TransactionAtMessage, v: TransactionAtMessage)
    requires
        m.status == LookupStatus::Found ==> (m.transaction matches Some(t) && tx::key_admissible(
            t.sender_pubkey.0,
        )),
        m.status != LookupStatus::Found ==> m == no_transaction(m.status),
    ensures
        transaction_at_decodable(m.spec_bytes()),
        transaction_at_denoted(m.spec_bytes(), v) <==> v == m,
{
    let data = m.spec_bytes();
    if m.status == LookupStatus::Found {
        let t = m.transaction->0;
        bytes::lemma_pow256_values();
        bytes::lemma_le_bytes_len(m.height as nat, 4);
        bytes::lemma_le_bytes_len(m.position as nat, 4);
        tx::lemma_tx_len(t);
        let tail = t.spec_encode();
        assert(data.subrange(74, 206) =~= tail);
        assert(data.subrange(1, 33) =~= m.tx_hash.0@);
        assert(data.subrange(33, 65) =~= m.block_hash.0@);
        assert(data.subrange(65, 69) =~= bytes::le_bytes(m.height as nat, 4));
        assert(data.subrange(69, 73) =~= bytes::le_bytes(m.position as nat, 4));
        assert(data[73] == query::flag_byte(m.on_active_chain));
        tx::tx_roundtrip(t, Seq::empty(), t, 132);
        assert(tail + Seq::<u8>::empty() =~= tail);
        assert(tail.subrange(0, 132) =~= tail);
        assert(tail.subrange(0, 32) =~= t.sender_pubkey.0@);
        if transaction_at_denoted(data, v) {
            bytes::lemma_array_equal(v.tx_hash.0, m.tx_hash.0);
            bytes::lemma_array_equal(v.block_hash.0, m.block_hash.0);
            bytes::lemma_le_bytes_injective(v.height as nat, m.height as nat, 4);
            bytes::lemma_le_bytes_injective(v.position as nat, m.position as nat, 4);
            tx::tx_encoding_injective(v.transaction->0, t);
        }
    } else {
        if transaction_at_denoted(data, v) {
            assert(v.spec_bytes()[0] == status_code(v.status));
            assert(data[0] == status_code(m.status));
        }
    }
}

/// One transaction in an address's history.
#[derive(Clone, Copy, Debug, PartialEq, Eq)]
pub struct HistoryEntry {
    pub tx_hash: hash::Hash,
    pub block_hash: hash::Hash,
    pub height: u32,
    pub position: u32,
}

impl HistoryEntry {
    /// Canonical encoded size.
    pub const SERIALIZED_SIZE: usize = 72;

    /// The bytes on the wire.
    pub open spec fn spec_bytes(self) -> Seq<u8> {
        self.tx_hash.0@
            + self.block_hash.0@
            + bytes::le_bytes(self.height as nat, 4)
            + bytes::le_bytes(self.position as nat, 4)
    }

    fn encode(&self) -> (r: Vec<u8>)
        ensures
            r@ == self.spec_bytes(),
    {
        let mut buf: Vec<u8> = Vec::new();
        bytes::push_bytes(&mut buf, &self.tx_hash.0);
        bytes::push_bytes(&mut buf, &self.block_hash.0);
        bytes::push_le(&mut buf, self.height as u64, 4);
        bytes::push_le(&mut buf, self.position as u64, 4);
        assert(buf@ =~= self.spec_bytes());
        buf
    }

    fn decode(data: &[u8]) -> (r: Result<HistoryEntry>)
        ensures
            match r {
                Ok(m) => data@ == m.spec_bytes(),
                Err(e) => data@.len() != 72 && e.fault() == query::wrong_size(
                    "history entry"@,
                    72,
                    data@.len(),
                ),
            },
    {
        if data.len() != 72 {
            return Err(
                CoreError::Serialization(
                    query::wrong_size_text("history entry", 72, data.len()),
                ),
            );
        }
        proof {
            bytes::lemma_pow256_values();
        }
        let tx_hash: [u8; 32] = bytes::take_array::<32>(data, 0);
        let block_hash: [u8; 32] = bytes::take_array::<32>(data, 32);
        let height: u32 = bytes::read_le(data, 64, 4) as u32;
        let position: u32 = bytes::read_le(data, 68, 4) as u32;
        let m = HistoryEntry { tx_hash: hash::Hash(tx_hash), block_hash: hash::Hash(block_hash), height, position };
        proof {
            bytes::lemma_le_bytes_of_value(data@.subrange(64, 68));
            bytes::lemma_le_bytes_of_value(data@.subrange(68, 72));
            bytes::lemma_join_ranges(data@, 0, 32, 64);
            bytes::lemma_join_ranges(data@, 0, 64, 68);
            bytes::lemma_join_ranges(data@, 0, 68, 72);
            assert(data@.subrange(0, 72) =~= data@);
        }
        Ok(m)
    }
}

/// A history entry reads back from its bytes: they have the fixed length and stand
/// for no other value.
pub proof fn history_entry_roundtrip(m: HistoryEntry, v: HistoryEntry)
    ensures
        m.spec_bytes().len() == 72,
        m.spec_bytes() == v.spec_bytes() ==> m == v,
{
    bytes::lemma_le_bytes_len(m.height as nat, 4);
    bytes::lemma_le_bytes_len(v.height as nat, 4);
    bytes::lemma_le_bytes_len(m.position as nat, 4);
    bytes::lemma_le_bytes_len(v.position as nat, 4);
    if m.spec_bytes() == v.spec_bytes() {
        bytes::lemma_split_equal(
            m.tx_hash.0@ + m.block_hash.0@ + bytes::le_bytes(m.height as nat, 4),
            bytes::le_bytes(m.position as nat, 4),
            v.tx_hash.0@ + v.block_hash.0@ + bytes::le_bytes(v.height as nat, 4),
            bytes::le_bytes(v.position as nat, 4),
        );
        bytes::lemma_split_equal(
            m.tx_hash.0@ + m.block_hash.0@,
            bytes::le_bytes(m.height as nat, 4),
            v.tx_hash.0@ + v.block_hash.0@,
            bytes::le_bytes(v.height as nat, 4),
        );
        bytes::lemma_split_equal(
            m.tx_hash.0@,
            m.block_hash.0@,
            v.tx_hash.0@,
            v.block_hash.0@,
        );
        bytes::lemma_pow256_values();
        bytes::lemma_array_equal(m.tx_hash.0, v.tx_hash.0);
        bytes::lemma_array_equal(m.block_hash.0, v.block_hash.0);
        bytes::lemma_le_bytes_injective(m.height as nat, v.height as nat, 4);
        bytes::lemma_le_bytes_injective(m.position as nat, v.position as nat, 4);
    }
}

/// History entries, one after the other.
pub open spec fn history_entries_bytes(s: Seq<HistoryEntry>) -> Seq<u8>
    decreases s.len(),
{
    if s.len() == 0 {
        Seq::empty()
    } else {
        history_entries_bytes(s.drop_last()) + s.last().spec_bytes()
    }
}

pub proof fn lemma_history_entries_len(s: Seq<HistoryEntry>)
    ensures
        history_entries_bytes(s).len() == 72 * s.len(),
    decreases s.len(),
{
    if s.len() > 0 {
        lemma_history_entries_len(s.drop_last());
        history_entry_roundtrip(s.last(), s.last());
    }
}

proof fn lemma_history_entries_injective(a: Seq<HistoryEntry>, b: Seq<HistoryEntry>)
    requires
        a.len() == b.len(),
        history_entries_bytes(a) == history_entries_bytes(b),
    ensures
        a == b,
    decreases a.len(),
{
    if a.len() > 0 {
        history_entry_roundtrip(a.last(), a.last());
        history_entry_roundtrip(b.last(), b.last());
        bytes::lemma_split_equal(
            history_entries_bytes(a.drop_last()),
            a.last().spec_bytes(),
            history_entries_bytes(b.drop_last()),
            b.last().spec_bytes(),
        );
        lemma_history_entries_injective(a.drop_last(), b.drop_last());
        history_entry_roundtrip(a.last(), b.last());
        assert(a =~= a.drop_last().push(a.last()));
        assert(b =~= b.drop_last().push(b.last()));
    } else {
        assert(a =~= b);
    }
}

fn push_history_entries(buf: &mut Vec<u8>, items: &[HistoryEntry])
    ensures
        final(buf)@ == old(buf)@ + history_entries_bytes(items@),
{
    let mut i: usize = 0;
    assert(items@.subrange(0, 0) =~= Seq::<HistoryEntry>::empty());
    assert(buf@ =~= old(buf)@ + history_entries_bytes(items@.subrange(0, 0)));
    while i < items.len()
        invariant
            i <= items@.len(),
            buf@ == old(buf)@ + history_entries_bytes(items@.subrange(0, i as int)),
        decreases items@.len() - i,
    {
        bytes::push_bytes(buf, &items[i].encode());
        proof {
            let t = items@.subrange(0, i + 1);
            assert(t.drop_last() =~= items@.subrange(0, i as int));
            assert(buf@ =~= old(buf)@ + history_entries_bytes(t));
        }
        i = i + 1;
    }
    assert(items@.subrange(0, i as int) =~= items@);
}

/// An address's transactions, or that this node does not keep track of them.
#[derive(Clone, Debug, PartialEq, Eq)]
pub struct HistoryMessage {
    pub status: LookupStatus,
    /// How many the node holds in total, which may exceed what it sent.
    pub total: u32,
    pub entries: Vec<HistoryEntry>,
}

/// A history on the wire: found, the total, the number of entries, and the
/// entries.
pub open spec fn history_bytes(total: u32, entries: Seq<HistoryEntry>) -> Seq<u8> {
    seq![0u8] + bytes::le_bytes(total as nat, 4) + bytes::le_bytes(entries.len(), 4)
        + history_entries_bytes(entries)
}

/// Whether some bytes are a history, or say that there is no index.
pub open spec fn history_decodable(data: Seq<u8>) -> bool {
    ||| data.len() == 1 && data[0] == 2
    ||| {
        &&& data.len() >= 9
        &&& data[0] < 2
        &&& bytes::le_value(data.subrange(5, 9)) <= MAX_HISTORY_ENTRIES
        &&& data.len() == 9 + 72 * bytes::le_value(data.subrange(5, 9))
    }
}

/// What is wrong with bytes that are no history.
pub open spec fn history_fault(data: Seq<u8>) -> Fault {
    let count = bytes::le_value(data.subrange(5, 9));
    if data.len() == 0 {
        error::malformed("history: empty payload"@)
    } else if data[0] > 2 {
        unknown_status(data[0])
    } else if data[0] == 2 {
        error::malformed(
            text::number_between("history: "@, (data.len() - 1) as nat, " trailing bytes"@),
        )
    } else if data.len() < 9 {
        error::malformed("history: truncated header"@)
    } else if count > MAX_HISTORY_ENTRIES {
        error::malformed(
            text::two_numbers(
                "history: "@,
                count,
                " entries, more than the "@,
                MAX_HISTORY_ENTRIES as nat,
            ) + " allowed"@,
        )
    } else {
        error::malformed(
            text::two_numbers("history: expected "@, 9 + 72 * count, " bytes for "@, count) + (
            " entries, got "@ + text::decimal(data.len())),
        )
    }
}

/// Whether some bytes are this history. One that is not the lack of an index
/// counts as found.
pub open spec fn history_denoted(data: Seq<u8>, m: HistoryMessage) -> bool {
    if data[0] == 2 {
        m.status == LookupStatus::NotIndexed && m.total == 0 && m.entries@.len() == 0
    } else {
        &&& m.status == LookupStatus::Found
        &&& data.subrange(1, data.len() as int) == history_bytes(m.total, m.entries@).subrange(
            1,
            history_bytes(m.total, m.entries@).len() as int,
        )
    }
}

impl HistoryMessage {
    pub fn not_indexed() -> (r: HistoryMessage)
        ensures
            r.status == LookupStatus::NotIndexed,
            r.total == 0,
            r.entries@.len() == 0,
    {
        HistoryMessage { status: LookupStatus::NotIndexed, total: 0, entries: Vec::new() }
    }

    /// The bytes on the wire. Anything but the lack of an index goes out as
    /// found.
    pub fn encode(&self) -> (r: Vec<u8>)
        ensures
            r@ == if self.status == LookupStatus::NotIndexed {
                seq![2u8]
            } else {
                history_bytes(self.total, self.entries@)
            },
    {
        let mut buf: Vec<u8> = Vec::new();
        if self.status == LookupStatus::NotIndexed {
            buf.push(self.status.code());
            assert(buf@ =~= seq![2u8]);
            return buf;
        }
        buf.push(LookupStatus::Found.code());
        bytes::push_le(&mut buf, self.total as u64, 4);
        bytes::push_le(&mut buf, self.entries.len() as u64, 4);
        push_history_entries(&mut buf, &self.entries);
        assert(buf@ =~= history_bytes(self.total, self.entries@));
        buf
    }

    pub fn decode(data: &[u8]) -> (r: Result<HistoryMessage>)
        ensures
            match r {
                Ok(m) => history_decodable(data@) && history_denoted(data@, m),
                Err(e) => !history_decodable(data@) && e.fault() == history_fault(data@),
            },
    {
        if data.len() == 0 {
            return Err(CoreError::Serialization("history: empty payload".to_string()));
        }
        let status = match LookupStatus::from_u8(data[0]) {
            Ok(s) => s,
            Err(e) => {
                return Err(e);
            },
        };
        if status == LookupStatus::NotIndexed {
            if data.len() != 1 {
                return Err(
                    CoreError::Serialization(
                        text::phrase_around(
                            "history: ",
                            (data.len() - 1) as u64,
                            " trailing bytes",
                        ),
                    ),
                );
            }
            return Ok(HistoryMessage::not_indexed());
        }
        if data.len() < 9 {
            return Err(CoreError::Serialization("history: truncated header".to_string()));
        }
        proof {
            bytes::lemma_pow256_values();
        }
        let total: u32 = bytes::read_le(data, 1, 4) as u32;
        let count: u64 = bytes::read_le(data, 5, 4);
        if count > MAX_HISTORY_ENTRIES as u64 {
            return Err(
                CoreError::Serialization(
                    error::joined(
                        text::phrase2(
                            "history: ",
                            count,
                            " entries, more than the ",
                            MAX_HISTORY_ENTRIES as u64,
                        ).as_str(),
                        " allowed",
                    ),
                ),
            );
        }
        if data.len() as u64 != 9 + 72 * count {
            return Err(
                CoreError::Serialization(
                    error::joined(
                        text::phrase2(
                            "history: expected ",
                            9 + 72 * count,
                            " bytes for ",
                            count,
                        ).as_str(),
                        text::phrase1(" entries, got ", data.len() as u64).as_str(),
                    ),
                ),
            );
        }
        let n: usize = count as usize;
        let mut entries: Vec<HistoryEntry> = Vec::new();
        let mut i: usize = 0;
        assert(data@.subrange(9, 9) =~= Seq::<u8>::empty());
        while i < n
            invariant
                i <= n,
                n <= 1000,
                data@.len() == 9 + 72 * n,
                entries@.len() == i,
                history_entries_bytes(entries@) == data@.subrange(9, 9 + 72 * i),
            decreases n - i,
        {
            let at: usize = 9 + 72 * i;
            match HistoryEntry::decode(&data[at..at + 72]) {
                Ok(e) => {
                    let ghost before = entries@;
                    entries.push(e);
                    proof {
                        assert(entries@.drop_last() =~= before);
                        bytes::lemma_join_ranges(data@, 9, at as int, at + 72);
                    }
                },
                Err(e) => {
                    return Err(e);
                },
            }
            i = i + 1;
        }
        proof {
            bytes::lemma_le_bytes_of_value(data@.subrange(1, 5));
            bytes::lemma_le_bytes_of_value(data@.subrange(5, 9));
            let whole = history_bytes(total, entries@);
            assert(data@.subrange(1, data@.len() as int) =~= whole.subrange(
                1,
                whole.len() as int,
            ));
        }
        Ok(HistoryMessage { status: LookupStatus::Found, total, entries })
    }
}

/// A history of no more than the allowed number of entries reads back from its
/// bytes.
pub proof fn history_roundtrip(total: u32, entries: Seq<HistoryEntry>, v: HistoryMessage)
    requires
        entries.len() <= MAX_HISTORY_ENTRIES,
    ensures
        history_decodable(history_bytes(total, entries)),
        history_denoted(history_bytes(total, entries), v) && v.entries@.len()
            <= MAX_HISTORY_ENTRIES ==> v.status == LookupStatus::Found && v.total == total
            && v.entries@ == entries,
{
    let data = history_bytes(total, entries);
    bytes::lemma_pow256_values();
    bytes::lemma_le_bytes_len(total as nat, 4);
    bytes::lemma_le_bytes_len(entries.len(), 4);
    bytes::lemma_le_value_of_bytes(entries.len(), 4);
    lemma_history_entries_len(entries);
    assert(data.subrange(5, 9) =~= bytes::le_bytes(entries.len(), 4));
    if history_denoted(data, v) && v.entries@.len() <= MAX_HISTORY_ENTRIES {
        let other = history_bytes(v.total, v.entries@);
        bytes::lemma_le_bytes_len(v.total as nat, 4);
        bytes::lemma_le_bytes_len(v.entries@.len(), 4);
        lemma_history_entries_len(v.entries@);
        let a = data.subrange(1, data.len() as int);
        let b = other.subrange(1, other.len() as int);
        assert(a.subrange(0, 4) =~= bytes::le_bytes(total as nat, 4));
        assert(b.subrange(0, 4) =~= bytes::le_bytes(v.total as nat, 4));
        assert(a.subrange(4, 8) =~= bytes::le_bytes(entries.len(), 4));
        assert(b.subrange(4, 8) =~= bytes::le_bytes(v.entries@.len(), 4));
        assert(a.subrange(8, a.len() as int) =~= history_entries_bytes(entries));
        assert(b.subrange(8, b.len() as int) =~= history_entries_bytes(v.entries@));
        bytes::lemma_le_bytes_injective(total as nat, v.total as nat, 4);
        bytes::lemma_le_bytes_injective(entries.len(), v.entries@.len(), 4);
        lemma_history_entries_injective(entries, v.entries@);
    }
}

} // verus!
