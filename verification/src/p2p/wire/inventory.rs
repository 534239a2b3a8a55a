//! Messages about inventory: what a node has, and what it wants.

use vstd::prelude::*;
use crate::bytes;
use crate::error;
use crate::error::{CoreError, Fault, Result};
use crate::hash;
use crate::p2p::wire::control;
use crate::text;

verus! {

/// Which headers a peer is asking for: those after `start_hash`, up to
/// `stop_hash`, which is zero for as many as there are.
#[derive(Clone, Copy, Debug, PartialEq, Eq)]
pub struct GetHeadersMessage {
    pub start_hash: hash::Hash,
    pub stop_hash: hash::Hash,
}

impl GetHeadersMessage {
    /// The bytes on the wire.
    pub open spec fn spec_bytes(self) -> Seq<u8> {
        self.start_hash.0@
            + self.stop_hash.0@
    }

    pub fn encode(&self) -> (r: Vec<u8>)
        ensures
            r@ == self.spec_bytes(),
    {
        let mut buf: Vec<u8> = Vec::new();
        bytes::push_bytes(&mut buf, &self.start_hash.0);
        bytes::push_bytes(&mut buf, &self.stop_hash.0);
        assert(buf@ =~= self.spec_bytes());
        buf
    }

    pub fn decode(data: &[u8]) -> (r: Result<GetHeadersMessage>)
        ensures
            match r {
                Ok(m) => data@ == m.spec_bytes(),
                Err(e) => data@.len() != 64 && e.fault() == control::other_size(
                    "getheaders"@,
                    64,
                    data@.len(),
                ),
            },
    {
        if data.len() != 64 {
            return Err(
                CoreError::Serialization(control::other_size_text("getheaders", 64, data.len())),
            );
        }
        proof {
            bytes::lemma_pow256_values();
        }
        let start_hash: [u8; 32] = bytes::take_array::<32>(data, 0);
        let stop_hash: [u8; 32] = bytes::take_array::<32>(data, 32);
        let m = GetHeadersMessage { start_hash: hash::Hash(start_hash), stop_hash: hash::Hash(stop_hash) };
        proof {
            bytes::lemma_join_ranges(data@, 0, 32, 64);
            assert(data@.subrange(0, 64) =~= data@);
        }
        Ok(m)
    }
}

/// A header request reads back from its bytes: they have the fixed length and stand
/// for no other value.
pub proof fn get_headers_roundtrip(m: GetHeadersMessage, v: GetHeadersMessage)
    ensures
        m.spec_bytes().len() == 64,
        m.spec_bytes() == v.spec_bytes() ==> m == v,
{
    if m.spec_bytes() == v.spec_bytes() {
        bytes::lemma_split_equal(
            m.start_hash.0@,
            m.stop_hash.0@,
            v.start_hash.0@,
            v.stop_hash.0@,
        );
        bytes::lemma_array_equal(m.start_hash.0, v.start_hash.0);
        bytes::lemma_array_equal(m.stop_hash.0, v.stop_hash.0);
    }
}

#[derive(Clone, Copy, PartialEq, Eq, Structural, Debug, Hash)]
pub enum InvType {
    Block,
    Tx,
}

/// The byte that stands for an inventory type.
pub open spec fn inv_code(t: InvType) -> u8 {
    match t {
        InvType::Block => 0x01,
        InvType::Tx => 0x02,
    }
}

/// The complaint that a byte stands for no inventory type.
pub open spec fn unknown_type(v: u8) -> Fault {
    error::malformed("unknown inv type: "@ + text::decimal(v as nat))
}

impl InvType {
    /// The byte that stands for the type.
    pub fn code(&self) -> (r: u8)
        ensures
            r == inv_code(*self),
    {
        match self {
            InvType::Block => 0x01,
            InvType::Tx => 0x02,
        }
    }

    pub fn from_u8(v: u8) -> (r: Result<Self>)
        ensures
            match r {
                Ok(t) => inv_code(t) == v,
                Err(e) => v != 0x01 && v != 0x02 && e.fault() == unknown_type(v),
            },
    {
        match v {
            0x01 => Ok(InvType::Block),
            0x02 => Ok(InvType::Tx),
            _ => Err(CoreError::Serialization(text::phrase1("unknown inv type: ", v as u64))),
        }
    }
}

/// One thing that a node has or wants.
#[derive(Clone, Copy, Debug, PartialEq, Eq)]
pub struct InvEntry {
    pub inv_type: InvType,
    pub hash: hash::Hash,
}

impl InvEntry {
    /// The bytes on the wire.
    pub open spec fn spec_bytes(self) -> Seq<u8> {
        seq![inv_code(self.inv_type)] + self.hash.0@
    }

    fn encode(&self) -> (r: Vec<u8>)
        ensures
            r@ == self.spec_bytes(),
    {
        let mut buf: Vec<u8> = Vec::new();
        buf.push(self.inv_type.code());
        bytes::push_bytes(&mut buf, &self.hash.0);
        assert(buf@ =~= self.spec_bytes());
        buf
    }
}

proof fn lemma_entry_injective(a: InvEntry, b: InvEntry)
    requires
        a.spec_bytes() == b.spec_bytes(),
    ensures
        a == b,
{
    bytes::lemma_split_equal(
        seq![inv_code(a.inv_type)],
        a.hash.0@,
        seq![inv_code(b.inv_type)],
        b.hash.0@,
    );
    assert(seq![inv_code(a.inv_type)][0] == seq![inv_code(b.inv_type)][0]);
    bytes::lemma_array_equal(a.hash.0, b.hash.0);
}

/// Inventory entries, one after the other.
pub open spec fn entries_bytes(s: Seq<InvEntry>) -> Seq<u8>
    decreases s.len(),
{
    if s.len() == 0 {
        Seq::empty()
    } else {
        entries_bytes(s.drop_last()) + s.last().spec_bytes()
    }
}

pub proof fn lemma_entries_len(s: Seq<InvEntry>)
    ensures
        entries_bytes(s).len() == 33 * s.len(),
    decreases s.len(),
{
    if s.len() > 0 {
        lemma_entries_len(s.drop_last());
    }
}

proof fn lemma_entries_injective(a: Seq<InvEntry>, b: Seq<InvEntry>)
    requires
        a.len() == b.len(),
        entries_bytes(a) == entries_bytes(b),
    ensures
        a == b,
    decreases a.len(),
{
    if a.len() > 0 {
        
        bytes::lemma_split_equal(
            entries_bytes(a.drop_last()),
            a.last().spec_bytes(),
            entries_bytes(b.drop_last()),
            b.last().spec_bytes(),
        );
        lemma_entries_injective(a.drop_last(), b.drop_last());
        lemma_entry_injective(a.last(), b.last());
        assert(a =~= a.drop_last().push(a.last()));
        assert(b =~= b.drop_last().push(b.last()));
    } else {
        assert(a =~= b);
    }
}

fn push_entries(buf: &mut Vec<u8>, items: &[InvEntry])
    ensures
        final(buf)@ == old(buf)@ + entries_bytes(items@),
{
    let mut i: usize = 0;
    assert(items@.subrange(0, 0) =~= Seq::<InvEntry>::empty());
    assert(buf@ =~= old(buf)@ + entries_bytes(items@.subrange(0, 0)));
    while i < items.len()
        invariant
            i <= items@.len(),
            buf@ == old(buf)@ + entries_bytes(items@.subrange(0, i as int)),
        decreases items@.len() - i,
    {
        bytes::push_bytes(buf, &items[i].encode());
        proof {
            let t = items@.subrange(0, i + 1);
            assert(t.drop_last() =~= items@.subrange(0, i as int));
            assert(buf@ =~= old(buf)@ + entries_bytes(t));
        }
        i = i + 1;
    }
    assert(items@.subrange(0, i as int) =~= items@);
}

/// An inventory on the wire: the low four bytes of its length, and its entries.
pub open spec fn inventory_bytes(s: Seq<InvEntry>) -> Seq<u8> {
    bytes::le_bytes(s.len(), 4) + entries_bytes(s)
}

/// Whether some bytes are an inventory of fewer than two to the power 32
/// entries.
pub open spec fn inventory_decodable(data: Seq<u8>) -> bool {
    &&& data.len() >= 4
    &&& data.len() == 4 + 33 * bytes::le_value(data.subrange(0, 4))
    &&& forall|i: int|
        0 <= i < bytes::le_value(data.subrange(0, 4)) ==> {
            let code = #[trigger] data[4 + 33 * i];
            code == 0x01 || code == 0x02
        }
}

/// What is wrong with the type of one of the entries from the `i`-th on, or how
/// many bytes follow the last.
pub open spec fn entries_fault(what: Seq<char>, data: Seq<u8>, i: int, n: int) -> Fault
    decreases n - i,
{
    if i >= n {
        error::malformed(
            what + text::number_between(
                ": "@,
                (data.len() - (4 + 33 * n)) as nat,
                " trailing bytes"@,
            ),
        )
    } else if data[4 + 33 * i] != 0x01 && data[4 + 33 * i] != 0x02 {
        unknown_type(data[4 + 33 * i])
    } else {
        entries_fault(what, data, i + 1, n)
    }
}

/// What is wrong with bytes that are no inventory.
pub open spec fn inventory_fault(what: Seq<char>, data: Seq<u8>) -> Fault {
    let n = bytes::le_value(data.subrange(0, 4));
    if data.len() < 4 {
        error::malformed(what + ": too short"@)
    } else if 33 * n > usize::MAX {
        error::malformed(what + ": count overflow"@)
    } else if 4 + 33 * n > usize::MAX {
        error::malformed(what + ": size overflow"@)
    } else if data.len() < 4 + 33 * n {
        error::malformed(what + ": truncated"@)
    } else {
        entries_fault(what, data, 0, n as int)
    }
}

fn encode_inventory(inventory: &[InvEntry]) -> (r: Vec<u8>)
    ensures
        r@ == inventory_bytes(inventory@),
{
    let mut buf: Vec<u8> = Vec::new();
    bytes::push_le(&mut buf, inventory.len() as u64, 4);
    push_entries(&mut buf, inventory);
    assert(buf@ =~= inventory_bytes(inventory@));
    buf
}

fn decode_inventory(data: &[u8], what: &str) -> (r: Result<Vec<InvEntry>>)
    ensures
        match r {
            Ok(v) => inventory_decodable(data@) && data@ == inventory_bytes(v@) && v@.len()
                <= u32::MAX,
            Err(e) => !inventory_decodable(data@) && e.fault() == inventory_fault(what@, data@),
        },
{
    if data.len() < 4 {
        return Err(CoreError::Serialization(error::joined(what, ": too short")));
    }
    proof {
        bytes::lemma_pow256_values();
    }
    let count: u64 = bytes::read_le(data, 0, 4);
    let len: usize = data.len();
    if 33 * count > usize::MAX as u64 {
        return Err(CoreError::Serialization(error::joined(what, ": count overflow")));
    }
    if 4 + 33 * count > usize::MAX as u64 {
        return Err(CoreError::Serialization(error::joined(what, ": size overflow")));
    }
    if (len as u64) < 4 + 33 * count {
        return Err(CoreError::Serialization(error::joined(what, ": truncated")));
    }
    let n: usize = count as usize;
    let mut inventory: Vec<InvEntry> = Vec::new();
    let mut i: usize = 0;
    assert(data@.subrange(4, 4) =~= Seq::<u8>::empty());
    while i < n
        invariant
            i <= n,
            len == data@.len(),
            n == bytes::le_value(data@.subrange(0, 4)),
            data@.len() >= 4 + 33 * n,
            inventory_fault(what@, data@) == entries_fault(what@, data@, i as int, n as int),
            inventory@.len() == i,
            entries_bytes(inventory@) == data@.subrange(4, 4 + 33 * i),
            forall|j: int|
                0 <= j < i ==> {
                    let code = #[trigger] data@[4 + 33 * j];
                    code == 0x01 || code == 0x02
                },
        decreases n - i,
    {
        let pos: usize = 4 + 33 * i;
        let inv_type = match InvType::from_u8(data[pos]) {
            Ok(t) => t,
            Err(e) => {
                assert(data@[4 + 33 * i] != 0x01);
                return Err(e);
            },
        };
        let h: [u8; 32] = bytes::take_array::<32>(data, pos + 1);
        let entry = InvEntry { inv_type, hash: hash::Hash(h) };
        let ghost before = inventory@;
        inventory.push(entry);
        proof {
            assert(inventory@.drop_last() =~= before);
            assert(entry.spec_bytes() =~= data@.subrange(pos as int, pos + 33));
            bytes::lemma_join_ranges(data@, 4, pos as int, pos + 33);
        }
        i = i + 1;
    }
    let used: usize = 4 + 33 * n;
    if used != len {
        return Err(
            CoreError::Serialization(
                error::joined(
                    what,
                    text::phrase_around(": ", (len - used) as u64, " trailing bytes").as_str(),
                ),
            ),
        );
    }
    proof {
        bytes::lemma_le_bytes_of_value(data@.subrange(0, 4));
        bytes::lemma_join_ranges(data@, 0, 4, data@.len() as int);
        assert(data@.subrange(0, data@.len() as int) =~= data@);
    }
    Ok(inventory)
}

/// An inventory reads back from its bytes: they are accepted and stand for no
/// other inventory.
pub proof fn inventory_roundtrip(s: Seq<InvEntry>, t: Seq<InvEntry>)
    requires
        s.len() <= u32::MAX,
        t.len() <= u32::MAX,
    ensures
        inventory_decodable(inventory_bytes(s)),
        inventory_bytes(s) == inventory_bytes(t) ==> s == t,
{
    let data = inventory_bytes(s);
    bytes::lemma_pow256_values();
    bytes::lemma_le_bytes_len(s.len(), 4);
    bytes::lemma_le_bytes_len(t.len(), 4);
    bytes::lemma_le_value_of_bytes(s.len(), 4);
    lemma_entries_len(s);
    assert(data.subrange(0, 4) =~= bytes::le_bytes(s.len(), 4));
    assert forall|i: int| 0 <= i < s.len() implies {
        let code = #[trigger] data[4 + 33 * i];
        code == 0x01 || code == 0x02
    } by {
        lemma_entries_at(s, i);
        assert(data[4 + 33 * i] == entries_bytes(s)[33 * i]);
    }
    if data == inventory_bytes(t) {
        bytes::lemma_split_equal(
            bytes::le_bytes(s.len(), 4),
            entries_bytes(s),
            bytes::le_bytes(t.len(), 4),
            entries_bytes(t),
        );
        bytes::lemma_le_bytes_injective(s.len(), t.len(), 4);
        lemma_entries_injective(s, t);
    }
}

/// Where the type of the i-th entry stands.
proof fn lemma_entries_at(s: Seq<InvEntry>, i: int)
    requires
        0 <= i < s.len(),
    ensures
        33 * i < entries_bytes(s).len(),
        entries_bytes(s)[33 * i] == inv_code(s[i].inv_type),
    decreases s.len(),
{
    lemma_entries_len(s);
    lemma_entries_len(s.drop_last());
    if i < s.len() - 1 {
        lemma_entries_at(s.drop_last(), i);
    }
}

/// Things a node announces.
#[derive(Clone, Debug)]
pub struct InvMessage {
    pub inventory: Vec<InvEntry>,
}

impl InvMessage {
    pub fn encode(&self) -> (r: Vec<u8>)
        ensures
            r@ == inventory_bytes(self.inventory@),
    {
        encode_inventory(&self.inventory)
    }

    pub fn decode(data: &[u8]) -> (r: Result<InvMessage>)
        ensures
            match r {
                Ok(m) => inventory_decodable(data@) && data@ == inventory_bytes(m.inventory@)
                    && m.inventory@.len() <= u32::MAX,
                Err(e) => !inventory_decodable(data@) && e.fault() == inventory_fault("inv"@, data@),
            },
    {
        match decode_inventory(data, "inv") {
            Ok(inventory) => Ok(InvMessage { inventory }),
            Err(e) => Err(e),
        }
    }
}

/// Things a node asks for.
#[derive(Clone, Debug)]
pub struct GetDataMessage {
    pub inventory: Vec<InvEntry>,
}

impl GetDataMessage {
    pub fn encode(&self) -> (r: Vec<u8>)
        ensures
            r@ == inventory_bytes(self.inventory@),
    {
        encode_inventory(&self.inventory)
    }

    pub fn decode(data: &[u8]) -> (r: Result<GetDataMessage>)
        ensures
            match r {
                Ok(m) => inventory_decodable(data@) && data@ == inventory_bytes(m.inventory@)
                    && m.inventory@.len() <= u32::MAX,
                Err(e) => !inventory_decodable(data@) && e.fault() == inventory_fault("getdata"@, data@),
            },
    {
        match decode_inventory(data, "getdata") {
            Ok(inventory) => Ok(GetDataMessage { inventory }),
            Err(e) => Err(e),
        }
    }
}

} // verus!
