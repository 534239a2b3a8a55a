//! Where everything stands on the wire.

use vstd::prelude::*;
use crate::block::BlockHeader;
use crate::bytes;
use crate::hash;
use crate::p2p::address::PeerAddress;
use crate::p2p::net::IpAddr;
use crate::p2p::wire::addr;
use crate::p2p::wire::control::{PingMessage, VersionMessage};
use crate::p2p::wire::frame;
use crate::p2p::wire::frame::{Frame, MessageType, MessageView};
use crate::p2p::wire::headers;
use crate::p2p::wire::inventory;
use crate::p2p::wire::inventory::{GetHeadersMessage, InvEntry, InvType};
use crate::p2p::wire::lookup;
use crate::p2p::wire::lookup::{HistoryEntry, HistoryMessage, LookupStatus, TransactionAtMessage};
use crate::p2p::wire::query::{
    AccountMessage, ChainInfoMessage, GetAccountMessage, GetHistoryMessage, GetTransactionMessage,
};
use crate::p2p::wire::reject;
use crate::serialize;
use crate::serialize::CanonicalEncode;

verus! {

/// The number in some bytes from a place on, least significant first.
pub open spec fn number_at(data: Seq<u8>, at: int, n: int) -> nat {
    bytes::le_value(data.subrange(at, at + n))
}

proof fn lemma_number(data: Seq<u8>, at: int, v: nat, n: nat)
    requires
        0 <= at,
        at + n <= data.len(),
        data.subrange(at, at + n) =~= bytes::le_bytes(v, n),
        v < bytes::pow256(n),
    ensures
        number_at(data, at, n as int) == v,
{
    bytes::lemma_le_value_of_bytes(v, n);
}

proof fn lemma_widths(v: nat)
    ensures
        bytes::le_bytes(v, 2).len() == 2,
        bytes::le_bytes(v, 4).len() == 4,
        bytes::le_bytes(v, 8).len() == 8,
        bytes::pow256(2) == 0x1_0000,
        bytes::pow256(4) == 0x1_0000_0000,
        bytes::pow256(8) == 0x1_0000_0000_0000_0000,
{
    bytes::lemma_le_bytes_len(v, 2);
    bytes::lemma_le_bytes_len(v, 4);
    bytes::lemma_le_bytes_len(v, 8);
    reveal_with_fuel(bytes::pow256, 9);
}

/// Which number stands for which kind of message.
pub proof fn message_kinds_are_numbered(code: u8)
    ensures
        frame::type_code(MessageType::Version) == 1,
        frame::type_code(MessageType::VerAck) == 2,
        frame::type_code(MessageType::Ping) == 3,
        frame::type_code(MessageType::Pong) == 4,
        frame::type_code(MessageType::GetAddr) == 5,
        frame::type_code(MessageType::Addr) == 6,
        frame::type_code(MessageType::GetHeaders) == 7,
        frame::type_code(MessageType::Headers) == 8,
        frame::type_code(MessageType::Inv) == 9,
        frame::type_code(MessageType::GetData) == 10,
        frame::type_code(MessageType::Tx) == 11,
        frame::type_code(MessageType::Block) == 12,
        frame::type_code(MessageType::NotFound) == 13,
        frame::type_code(MessageType::Reject) == 14,
        frame::type_code(MessageType::GetChainInfo) == 15,
        frame::type_code(MessageType::ChainInfo) == 16,
        frame::type_code(MessageType::GetAccount) == 17,
        frame::type_code(MessageType::Account) == 18,
        frame::type_code(MessageType::GetTransaction) == 19,
        frame::type_code(MessageType::TransactionAt) == 20,
        frame::type_code(MessageType::GetHistory) == 21,
        frame::type_code(MessageType::History) == 22,
        1 <= code <= 22 ==> (frame::type_of(code) matches Some(t) && frame::type_code(t) == code),
        !(1 <= code <= 22) ==> frame::type_of(code) is None,
{
}

/// A frame is thirteen bytes and the payload: four fixed bytes, the kind, the
/// payload's length in four, and the first four bytes of its BLAKE3 digest.
pub proof fn frame_layout(m: MessageView)
    requires
        m.payload.len() <= u32::MAX,
    ensures
        ({
            let f = frame::frame_bytes(m);
            &&& f.len() == 13 + m.payload.len()
            &&& f[0] == 0xC4 && f[1] == 0x48 && f[2] == 0x52 && f[3] == 0x4F
            &&& f[4] == frame::type_code(m.msg_type)
            &&& number_at(f, 5, 4) == m.payload.len()
            &&& f.subrange(9, 13) == hash::spec_blake3(m.payload)@.subrange(0, 4)
            &&& f.subrange(13, f.len() as int) == m.payload
        }),
{
    let f = frame::frame_bytes(m);
    lemma_widths(m.payload.len());
    assert(frame::MAGIC@.len() == 4);
    assert(f.subrange(9, 13) =~= hash::spec_blake3(m.payload)@.subrange(0, 4));
    assert(f.subrange(13, f.len() as int) =~= m.payload);
    lemma_number(f, 5, m.payload.len(), 4);
}

/// The front of a stream is a message exactly when it has thirteen bytes that
/// begin with the fixed four and a known kind, when they promise no more than four
/// mebibytes, when as many follow, and when those have the promised digest.
pub proof fn stream_is_read_exactly_when(data: Seq<u8>)
    ensures
        ({
            let len = number_at(data, 5, 4) as int;
            let marked = data[0] == 0xC4 && data[1] == 0x48 && data[2] == 0x52 && data[3] == 0x4F;
            let sound = marked && 1 <= data[4] <= 22 && len <= 4_194_304;
            let payload = data.subrange(13, 13 + len);
            let kept = data.subrange(9, 13) == hash::spec_blake3(payload)@.subrange(0, 4);
            let r = frame::frame_at(data);
            &&& data.len() < 13 <==> r is Short
            &&& data.len() >= 13 && sound && data.len() < 13 + len <==> r is Partial
            &&& r matches Frame::Partial(total) ==> total == 13 + len
            &&& data.len() >= 13 && sound && data.len() >= 13 + len && kept <==> r is Whole
            &&& r matches Frame::Whole(m, total) ==> m.payload == payload && total == 13 + len
                && frame::type_code(m.msg_type) == data[4]
            &&& data.len() >= 13 && (!sound || (data.len() >= 13 + len && !kept)) <==> r is Garbage
        }),
{
    let magic = frame::MAGIC@;
    assert(magic[0] == 0xC4 && magic[1] == 0x48 && magic[2] == 0x52 && magic[3] == 0x4F);
    if data.len() >= 13 {
        let d = data.subrange(0, 4);
        assert(d[0] == data[0] && d[1] == data[1] && d[2] == data[2] && d[3] == data[3]);
        let marked = data[0] == 0xC4 && data[1] == 0x48 && data[2] == 0x52 && data[3] == 0x4F;
        if marked {
            assert(d =~= magic);
        }
        assert(marked <==> d == magic);
        frame::type_code_roundtrip(MessageType::Version, data[4]);
        if frame::type_of(data[4]) is Some {
            frame::type_code_roundtrip(frame::type_of(data[4])->0, data[4]);
        }
    }
}

/// A version is six numbers of 4, 8, 8, 4, 8 and 2 bytes, and a ping one of 8.
pub proof fn version_and_ping_layout(m: VersionMessage, p: PingMessage)
    ensures
        ({
            let d = m.spec_bytes();
            &&& d.len() == 34
            &&& number_at(d, 0, 4) == m.version
            &&& number_at(d, 4, 8) == m.services
            &&& number_at(d, 12, 8) == m.timestamp
            &&& number_at(d, 20, 4) == m.height
            &&& number_at(d, 24, 8) == m.nonce
            &&& number_at(d, 32, 2) == m.listen_port
            &&& p.spec_bytes().len() == 8
            &&& number_at(p.spec_bytes(), 0, 8) == p.nonce
        }),
{
    let d = m.spec_bytes();
    lemma_widths(m.version as nat);
    lemma_widths(m.services as nat);
    lemma_widths(m.timestamp as nat);
    lemma_widths(m.height as nat);
    lemma_widths(m.nonce as nat);
    lemma_widths(m.listen_port as nat);
    lemma_widths(p.nonce as nat);
    lemma_number(d, 0, m.version as nat, 4);
    lemma_number(d, 4, m.services as nat, 8);
    lemma_number(d, 12, m.timestamp as nat, 8);
    lemma_number(d, 20, m.height as nat, 4);
    lemma_number(d, 24, m.nonce as nat, 8);
    lemma_number(d, 32, m.listen_port as nat, 2);
    lemma_number(p.spec_bytes(), 0, p.nonce as nat, 8);
}

/// A request for headers is two hashes: after which, and up to which.
pub proof fn get_headers_layout(m: GetHeadersMessage)
    ensures
        m.spec_bytes().len() == 64,
        m.spec_bytes().subrange(0, 32) == m.start_hash.0@,
        m.spec_bytes().subrange(32, 64) == m.stop_hash.0@,
{
    assert(m.spec_bytes().subrange(0, 32) =~= m.start_hash.0@);
    assert(m.spec_bytes().subrange(32, 64) =~= m.stop_hash.0@);
}

/// An inventory is a count in four bytes and 33 bytes an entry: one for a block
/// or two for a transaction, and the hash.
pub proof fn inventory_layout(s: Seq<InvEntry>, i: int)
    requires
        0 <= i < s.len() <= u32::MAX,
    ensures
        ({
            let d = inventory::inventory_bytes(s);
            let at = 4 + 33 * i;
            &&& d.len() == 4 + 33 * s.len()
            &&& number_at(d, 0, 4) == s.len()
            &&& d[at] == (if s[i].inv_type == InvType::Block {
                1int
            } else {
                2int
            })
            &&& d.subrange(at + 1, at + 33) == s[i].hash.0@
        }),
{
    let d = inventory::inventory_bytes(s);
    let at = 4 + 33 * i;
    lemma_widths(s.len());
    inventory::lemma_entries_len(s);
    lemma_number(d, 0, s.len(), 4);
    lemma_entry_stands(s, i);
    let e = inventory::entries_bytes(s);
    assert(e.subrange(33 * i, 33 * i + 33)[0] == d[at]);
    assert(d.subrange(at + 1, at + 33) =~= e.subrange(33 * i, 33 * i + 33).subrange(1, 33));
    assert(s[i].spec_bytes().subrange(1, 33) =~= s[i].hash.0@);
}

proof fn lemma_entry_stands(s: Seq<InvEntry>, i: int)
    requires
        0 <= i < s.len(),
    ensures
        inventory::entries_bytes(s).len() == 33 * s.len(),
        inventory::entries_bytes(s).subrange(33 * i, 33 * i + 33) == s[i].spec_bytes(),
    decreases s.len(),
{
    inventory::lemma_entries_len(s);
    let t = s.drop_last();
    inventory::lemma_entries_len(t);
    let e = inventory::entries_bytes(s);
    let f = inventory::entries_bytes(t);
    if i < t.len() {
        lemma_entry_stands(t, i);
        assert(e.subrange(33 * i, 33 * i + 33) =~= f.subrange(33 * i, 33 * i + 33));
    } else {
        assert(e.subrange(33 * i, 33 * i + 33) =~= s.last().spec_bytes());
    }
}

/// A run of headers is a LEB128 count and 124 bytes a header, in order.
pub proof fn headers_layout(s: Seq<BlockHeader>, i: int)
    requires
        0 <= i < s.len(),
    ensures
        ({
            let d = headers::headers_payload(s);
            let front = serialize::leb128(s.len());
            let at = front.len() + 124 * i;
            &&& d.len() == front.len() + 124 * s.len()
            &&& d.subrange(0, front.len() as int) == front
            &&& d.subrange(at, at + 124) == s[i].spec_encode()
        }),
{
    let d = headers::headers_payload(s);
    let front = serialize::leb128(s.len());
    let at = front.len() + 124 * i;
    lemma_header_stands(s, i);
    assert(d.subrange(0, front.len() as int) =~= front);
    assert(d.subrange(at, at + 124) =~= headers::headers_bytes(s).subrange(124 * i, 124 * i + 124));
}

proof fn lemma_header_stands(s: Seq<BlockHeader>, i: int)
    requires
        0 <= i < s.len(),
    ensures
        headers::headers_bytes(s).len() == 124 * s.len(),
        headers::headers_bytes(s).subrange(124 * i, 124 * i + 124) == s[i].spec_encode(),
    decreases s.len(),
{
    headers::lemma_headers_len(s);
    let t = s.drop_last();
    headers::lemma_headers_len(t);
    let e = headers::headers_bytes(s);
    let f = headers::headers_bytes(t);
    if i < t.len() {
        lemma_header_stands(t, i);
        assert(e.subrange(124 * i, 124 * i + 124) =~= f.subrange(124 * i, 124 * i + 124));
    } else {
        assert(e.subrange(124 * i, 124 * i + 124) =~= s.last().spec_encode());
    }
}

/// A peer is its identity, its key, a family of four or six with as many bytes as
/// that has, and a port in two.
pub proof fn peer_layout(p: PeerAddress)
    ensures
        ({
            let d = addr::peer_bytes(p);
            let n = d.len() as int;
            &&& d.subrange(0, 32) == p.node_id.0@
            &&& d.subrange(32, 64) == p.noise_key.0@
            &&& p.socket.ip matches IpAddr::V4(o) ==> n == 71 && d[64] == 4 && d.subrange(65, 69)
                == o@
            &&& p.socket.ip matches IpAddr::V6(o) ==> n == 83 && d[64] == 6 && d.subrange(65, 81)
                == o@
            &&& number_at(d, n - 2, 2) == p.socket.port
        }),
{
    let d = addr::peer_bytes(p);
    let n = d.len() as int;
    lemma_widths(p.socket.port as nat);
    assert(d.subrange(0, 32) =~= p.node_id.0@);
    assert(d.subrange(32, 64) =~= p.noise_key.0@);
    match p.socket.ip {
        IpAddr::V4(o) => {
            assert(d.subrange(65, 69) =~= o@);
        },
        IpAddr::V6(o) => {
            assert(d.subrange(65, 81) =~= o@);
        },
    }
    lemma_number(d, n - 2, p.socket.port as nat, 2);
}

/// A list of peers goes out as a LEB128 count and the peers in order, no more
/// than the first thousand of them.
pub proof fn peers_go_out_in_order(s: Seq<PeerAddress>, p: PeerAddress)
    ensures
        addr::peers_bytes(Seq::empty()) == Seq::<u8>::empty(),
        addr::peers_bytes(s.push(p)) == addr::peers_bytes(s) + addr::peer_bytes(p),
        s.len() <= 1000 ==> addr::addr_payload(s) == serialize::leb128(s.len()) + addr::peers_bytes(
            s,
        ),
        s.len() > 1000 ==> addr::addr_payload(s) == addr::addr_payload(s.subrange(0, 1000)),
    decreases s.len(),
{
    let t = s.push(p);
    if s.len() == 0 {
        assert(t.subrange(1, 1) =~= Seq::<PeerAddress>::empty());
        assert(addr::peers_bytes(t) =~= addr::peer_bytes(p) + addr::peers_bytes(t.subrange(1, 1)));
        assert(addr::peers_bytes(t) =~= addr::peers_bytes(s) + addr::peer_bytes(p));
    } else {
        let rest = s.subrange(1, s.len() as int);
        peers_go_out_in_order(rest, p);
        assert(t.subrange(1, t.len() as int) =~= rest.push(p));
        assert(addr::peers_bytes(t) =~= addr::peers_bytes(s) + addr::peer_bytes(p));
    }
}

/// The answers and requests about accounts, transactions and the chain.
pub proof fn query_layout(
    c: ChainInfoMessage,
    g: GetAccountMessage,
    a: AccountMessage,
    t: GetTransactionMessage,
    h: GetHistoryMessage,
)
    ensures
        ({
            let d = c.spec_bytes();
            &&& d.len() == 48
            &&& number_at(d, 0, 4) == c.height
            &&& d.subrange(4, 36) == c.tip.0@
            &&& number_at(d, 36, 4) == c.bits
            &&& number_at(d, 40, 8) == c.supply
        }),
        g.spec_bytes() == g.address.0.0@,
        ({
            let d = a.spec_bytes();
            &&& d.len() == 37
            &&& d.subrange(0, 20) == a.address.0.0@
            &&& d[20] == (if a.exists {
                1int
            } else {
                0int
            })
            &&& number_at(d, 21, 8) == a.balance
            &&& number_at(d, 29, 8) == a.nonce
        }),
        t.spec_bytes() == t.tx_hash.0@,
        ({
            let d = h.spec_bytes();
            &&& d.len() == 24
            &&& d.subrange(0, 20) == h.address.0.0@
            &&& number_at(d, 20, 4) == h.limit
        }),
{
    let d = c.spec_bytes();
    lemma_widths(c.height as nat);
    lemma_widths(c.bits as nat);
    lemma_widths(c.supply as nat);
    assert(d.subrange(4, 36) =~= c.tip.0@);
    lemma_number(d, 0, c.height as nat, 4);
    lemma_number(d, 36, c.bits as nat, 4);
    lemma_number(d, 40, c.supply as nat, 8);
    let e = a.spec_bytes();
    lemma_widths(a.balance as nat);
    lemma_widths(a.nonce as nat);
    assert(e.subrange(0, 20) =~= a.address.0.0@);
    lemma_number(e, 21, a.balance as nat, 8);
    lemma_number(e, 29, a.nonce as nat, 8);
    let f = h.spec_bytes();
    lemma_widths(h.limit as nat);
    assert(f.subrange(0, 20) =~= h.address.0.0@);
    lemma_number(f, 20, h.limit as nat, 4);
}

/// An answer that found a transaction is the place of it and then the
/// transaction; one that did not is a single byte that says why.
pub proof fn transaction_at_layout(m: TransactionAtMessage)
    ensures
        ({
            let d = m.spec_bytes();
            &&& m.status == LookupStatus::NotFound ==> d == seq![1u8]
            &&& m.status == LookupStatus::NotIndexed ==> d == seq![2u8]
            &&& m.status == LookupStatus::Found ==> {
                &&& d[0] == 0
                &&& d.subrange(1, 33) == m.tx_hash.0@
                &&& d.subrange(33, 65) == m.block_hash.0@
                &&& number_at(d, 65, 4) == m.height
                &&& number_at(d, 69, 4) == m.position
                &&& d[73] == (if m.on_active_chain {
                    1int
                } else {
                    0int
                })
                &&& m.transaction matches Some(t) ==> d.subrange(74, d.len() as int)
                    == t.spec_encode()
            }
        }),
{
    if m.status == LookupStatus::Found {
        let d = m.spec_bytes();
        lemma_widths(m.height as nat);
        lemma_widths(m.position as nat);
        assert(d.subrange(1, 33) =~= m.tx_hash.0@);
        assert(d.subrange(33, 65) =~= m.block_hash.0@);
        lemma_number(d, 65, m.height as nat, 4);
        lemma_number(d, 69, m.position as nat, 4);
        if m.transaction is Some {
            assert(d.subrange(74, d.len() as int) =~= (m.transaction->0).spec_encode());
        }
    }
}

/// A history is a zero, the total and the count in four bytes each, and 72 bytes
/// an entry: two hashes, the height and the position.
pub proof fn history_layout(total: u32, s: Seq<HistoryEntry>, i: int)
    requires
        0 <= i < s.len() <= u32::MAX,
    ensures
        ({
            let d = lookup::history_bytes(total, s);
            let at = 9 + 72 * i;
            &&& d.len() == 9 + 72 * s.len()
            &&& d[0] == 0
            &&& number_at(d, 1, 4) == total
            &&& number_at(d, 5, 4) == s.len()
            &&& d.subrange(at, at + 32) == s[i].tx_hash.0@
            &&& d.subrange(at + 32, at + 64) == s[i].block_hash.0@
            &&& number_at(d, at + 64, 4) == s[i].height
            &&& number_at(d, at + 68, 4) == s[i].position
        }),
{
    let d = lookup::history_bytes(total, s);
    let at = 9 + 72 * i;
    lemma_widths(total as nat);
    lemma_widths(s.len());
    lemma_widths(s[i].height as nat);
    lemma_widths(s[i].position as nat);
    lemma_history_stands(s, i);
    lemma_number(d, 1, total as nat, 4);
    lemma_number(d, 5, s.len(), 4);
    let b = s[i].spec_bytes();
    let e = lookup::history_entries_bytes(s);
    assert(d.subrange(at, at + 72) =~= e.subrange(72 * i, 72 * i + 72));
    assert(d.subrange(at, at + 32) =~= d.subrange(at, at + 72).subrange(0, 32));
    assert(d.subrange(at + 32, at + 64) =~= d.subrange(at, at + 72).subrange(32, 64));
    assert(d.subrange(at + 64, at + 68) =~= d.subrange(at, at + 72).subrange(64, 68));
    assert(d.subrange(at + 68, at + 72) =~= d.subrange(at, at + 72).subrange(68, 72));
    assert(b.subrange(0, 32) =~= s[i].tx_hash.0@);
    assert(b.subrange(32, 64) =~= s[i].block_hash.0@);
    assert(b.subrange(64, 68) =~= bytes::le_bytes(s[i].height as nat, 4));
    assert(b.subrange(68, 72) =~= bytes::le_bytes(s[i].position as nat, 4));
    lemma_number(d, at + 64, s[i].height as nat, 4);
    lemma_number(d, at + 68, s[i].position as nat, 4);
}

proof fn lemma_history_stands(s: Seq<HistoryEntry>, i: int)
    requires
        0 <= i < s.len(),
    ensures
        lookup::history_entries_bytes(s).len() == 72 * s.len(),
        lookup::history_entries_bytes(s).subrange(72 * i, 72 * i + 72) == s[i].spec_bytes(),
    decreases s.len(),
{
    lookup::lemma_history_entries_len(s);
    let t = s.drop_last();
    lookup::lemma_history_entries_len(t);
    let e = lookup::history_entries_bytes(s);
    let f = lookup::history_entries_bytes(t);
    if i < t.len() {
        lemma_history_stands(t, i);
        assert(e.subrange(72 * i, 72 * i + 72) =~= f.subrange(72 * i, 72 * i + 72));
    } else {
        assert(e.subrange(72 * i, 72 * i + 72) =~= s.last().spec_bytes());
    }
}

/// A rejection is two texts behind the low bytes of their lengths, with the code
/// in between, and reads back as these where they have at most 255 bytes.
pub proof fn reject_layout(message: Seq<u8>, code: u8, reason: Seq<u8>)
    ensures
        ({
            let d = reject::reject_bytes(message, code, reason);
            let n = message.len() as int;
            &&& d.len() == 3 + n + reason.len()
            &&& d[0] == n % 256
            &&& d.subrange(1, 1 + n) == message
            &&& d[1 + n] == code
            &&& d[2 + n] == reason.len() % 256
            &&& d.subrange(3 + n, d.len() as int) == reason
            &&& n < 256 && reason.len() < 256 ==> reject::reject_parts(d) == Some(
                (message, code, reason),
            )
        }),
{
    let d = reject::reject_bytes(message, code, reason);
    let n = message.len() as int;
    assert(d.subrange(1, 1 + n) =~= message);
    assert(d.subrange(3 + n, d.len() as int) =~= reason);
}

/// What an answer to a lookup is read as stands where it would have been written.
/// Any byte but zero says that the block is on the chain.
pub proof fn transaction_at_is_read_in_place(data: Seq<u8>, m: TransactionAtMessage)
    requires
        lookup::transaction_at_decodable(data),
        lookup::transaction_at_denoted(data, m),
    ensures
        data[0] == 1 ==> m.status == LookupStatus::NotFound && m.transaction is None,
        data[0] == 2 ==> m.status == LookupStatus::NotIndexed && m.transaction is None,
        data[0] == 0 ==> {
            &&& m.status == LookupStatus::Found
            &&& m.tx_hash.0@ == data.subrange(1, 33)
            &&& m.block_hash.0@ == data.subrange(33, 65)
            &&& number_at(data, 65, 4) == m.height
            &&& number_at(data, 69, 4) == m.position
            &&& m.on_active_chain <==> data[73] != 0
            &&& m.transaction matches Some(t) && data.subrange(74, 206) == t.spec_encode()
        },
{
    if data[0] == 0 {
        lemma_widths(m.height as nat);
        lemma_widths(m.position as nat);
        lemma_number(data, 65, m.height as nat, 4);
        lemma_number(data, 69, m.position as nat, 4);
    } else {
        assert(m.spec_bytes()[0] == data[0]);
    }
}

/// What a history is read as stands where it would have been written.
pub proof fn history_is_read_in_place(data: Seq<u8>, m: HistoryMessage, i: int)
    requires
        lookup::history_decodable(data),
        lookup::history_denoted(data, m),
    ensures
        data[0] == 2 ==> m.status == LookupStatus::NotIndexed && m.total == 0 && m.entries@.len()
            == 0,
        data[0] != 2 ==> m.status == LookupStatus::Found && number_at(data, 1, 4) == m.total
            && number_at(data, 5, 4) == m.entries@.len() % 0x1_0000_0000,
        data[0] != 2 && 0 <= i < m.entries@.len() ==> data.subrange(9 + 72 * i, 9 + 72 * i + 72)
            == m.entries@[i].spec_bytes(),
{
    if data[0] != 2 {
        let e = m.entries@;
        let d = lookup::history_bytes(m.total, e);
        lemma_widths(m.total as nat);
        lemma_widths(e.len());
        lookup::lemma_history_entries_len(e);
        assert(d.len() == 9 + 72 * e.len());
        assert(data.subrange(1, data.len() as int).len() == d.len() - 1);
        assert forall|k: int| 1 <= k < d.len() implies data[k] == d[k] by {
            assert(data.subrange(1, data.len() as int)[k - 1] == d.subrange(1, d.len() as int)[k - 1]);
        }
        assert(data.subrange(1, 5) =~= bytes::le_bytes(m.total as nat, 4));
        lemma_number(data, 1, m.total as nat, 4);
        let low = e.len() % 0x1_0000_0000;
        vstd::arithmetic::div_mod::lemma_mod_twice(e.len() as int, 0x1_0000_0000);
        bytes::lemma_le_bytes_low(e.len(), low, 4);
        assert(data.subrange(5, 9) =~= bytes::le_bytes(low, 4));
        lemma_number(data, 5, low, 4);
        if 0 <= i < e.len() {
            lemma_history_stands(e, i);
            let f = lookup::history_entries_bytes(e);
            assert(data.subrange(9 + 72 * i, 9 + 72 * i + 72) =~= f.subrange(72 * i, 72 * i + 72));
        }
    }
}

} // verus!
