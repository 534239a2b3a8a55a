//! What is said of bytes that do not read.

use vstd::prelude::*;
use crate::error::{ErrorKind, Fault};
use crate::p2p::wire::addr;
use crate::p2p::wire::control;
use crate::p2p::wire::frame;
use crate::p2p::wire::frame::Frame;
use crate::p2p::wire::headers;
use crate::p2p::wire::inventory;
use crate::p2p::wire::layout;
use crate::p2p::wire::lookup;
use crate::p2p::wire::query;
use crate::p2p::wire::reject;
use crate::serialize;
use crate::serialize::CanonicalDecode;
use crate::text;
use crate::tx::Transaction;

verus! {

/// A complaint about bytes, in these words.
pub open spec fn complaint(words: Seq<char>) -> Fault {
    Fault { kind: ErrorKind::Serialization, detail: words }
}

/// What is said of a stream whose front is no message.
pub proof fn bad_frame_is_told_why(data: Seq<u8>)
    requires
        data.len() >= 13,
    ensures
        ({
            let len = layout::number_at(data, 5, 4);
            let marked = data[0] == 0xC4 && data[1] == 0x48 && data[2] == 0x52 && data[3] == 0x4F;
            let known = marked && 1 <= data[4] <= 22;
            let r = frame::frame_at(data);
            &&& !marked ==> r == Frame::Garbage(complaint("message: bad magic"@))
            &&& marked && !known ==> r == Frame::Garbage(
                complaint("unknown message type: 0x"@ + text::upper_hex(data[4])),
            )
            &&& known && len > 4_194_304 ==> r == Frame::Garbage(
                complaint("message: payload too large: "@ + text::decimal(len)),
            )
            &&& known && len <= 4_194_304 && r is Garbage ==> r == Frame::Garbage(
                complaint("message: checksum mismatch"@),
            )
        }),
{
    layout::stream_is_read_exactly_when(data);
    let magic = frame::MAGIC@;
    let d = data.subrange(0, 4);
    assert(d[0] == data[0] && d[1] == data[1] && d[2] == data[2] && d[3] == data[3]);
    assert(magic[0] == 0xC4 && magic[1] == 0x48 && magic[2] == 0x52 && magic[3] == 0x4F);
    if data[0] == 0xC4 && data[1] == 0x48 && data[2] == 0x52 && data[3] == 0x4F {
        assert(d =~= magic);
    }
}

/// What is said of a message that has not the size it must have.
pub proof fn other_sizes_are_counted(what: Seq<char>, expected: nat, found: nat)
    ensures
        found < expected ==> control::other_size(what, expected, found) == complaint(
            what + ": too short"@,
        ),
        found >= expected ==> control::other_size(what, expected, found) == complaint(
            what + (": "@ + text::decimal((found - expected) as nat) + " trailing bytes"@),
        ),
        query::wrong_size(what, expected, found) == complaint(
            what + (": expected "@ + text::decimal(expected) + " bytes, got "@ + text::decimal(
                found,
            )),
        ),
{
}

/// What is said of bytes that are no peer goes by where they stop.
pub proof fn bad_peer_is_told_why(tail: Seq<u8>)
    ensures
        ({
            let r = addr::peer_fault(tail);
            let n = tail.len();
            let v4 = n >= 65 && tail[64] == 4;
            let v6 = n >= 65 && tail[64] == 6;
            &&& n < 32 ==> r == Some(complaint("addr: truncated node id"@))
            &&& 32 <= n < 64 ==> r == Some(complaint("addr: truncated noise key"@))
            &&& n == 64 ==> r == Some(complaint("addr: truncated"@))
            &&& v4 && n < 69 ==> r == Some(complaint("addr: truncated v4"@))
            &&& v4 && 69 <= n < 71 ==> r == Some(complaint("addr: truncated port"@))
            &&& v4 && 71 <= n ==> r is None && addr::peer_size(tail) == 71
            &&& v6 && n < 81 ==> r == Some(complaint("addr: truncated v6"@))
            &&& v6 && 81 <= n < 83 ==> r == Some(complaint("addr: truncated port"@))
            &&& v6 && 83 <= n ==> r is None && addr::peer_size(tail) == 83
            &&& n >= 65 && !v4 && !v6 ==> r == Some(
                complaint("addr: unknown address family "@ + text::decimal(tail[64] as nat)),
            )
        }),
{
}

/// What is said of bytes that are no list of peers: that there are too many, what
/// is wrong with the first bad one, or how much is left over.
pub proof fn bad_peers_are_told_why(data: Seq<u8>, tail: Seq<u8>, n: nat)
    ensures
        serialize::leb_value(data, 0) matches Some((count, pos)) ==> {
            &&& count > 1000 ==> addr::addr_fault(data) == complaint(
                "addr: "@ + text::decimal(count) + " entries exceeds the "@ + text::decimal(1000)
                    + " limit"@,
            )
            &&& count <= 1000 ==> addr::addr_fault(data) == addr::peers_fault(
                data.subrange(pos, data.len() as int),
                count,
            )
        },
        addr::peers_fault(tail, 0) == complaint(
            "addr: "@ + text::decimal(tail.len()) + " trailing bytes"@,
        ),
        n > 0 && addr::peer_fault(tail) is Some ==> Some(addr::peers_fault(tail, n))
            == addr::peer_fault(tail),
        n > 0 && addr::peer_fault(tail) is None ==> addr::peers_fault(tail, n) == addr::peers_fault(
            tail.subrange(addr::peer_size(tail), tail.len() as int),
            (n - 1) as nat,
        ),
{
}

/// A run of headers is read exactly when it is as long as its count says. What is
/// said otherwise is that too many were promised, or how much is left over.
pub proof fn bad_headers_are_told_why(data: Seq<u8>)
    ensures
        serialize::leb_value(data, 0) matches Some((n, pos)) ==> {
            let rest = data.len() - pos;
            &&& headers::headers_decodable(data) <==> rest == 124 * n
            &&& n > rest / 124 ==> headers::headers_fault(data) == complaint(
                "headers: declared "@ + text::decimal(n) + " headers but only "@ + text::decimal(
                    (rest / 124) as nat,
                ) + " fit in the payload"@,
            )
            &&& n <= rest / 124 ==> headers::headers_fault(data) == complaint(
                "headers: "@ + text::decimal((rest - 124 * n) as nat) + " trailing bytes"@,
            )
        },
        serialize::leb_value(data, 0) is None ==> !headers::headers_decodable(data),
{
}

/// An inventory is read exactly when it is as long as its count says and names
/// nothing but blocks and transactions. What is said otherwise is that it is too
/// short, the first kind that is not known, or how much is left over.
pub proof fn bad_inventory_is_told_why(what: Seq<char>, data: Seq<u8>, i: int)
    ensures
        ({
            let n = layout::number_at(data, 0, 4);
            let r = inventory::inventory_fault(what, data);
            let foreign = 0 <= i < n && data[4 + 33 * i] != 1 && data[4 + 33 * i] != 2;
            let first = forall|j: int|
                0 <= j < i ==> (#[trigger] data[4 + 33 * j]) == 1 || data[4 + 33 * j] == 2;
            &&& data.len() < 4 ==> r == complaint(what + ": too short"@)
            &&& 4 <= data.len() < 4 + 33 * n && 4 + 33 * n <= usize::MAX ==> r == complaint(
                what + ": truncated"@,
            )
            &&& 4 + 33 * n <= data.len() && 4 + 33 * n <= usize::MAX && foreign && first ==> r
                == complaint("unknown inv type: "@ + text::decimal(data[4 + 33 * i] as nat))
            &&& 4 + 33 * n <= data.len() && 4 + 33 * n <= usize::MAX && i == n && first ==> r
                == complaint(
                what + (": "@ + text::decimal((data.len() - (4 + 33 * n)) as nat)
                    + " trailing bytes"@),
            )
            &&& data.len() >= 4 && i == n && first ==> (inventory::inventory_decodable(data)
                <==> data.len() == 4 + 33 * n)
            &&& foreign ==> !inventory::inventory_decodable(data)
        }),
{
    let n = layout::number_at(data, 0, 4) as int;
    if 0 <= i <= n && forall|j: int|
        0 <= j < i ==> (#[trigger] data[4 + 33 * j]) == 1 || data[4 + 33 * j] == 2 {
        lemma_entries_fault(what, data, 0, i, n);
    }
}

proof fn lemma_entries_fault(what: Seq<char>, data: Seq<u8>, from: int, i: int, n: int)
    requires
        0 <= from <= i <= n,
        forall|j: int|
            from <= j < i ==> (#[trigger] data[4 + 33 * j]) == 1 || data[4 + 33 * j] == 2,
    ensures
        inventory::entries_fault(what, data, from, n) == inventory::entries_fault(what, data, i, n),
    decreases i - from,
{
    if from < i {
        assert(data[4 + 33 * from] == 1 || data[4 + 33 * from] == 2);
        lemma_entries_fault(what, data, from + 1, i, n);
    }
}

/// What is said of an answer to a lookup that does not read, and when one does.
pub proof fn bad_lookup_is_told_why(data: Seq<u8>)
    ensures
        ({
            let r = lookup::transaction_at_fault(data);
            let n = data.len();
            &&& n == 0 ==> r == complaint("transactionat: empty payload"@)
            &&& n > 0 && data[0] > 2 ==> r == complaint(
                "lookup status: unknown value "@ + text::decimal(data[0] as nat),
            )
            &&& n > 0 && (data[0] == 1 || data[0] == 2) ==> r == complaint(
                "transactionat: "@ + text::decimal((n - 1) as nat) + " trailing bytes"@,
            )
            &&& n > 0 && data[0] == 0 && n != 206 ==> r == complaint(
                "transactionat"@ + (": expected "@ + text::decimal(206) + " bytes, got "@
                    + text::decimal(n)),
            )
            &&& n > 0 && data[0] == 0 && n == 206 ==> r == Transaction::decode_fault(
                data.subrange(74, 206),
            )
            &&& lookup::transaction_at_decodable(data) <==> (n == 1 && (data[0] == 1 || data[0]
                == 2)) || (n == 206 && data[0] == 0 && Transaction::decodable(
                data.subrange(74, 206),
            ))
        }),
{
}

/// What is said of a history that does not read, and when one does.
pub proof fn bad_history_is_told_why(data: Seq<u8>)
    ensures
        ({
            let r = lookup::history_fault(data);
            let n = data.len();
            let count = layout::number_at(data, 5, 4);
            &&& n == 0 ==> r == complaint("history: empty payload"@)
            &&& n > 0 && data[0] > 2 ==> r == complaint(
                "lookup status: unknown value "@ + text::decimal(data[0] as nat),
            )
            &&& n > 0 && data[0] == 2 ==> r == complaint(
                "history: "@ + text::decimal((n - 1) as nat) + " trailing bytes"@,
            )
            &&& 0 < n < 9 && data[0] < 2 ==> r == complaint("history: truncated header"@)
            &&& n >= 9 && data[0] < 2 && count > 1000 ==> r == complaint(
                "history: "@ + text::decimal(count) + " entries, more than the "@ + text::decimal(
                    1000,
                ) + " allowed"@,
            )
            &&& n >= 9 && data[0] < 2 && count <= 1000 ==> r == complaint(
                "history: expected "@ + text::decimal(9 + 72 * count) + " bytes for "@
                    + text::decimal(count) + (" entries, got "@ + text::decimal(n)),
            )
            &&& lookup::history_decodable(data) <==> (n == 1 && data[0] == 2) || (n >= 9 && data[0]
                < 2 && count <= 1000 && n == 9 + 72 * count)
        }),
{
}

/// A rejection reads exactly when both lengths lead to its end. What is said
/// otherwise goes by where it stops.
pub proof fn bad_rejection_is_told_why(data: Seq<u8>)
    ensures
        ({
            let r = reject::reject_fault(data);
            let len = data.len();
            let n = data[0] as int;
            let m = data[2 + n] as int;
            &&& reject::reject_parts(data) is Some <==> len >= 3 && len >= 3 + n && len == 3 + n + m
            &&& reject::reject_parts(data) matches Some(p) ==> p.0 == data.subrange(1, 1 + n) && p.1
                == data[1 + n] && p.2 == data.subrange(3 + n, 3 + n + m)
            &&& len < 3 ==> r == complaint("reject: too short"@)
            &&& 3 <= len < 2 + n ==> r == complaint("reject: message truncated"@)
            &&& 3 <= len == 2 + n ==> r == complaint("reject: reason length missing"@)
            &&& 3 + n <= len < 3 + n + m ==> r == complaint("reject: reason truncated"@)
            &&& len >= 3 && len >= 3 + n + m && len >= 3 + n ==> r == complaint(
                "reject: "@ + text::decimal((len - (3 + n + m)) as nat) + " trailing bytes"@,
            )
        }),
{
}

} // verus!
