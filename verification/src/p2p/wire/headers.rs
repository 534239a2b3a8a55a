//! Runs of block headers.

use vstd::prelude::*;
use crate::bytes;
use crate::error;
use crate::error::{CoreError, Fault, Result};
use crate::block;
use crate::block::BlockHeader;
use crate::serialize;
use crate::serialize::{CanonicalDecode, CanonicalEncode};
use crate::text;

verus! {

/// Headers, one after the other.
pub open spec fn headers_bytes(s: Seq<BlockHeader>) -> Seq<u8>
    decreases s.len(),
{
    if s.len() == 0 {
        Seq::empty()
    } else {
        headers_bytes(s.drop_last()) + s.last().spec_encode()
    }
}

pub proof fn lemma_headers_len(s: Seq<BlockHeader>)
    ensures
        headers_bytes(s).len() == 124 * s.len(),
    decreases s.len(),
{
    if s.len() > 0 {
        lemma_headers_len(s.drop_last());
        block::lemma_header_len(s.last());
    }
}

pub proof fn lemma_headers_injective(a: Seq<BlockHeader>, b: Seq<BlockHeader>)
    requires
        a.len() == b.len(),
        headers_bytes(a) == headers_bytes(b),
    ensures
        a == b,
    decreases a.len(),
{
    if a.len() > 0 {
        block::lemma_header_len(a.last());
        block::lemma_header_len(b.last());
        bytes::lemma_split_equal(
            headers_bytes(a.drop_last()),
            a.last().spec_encode(),
            headers_bytes(b.drop_last()),
            b.last().spec_encode(),
        );
        lemma_headers_injective(a.drop_last(), b.drop_last());
        block::header_encoding_injective(a.last(), b.last());
        assert(a =~= a.drop_last().push(a.last()));
        assert(b =~= b.drop_last().push(b.last()));
    } else {
        assert(a =~= b);
    }
}

fn push_headers(buf: &mut Vec<u8>, items: &[BlockHeader])
    ensures
        final(buf)@ == old(buf)@ + headers_bytes(items@),
{
    let mut i: usize = 0;
    assert(items@.subrange(0, 0) =~= Seq::<BlockHeader>::empty());
    assert(buf@ =~= old(buf)@ + headers_bytes(items@.subrange(0, 0)));
    while i < items.len()
        invariant
            i <= items@.len(),
            buf@ == old(buf)@ + headers_bytes(items@.subrange(0, i as int)),
        decreases items@.len() - i,
    {
        bytes::push_bytes(buf, &items[i].encode());
        proof {
            let t = items@.subrange(0, i + 1);
            assert(t.drop_last() =~= items@.subrange(0, i as int));
            assert(buf@ =~= old(buf)@ + headers_bytes(t));
        }
        i = i + 1;
    }
    assert(items@.subrange(0, i as int) =~= items@);
}

/// A run of headers on the wire: a LEB128 count, and that many headers.
pub open spec fn headers_payload(s: Seq<BlockHeader>) -> Seq<u8> {
    serialize::leb128(s.len()) + headers_bytes(s)
}

/// Whether some bytes are a run of headers.
pub open spec fn headers_decodable(data: Seq<u8>) -> bool {
    serialize::leb_value(data, 0) matches Some((n, pos)) && data.len() == pos + 124 * n
}

/// What is wrong with bytes that are no run of headers.
pub open spec fn headers_fault(data: Seq<u8>) -> Fault {
    match serialize::leb_value(data, 0) {
        Some((n, pos)) => {
            let room = (data.len() - pos) / 124;
            if n > room {
                error::malformed(
                    text::two_numbers(
                        "headers: declared "@,
                        n,
                        " headers but only "@,
                        room as nat,
                    ) + " fit in the payload"@,
                )
            } else {
                error::malformed(
                    text::number_between(
                        "headers: "@,
                        (data.len() - pos - 124 * n) as nat,
                        " trailing bytes"@,
                    ),
                )
            }
        },
        None => serialize::leb_fault(data, 0),
    }
}

/// Whether some bytes are this run of headers.
pub open spec fn headers_denoted(data: Seq<u8>, s: Seq<BlockHeader>) -> bool {
    serialize::leb_value(data, 0) matches Some((n, pos)) && n == s.len() && pos <= data.len()
        && data.subrange(pos, data.len() as int) == headers_bytes(s)
}

/// A run of consecutive block headers, in ascending height order.
#[derive(Clone, Debug, PartialEq, Eq)]
pub struct HeadersMessage {
    pub headers: Vec<BlockHeader>,
}

impl HeadersMessage {
    pub fn encode(&self) -> (r: Vec<u8>)
        ensures
            r@ == headers_payload(self.headers@),
    {
        let mut buf = serialize::encode_leb128(self.headers.len() as u64);
        push_headers(&mut buf, &self.headers);
        buf
    }

    pub fn decode(data: &[u8]) -> (r: Result<HeadersMessage>)
        ensures
            match r {
                Ok(m) => headers_decodable(data@) && headers_denoted(data@, m.headers@),
                Err(e) => !headers_decodable(data@) && e.fault() == headers_fault(data@),
            },
    {
        let (count, start) = match serialize::decode_leb128(data, 0) {
            Ok(p) => p,
            Err(e) => {
                return Err(e);
            },
        };
        // Reject an inflated count before allocating for it.
        let room: usize = (data.len() - start) / BlockHeader::SERIALIZED_SIZE;
        if count > room as u64 {
            return Err(
                CoreError::Serialization(
                    error::joined(
                        text::phrase2(
                            "headers: declared ",
                            count,
                            " headers but only ",
                            room as u64,
                        ).as_str(),
                        " fit in the payload",
                    ),
                ),
            );
        }
        let n: usize = count as usize;
        let mut headers: Vec<BlockHeader> = Vec::new();
        let mut i: usize = 0;
        let mut pos: usize = start;
        assert(data@.subrange(start as int, start as int) =~= Seq::<u8>::empty());
        while i < n
            invariant
                i <= n,
                start + 124 * n <= data@.len(),
                pos == start + 124 * i,
                headers@.len() == i,
                headers_bytes(headers@) == data@.subrange(start as int, pos as int),
            decreases n - i,
        {
            let rest = &data[pos..data.len()];
            match BlockHeader::decode_partial(rest) {
                Ok((h, used)) => {
                    let ghost before = headers@;
                    headers.push(h);
                    proof {
                        assert(headers@.drop_last() =~= before);
                        assert(rest@.subrange(0, 124) =~= data@.subrange(pos as int, pos + 124));
                        bytes::lemma_join_ranges(data@, start as int, pos as int, pos + 124);
                    }
                    pos = pos + used;
                },
                Err(e) => {
                    return Err(e);
                },
            }
            i = i + 1;
        }
        if pos != data.len() {
            return Err(
                CoreError::Serialization(
                    text::phrase_around("headers: ", (data.len() - pos) as u64, " trailing bytes"),
                ),
            );
        }
        Ok(HeadersMessage { headers })
    }
}

/// A run of headers reads back from its bytes: they are accepted and stand for
/// no other run.
pub proof fn headers_roundtrip(s: Seq<BlockHeader>, t: Seq<BlockHeader>)
    requires
        s.len() <= u64::MAX,
    ensures
        headers_decodable(headers_payload(s)),
        headers_denoted(headers_payload(s), t) <==> s == t,
{
    let data = headers_payload(s);
    let count = serialize::leb128(s.len());
    lemma_headers_len(s);
    serialize::leb128_roundtrip(s.len(), Seq::empty(), headers_bytes(s));
    assert(Seq::<u8>::empty() + count + headers_bytes(s) =~= data);
    assert(data.subrange(count.len() as int, data.len() as int) =~= headers_bytes(s));
    if headers_denoted(data, t) {
        lemma_headers_injective(s, t);
    }
}

} // verus!
