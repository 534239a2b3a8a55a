//! Frames: how one message is told from the next on a stream.

use vstd::prelude::*;
use crate::bytes;
use crate::error;
use crate::error::{CoreError, Fault, Result};
use crate::hash;
use crate::text;

verus! {

pub const MAGIC: [u8; 4] = [0xC4, 0x48, 0x52, 0x4F];

pub const MAX_MESSAGE_SIZE: usize = 4_194_304;

pub const HEADER_SIZE: usize = 13;

#[derive(Clone, Copy, PartialEq, Eq, Structural, Debug, Hash)]
pub enum MessageType {
    Version,
    VerAck,
    Ping,
    Pong,
    GetAddr,
    Addr,
    GetHeaders,
    Headers,
    Inv,
    GetData,
    Tx,
    Block,
    NotFound,
    Reject,
    /// Ask a node where its chain stands.
    GetChainInfo,
    ChainInfo,
    /// Ask a node for one account's balance and nonce.
    GetAccount,
    Account,
    /// Ask a node where one transaction was mined. Answerable only by a node
    /// keeping the index.
    GetTransaction,
    TransactionAt,
    /// Ask a node for the transactions touching one address.
    GetHistory,
    History,
}

/// The byte that stands for a message type.
pub open spec fn type_code(t: MessageType) -> u8 {
    match t {
        MessageType::Version => 0x01,
        MessageType::VerAck => 0x02,
        MessageType::Ping => 0x03,
        MessageType::Pong => 0x04,
        MessageType::GetAddr => 0x05,
        MessageType::Addr => 0x06,
        MessageType::GetHeaders => 0x07,
        MessageType::Headers => 0x08,
        MessageType::Inv => 0x09,
        MessageType::GetData => 0x0A,
        MessageType::Tx => 0x0B,
        MessageType::Block => 0x0C,
        MessageType::NotFound => 0x0D,
        MessageType::Reject => 0x0E,
        MessageType::GetChainInfo => 0x0F,
        MessageType::ChainInfo => 0x10,
        MessageType::GetAccount => 0x11,
        MessageType::Account => 0x12,
        MessageType::GetTransaction => 0x13,
        MessageType::TransactionAt => 0x14,
        MessageType::GetHistory => 0x15,
        MessageType::History => 0x16,
    }
}

/// The message type that a byte stands for, if it stands for one.
pub open spec fn type_of(code: u8) -> Option<MessageType> {
    if code == 0x01 {
        Some(MessageType::Version)
    } else if code == 0x02 {
        Some(MessageType::VerAck)
    } else if code == 0x03 {
        Some(MessageType::Ping)
    } else if code == 0x04 {
        Some(MessageType::Pong)
    } else if code == 0x05 {
        Some(MessageType::GetAddr)
    } else if code == 0x06 {
        Some(MessageType::Addr)
    } else if code == 0x07 {
        Some(MessageType::GetHeaders)
    } else if code == 0x08 {
        Some(MessageType::Headers)
    } else if code == 0x09 {
        Some(MessageType::Inv)
    } else if code == 0x0A {
        Some(MessageType::GetData)
    } else if code == 0x0B {
        Some(MessageType::Tx)
    } else if code == 0x0C {
        Some(MessageType::Block)
    } else if code == 0x0D {
        Some(MessageType::NotFound)
    } else if code == 0x0E {
        Some(MessageType::Reject)
    } else if code == 0x0F {
        Some(MessageType::GetChainInfo)
    } else if code == 0x10 {
        Some(MessageType::ChainInfo)
    } else if code == 0x11 {
        Some(MessageType::GetAccount)
    } else if code == 0x12 {
        Some(MessageType::Account)
    } else if code == 0x13 {
        Some(MessageType::GetTransaction)
    } else if code == 0x14 {
        Some(MessageType::TransactionAt)
    } else if code == 0x15 {
        Some(MessageType::GetHistory)
    } else if code == 0x16 {
        Some(MessageType::History)
    } else {
        None
    }
}

/// A message type reads back from its byte, and no other byte stands for it.
pub proof fn type_code_roundtrip(t: MessageType, code: u8)
    ensures
        type_of(type_code(t)) == Some(t),
        type_of(code) == Some(t) ==> code == type_code(t),
        type_of(code) is Some <==> 0x01 <= code <= 0x16,
{
}

/// The complaint that a byte stands for no message type.
pub open spec fn unknown_type(code: u8) -> Fault {
    error::malformed("unknown message type: 0x"@ + text::upper_hex(code))
}

impl MessageType {
    /// The byte that stands for the type.
    pub fn code(&self) -> (r: u8)
        ensures
            r == type_code(*self),
    {
        match self {
            MessageType::Version => 0x01,
            MessageType::VerAck => 0x02,
            MessageType::Ping => 0x03,
            MessageType::Pong => 0x04,
            MessageType::GetAddr => 0x05,
            MessageType::Addr => 0x06,
            MessageType::GetHeaders => 0x07,
            MessageType::Headers => 0x08,
            MessageType::Inv => 0x09,
            MessageType::GetData => 0x0A,
            MessageType::Tx => 0x0B,
            MessageType::Block => 0x0C,
            MessageType::NotFound => 0x0D,
            MessageType::Reject => 0x0E,
            MessageType::GetChainInfo => 0x0F,
            MessageType::ChainInfo => 0x10,
            MessageType::GetAccount => 0x11,
            MessageType::Account => 0x12,
            MessageType::GetTransaction => 0x13,
            MessageType::TransactionAt => 0x14,
            MessageType::GetHistory => 0x15,
            MessageType::History => 0x16,
        }
    }

    pub fn from_u8(v: u8) -> (r: Result<Self>)
        ensures
            match type_of(v) {
                Some(t) => r == Ok::<MessageType, CoreError>(t),
                None => r matches Err(e) && e.fault() == unknown_type(v),
            },
    {
        match v {
            0x01 => Ok(MessageType::Version),
            0x02 => Ok(MessageType::VerAck),
            0x03 => Ok(MessageType::Ping),
            0x04 => Ok(MessageType::Pong),
            0x05 => Ok(MessageType::GetAddr),
            0x06 => Ok(MessageType::Addr),
            0x07 => Ok(MessageType::GetHeaders),
            0x08 => Ok(MessageType::Headers),
            0x09 => Ok(MessageType::Inv),
            0x0A => Ok(MessageType::GetData),
            0x0B => Ok(MessageType::Tx),
            0x0C => Ok(MessageType::Block),
            0x0D => Ok(MessageType::NotFound),
            0x0E => Ok(MessageType::Reject),
            0x0F => Ok(MessageType::GetChainInfo),
            0x10 => Ok(MessageType::ChainInfo),
            0x11 => Ok(MessageType::GetAccount),
            0x12 => Ok(MessageType::Account),
            0x13 => Ok(MessageType::GetTransaction),
            0x14 => Ok(MessageType::TransactionAt),
            0x15 => Ok(MessageType::GetHistory),
            0x16 => Ok(MessageType::History),
            _ => Err(
                CoreError::Serialization(
                    error::joined("unknown message type: 0x", text::upper_hex_text(v).as_str()),
                ),
            ),
        }
    }
}

/// One message.
#[derive(Debug)]
pub struct Message {
    pub msg_type: MessageType,
    pub payload: Vec<u8>,
}

/// What a message says.
#[verifier::ext_equal]
pub struct MessageView {
    pub msg_type: MessageType,
    pub payload: Seq<u8>,
}

impl View for Message {
    type V = MessageView;

    open spec fn view(&self) -> MessageView {
        MessageView { msg_type: self.msg_type, payload: self.payload@ }
    }
}

impl Clone for Message {
    fn clone(&self) -> (r: Message)
        ensures
            r@ == self@,
    {
        let mut payload: Vec<u8> = Vec::new();
        bytes::push_bytes(&mut payload, &self.payload);
        assert(payload@ =~= self.payload@);
        Message { msg_type: self.msg_type, payload }
    }
}

/// The four bytes that protect a payload.
pub open spec fn checksum(payload: Seq<u8>) -> Seq<u8> {
    hash::hash_of(payload).0@.subrange(0, 4)
}

/// A message as a frame: magic, type, length, checksum, payload.
pub open spec fn frame_bytes(m: MessageView) -> Seq<u8> {
    MAGIC@ + seq![type_code(m.msg_type)] + bytes::le_bytes(m.payload.len(), 4) + checksum(
        m.payload,
    ) + m.payload
}

/// What the front of a stream holds.
pub enum Frame {
    /// Not even a header.
    Short,
    /// A header, but not all of its payload. The whole frame has this length.
    Partial(int),
    /// Nothing that a peer may send, and what is wrong with it.
    Garbage(Fault),
    /// A whole frame, and its length.
    Whole(MessageView, int),
}

/// What the front of a stream holds.
pub open spec fn frame_at(data: Seq<u8>) -> Frame {
    if data.len() < HEADER_SIZE {
        Frame::Short
    } else {
        let len = bytes::le_value(data.subrange(5, 9));
        let total = HEADER_SIZE + len;
        if data.subrange(0, 4) != MAGIC@ {
            Frame::Garbage(error::malformed("message: bad magic"@))
        } else if type_of(data[4]) is None {
            Frame::Garbage(unknown_type(data[4]))
        } else if len > MAX_MESSAGE_SIZE {
            Frame::Garbage(
                error::malformed("message: payload too large: "@ + text::decimal(len)),
            )
        } else if data.len() < total {
            Frame::Partial(total)
        } else {
            let payload = data.subrange(HEADER_SIZE as int, total);
            if data.subrange(9, 13) != checksum(payload) {
                Frame::Garbage(error::malformed("message: checksum mismatch"@))
            } else {
                Frame::Whole(MessageView { msg_type: type_of(data[4])->0, payload }, total)
            }
        }
    }
}

/// Result of attempting to decode one frame from a stream buffer.
///
/// A stream reader must distinguish "the rest of this frame has not arrived
/// yet" from "this peer sent garbage". The former means read more; the latter
/// means drop (and score) the peer.
#[derive(Clone, Debug)]
pub enum FrameDecode {
    /// A complete frame was decoded, consuming `consumed` bytes.
    Complete { message: Message, consumed: usize },
    /// The buffer holds a valid prefix but not a whole frame yet.
    /// `needed` is the total frame length once known, else nothing.
    Incomplete { needed: Option<usize> },
}

/// Decode one frame from the front of a stream buffer.
///
/// Unlike [`Message::decode`], a short buffer is reported as
/// [`FrameDecode::Incomplete`] rather than an error, so the caller can wait for
/// more bytes instead of tearing the connection down.
pub fn decode_frame(data: &[u8]) -> (r: Result<FrameDecode>)
    ensures
        match frame_at(data@) {
            Frame::Short => r matches Ok(FrameDecode::Incomplete { needed }) && needed is None,
            Frame::Partial(total) => r matches Ok(FrameDecode::Incomplete { needed }) && (
            needed matches Some(n) && n == total),
            Frame::Garbage(why) => r matches Err(e) && e.fault() == why,
            Frame::Whole(m, total) => r matches Ok(FrameDecode::Complete { message, consumed })
                && message@ == m && consumed == total,
        },
{
    if data.len() < HEADER_SIZE {
        return Ok(FrameDecode::Incomplete { needed: None });
    }
    let magic: [u8; 4] = bytes::take_array::<4>(data, 0);
    if !bytes::bytes_equal(&magic, &MAGIC) {
        return Err(CoreError::Serialization("message: bad magic".to_string()));
    }
    let msg_type = match MessageType::from_u8(data[4]) {
        Ok(t) => t,
        Err(e) => {
            return Err(e);
        },
    };
    proof {
        bytes::lemma_pow256_values();
    }
    let len: u64 = bytes::read_le(data, 5, 4);
    if len > MAX_MESSAGE_SIZE as u64 {
        return Err(CoreError::Serialization(text::phrase1("message: payload too large: ", len)));
    }
    let total: usize = HEADER_SIZE + len as usize;
    if data.len() < total {
        return Ok(FrameDecode::Incomplete { needed: Some(total) });
    }
    let mut payload: Vec<u8> = Vec::new();
    bytes::push_bytes(&mut payload, &data[HEADER_SIZE..total]);
    assert(payload@ =~= data@.subrange(HEADER_SIZE as int, total as int));
    let found: [u8; 4] = bytes::take_array::<4>(data, 9);
    if !bytes::bytes_equal(&found, &checksum_of(&payload)) {
        return Err(CoreError::Serialization("message: checksum mismatch".to_string()));
    }
    Ok(FrameDecode::Complete { message: Message { msg_type, payload }, consumed: total })
}

fn checksum_of(payload: &[u8]) -> (r: [u8; 4])
    ensures
        r@ == checksum(payload@),
{
    let h = hash::blake3(payload);
    bytes::take_array::<4>(&h.0, 0)
}

impl Message {
    pub fn new(msg_type: MessageType, payload: Vec<u8>) -> (r: Message)
        ensures
            r.msg_type == msg_type,
            r.payload == payload,
    {
        Message { msg_type, payload }
    }

    /// The frame for this message. The length field holds the low four bytes
    /// of the payload's length.
    pub fn encode(&self) -> (r: Vec<u8>)
        ensures
            r@ == frame_bytes(self@),
    {
        let mut buf: Vec<u8> = Vec::new();
        bytes::push_bytes(&mut buf, &MAGIC);
        buf.push(self.msg_type.code());
        bytes::push_le(&mut buf, self.payload.len() as u64, 4);
        bytes::push_bytes(&mut buf, &checksum_of(&self.payload));
        bytes::push_bytes(&mut buf, &self.payload);
        assert(buf@ =~= frame_bytes(self@));
        buf
    }

    /// Decode one frame that is all there. Gives the message and the number
    /// of bytes it took.
    pub fn decode(data: &[u8]) -> (r: Result<(Message, usize)>)
        ensures
            match frame_at(data@) {
                Frame::Whole(m, total) => r matches Ok(p) && p.0@ == m && p.1 == total,
                Frame::Short => r matches Err(e) && e.fault() == error::malformed(
                    "message: header too short"@,
                ),
                Frame::Partial(_) => r matches Err(e) && e.fault() == error::malformed(
                    "message: payload truncated"@,
                ),
                Frame::Garbage(why) => r matches Err(e) && e.fault() == why,
            },
    {
        match decode_frame(data) {
            Ok(FrameDecode::Complete { message, consumed }) => Ok((message, consumed)),
            Ok(FrameDecode::Incomplete { needed: None }) => Err(
                CoreError::Serialization("message: header too short".to_string()),
            ),
            Ok(FrameDecode::Incomplete { needed: Some(_) }) => Err(
                CoreError::Serialization("message: payload truncated".to_string()),
            ),
            Err(e) => Err(e),
        }
    }
}

proof fn lemma_frame_parts(m: MessageView)
    ensures
        frame_bytes(m).len() == HEADER_SIZE + m.payload.len(),
        frame_bytes(m).subrange(0, 4) == MAGIC@,
        frame_bytes(m)[4] == type_code(m.msg_type),
        frame_bytes(m).subrange(5, 9) == bytes::le_bytes(m.payload.len(), 4),
        frame_bytes(m).subrange(9, 13) == checksum(m.payload),
        frame_bytes(m).subrange(13, frame_bytes(m).len() as int) == m.payload,
{
    let f = frame_bytes(m);
    bytes::lemma_le_bytes_len(m.payload.len(), 4);
    assert(f.subrange(0, 4) =~= MAGIC@);
    assert(f.subrange(5, 9) =~= bytes::le_bytes(m.payload.len(), 4));
    assert(f.subrange(9, 13) =~= checksum(m.payload));
    assert(f.subrange(13, f.len() as int) =~= m.payload);
}

/// A message of no more than the maximum size reads back from its frame,
/// whatever follows it on the stream, and takes exactly the bytes of the frame.
pub proof fn frame_roundtrip(m: MessageView, after: Seq<u8>)
    requires
        m.payload.len() <= MAX_MESSAGE_SIZE,
    ensures
        frame_at(frame_bytes(m) + after) == Frame::Whole(m, frame_bytes(m).len() as int),
{
    let f = frame_bytes(m);
    let data = f + after;
    lemma_frame_parts(m);
    bytes::lemma_pow256_values();
    bytes::lemma_le_value_of_bytes(m.payload.len(), 4);
    assert(data.subrange(0, 4) =~= f.subrange(0, 4));
    assert(data.subrange(5, 9) =~= f.subrange(5, 9));
    assert(data.subrange(9, 13) =~= f.subrange(9, 13));
    assert(data.subrange(13, f.len() as int) =~= f.subrange(13, f.len() as int));
    type_code_roundtrip(m.msg_type, 0);
}

/// A frame that has arrived only in part is never taken for garbage: the
/// reader is told to wait, and for how much once the header is there.
pub proof fn partial_frame_is_not_garbage(m: MessageView, n: int)
    requires
        m.payload.len() <= MAX_MESSAGE_SIZE,
        0 <= n < frame_bytes(m).len(),
    ensures
        frame_at(frame_bytes(m).subrange(0, n)) == if n < HEADER_SIZE {
            Frame::Short
        } else {
            Frame::Partial(frame_bytes(m).len() as int)
        },
{
    let f = frame_bytes(m);
    let data = f.subrange(0, n);
    lemma_frame_parts(m);
    if n >= HEADER_SIZE {
        bytes::lemma_pow256_values();
        bytes::lemma_le_value_of_bytes(m.payload.len(), 4);
        assert(data.subrange(0, 4) =~= f.subrange(0, 4));
        assert(data.subrange(5, 9) =~= f.subrange(5, 9));
        type_code_roundtrip(m.msg_type, 0);
    }
}

/// A message that is too large is refused as soon as its header is there,
/// before any of its payload.
pub proof fn oversized_frame_is_refused(m: MessageView, n: int)
    requires
        MAX_MESSAGE_SIZE < m.payload.len() <= u32::MAX,
        HEADER_SIZE <= n <= frame_bytes(m).len(),
    ensures
        frame_at(frame_bytes(m).subrange(0, n)) is Garbage,
{
    let f = frame_bytes(m);
    let data = f.subrange(0, n);
    lemma_frame_parts(m);
    bytes::lemma_pow256_values();
    bytes::lemma_le_value_of_bytes(m.payload.len(), 4);
    assert(data.subrange(5, 9) =~= f.subrange(5, 9));
}

} // verus!
