//! From a stream of bytes to messages.

use vstd::prelude::*;
use crate::bytes;
use crate::error::joined;
use crate::p2p::node::event::P2pError;
use crate::p2p::wire::frame;
use crate::p2p::wire::frame::{Frame, MessageView};
use crate::p2p::wire::{decode_frame, FrameDecode, Message, HEADER_SIZE, MAX_MESSAGE_SIZE};

verus! {

/// Size of a single read from a socket. Frames larger than this are
/// reassembled across reads.
pub const READ_CHUNK: usize = 16_384;

/// What may be held at once: one incomplete maximum-size frame plus whatever
/// else arrived in the same read. Without the slack, a peer sending
/// back-to-back maximum frames would be cut for behaving correctly.
pub const MAX_BUFFERED: usize = MAX_MESSAGE_SIZE + HEADER_SIZE + READ_CHUNK;

/// Bytes that have arrived and do not make up a message yet.
pub struct FrameBuffer {
    acc: Vec<u8>,
}

impl View for FrameBuffer {
    type V = Seq<u8>;

    closed spec fn view(&self) -> Seq<u8> {
        self.acc@
    }
}

/// The messages at the front of a stream, as many as are whole, and what is
/// left behind them.
pub open spec fn messages_in(data: Seq<u8>) -> (Seq<MessageView>, Seq<u8>)
    decreases data.len(),
{
    match frame::frame_at(data) {
        Frame::Whole(m, total) => if 0 < total <= data.len() {
            let (rest, left) = messages_in(data.subrange(total, data.len() as int));
            (seq![m] + rest, left)
        } else {
            (Seq::empty(), data)
        },
        _ => (Seq::empty(), data),
    }
}

impl FrameBuffer {
    pub fn new() -> (r: FrameBuffer)
        ensures
            r@ == Seq::<u8>::empty(),
    {
        FrameBuffer { acc: Vec::new() }
    }

    /// Take what has arrived. Fails when more is held than a peer that behaves
    /// could have sent.
    pub fn feed(&mut self, chunk: &[u8]) -> (r: Result<(), P2pError>)
        ensures
            final(self)@ == old(self)@ + chunk@,
            r is Ok <==> final(self)@.len() <= MAX_BUFFERED,
            r matches Err(e) ==> e.words() == "protocol: "@ + "peer exceeded frame size limit"@,
    {
        bytes::push_bytes(&mut self.acc, chunk);
        if self.acc.len() > MAX_BUFFERED {
            return Err(P2pError::Protocol("peer exceeded frame size limit".to_string()));
        }
        Ok(())
    }

    /// The next message, if a whole one has arrived. Not a whole frame yet is
    /// no error: the caller waits for more bytes.
    pub fn next_message(&mut self) -> (r: Result<Option<Message>, P2pError>)
        ensures
            match frame::frame_at(old(self)@) {
                Frame::Whole(m, total) => {
                    &&& r matches Ok(Some(x)) && x@ == m
                    &&& 0 < total <= old(self)@.len()
                    &&& final(self)@ == old(self)@.subrange(total, old(self)@.len() as int)
                },
                Frame::Garbage(why) => final(self)@ == old(self)@ && (r matches Err(e) && e.words()
                    == "protocol: "@ + ("malformed frame: "@ + why.words())),
                _ => final(self)@ == old(self)@ && (r matches Ok(None)),
            },
    {
        match decode_frame(&self.acc) {
            Ok(FrameDecode::Complete { message, consumed }) => {
                let mut rest: Vec<u8> = Vec::new();
                let n: usize = self.acc.len();
                bytes::push_bytes(&mut rest, &self.acc[consumed..n]);
                assert(rest@ =~= self.acc@.subrange(consumed as int, n as int));
                self.acc = rest;
                Ok(Some(message))
            },
            Ok(FrameDecode::Incomplete { needed: _ }) => Ok(None),
            Err(e) => Err(P2pError::Protocol(joined("malformed frame: ", e.message().as_str()))),
        }
    }
}

/// The frames of some messages, one after the other.
pub open spec fn stream_of(ms: Seq<MessageView>) -> Seq<u8>
    decreases ms.len(),
{
    if ms.len() == 0 {
        Seq::empty()
    } else {
        frame::frame_bytes(ms[0]) + stream_of(ms.subrange(1, ms.len() as int))
    }
}

/// However a stream of messages is cut up on its way, they come out in order
/// and without loss: what has arrived, if it is a prefix of the stream, holds
/// the first messages and a part of the next.
pub proof fn stream_comes_out_in_order(ms: Seq<MessageView>, n: int)
    requires
        forall|i: int|
            0 <= i < ms.len() ==> (#[trigger] ms[i]).payload.len() <= MAX_MESSAGE_SIZE,
        0 <= n <= stream_of(ms).len(),
    ensures
        ({
            let data = stream_of(ms).subrange(0, n);
            let (got, left) = messages_in(data);
            &&& got.len() <= ms.len()
            &&& got == ms.subrange(0, got.len() as int)
            &&& data == stream_of(got) + left
            &&& !(frame::frame_at(left) is Garbage)
            &&& n == stream_of(ms).len() ==> got == ms && left.len() == 0
        }),
    decreases ms.len(),
{
    let whole = stream_of(ms);
    let data = whole.subrange(0, n);
    if ms.len() == 0 {
        assert(data =~= Seq::<u8>::empty());
        assert(ms.subrange(0, 0) =~= ms);
        assert(messages_in(data).0 =~= ms);
    } else {
        let f = frame::frame_bytes(ms[0]);
        let rest = ms.subrange(1, ms.len() as int);
        assert forall|i: int| 0 <= i < rest.len() implies (#[trigger] rest[i]).payload.len()
            <= MAX_MESSAGE_SIZE by {
            assert(rest[i] == ms[i + 1]);
        }
        assert(f.len() > 0);
        if n < f.len() {
            assert(data =~= f.subrange(0, n));
            frame::partial_frame_is_not_garbage(ms[0], n);
            assert(messages_in(data).0 =~= Seq::<MessageView>::empty());
            assert(ms.subrange(0, 0) =~= Seq::<MessageView>::empty());
            assert(stream_of(Seq::<MessageView>::empty()) + data =~= data);
        } else {
            let after = stream_of(rest).subrange(0, n - f.len());
            assert(data =~= f + after);
            frame::frame_roundtrip(ms[0], after);
            assert(data.subrange(f.len() as int, data.len() as int) =~= after);
            stream_comes_out_in_order(rest, n - f.len());
            let (got, left) = messages_in(data);
            let (sub, tail) = messages_in(after);
            assert(got == seq![ms[0]] + sub);
            assert(got =~= ms.subrange(0, got.len() as int)) by {
                assert forall|i: int| 0 <= i < got.len() implies got[i] == ms[i] by {
                    if i > 0 {
                        assert(got[i] == sub[i - 1]);
                        assert(sub[i - 1] == rest.subrange(0, sub.len() as int)[i - 1]);
                    }
                }
            }
            assert(got.subrange(1, got.len() as int) =~= sub);
            assert(stream_of(got) =~= f + stream_of(sub));
            assert(data =~= stream_of(got) + left);
            if n == whole.len() {
                assert(sub == rest);
                assert(got =~= ms);
            }
        }
    }
}

} // verus!
