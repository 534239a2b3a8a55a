//! The message that says why something was not taken.

use vstd::prelude::*;
use vstd::string::*;
use crate::bytes;
use crate::error;
use crate::text;
use crate::error::{CoreError, Fault, Result};

verus! {

/// What `String::from_utf8_lossy` makes of bytes.
pub uninterp spec fn spec_utf8_lossy(data: Seq<u8>) -> Seq<char>;

/// `String::from_utf8_lossy`: the text that valid UTF-8 stands for; in other
/// bytes the invalid parts are replaced, and the result has only a name.
#[verifier::external_body]
fn utf8_lossy(data: &[u8]) -> (r: String)
    ensures
        r@ == spec_utf8_lossy(data@),
        vstd::utf8::valid_utf8(data@) ==> r@ == vstd::utf8::decode_utf8(data@),
{
    String::from_utf8_lossy(data).into_owned()
}

/// Why something was not taken: which message, a code, and the reason.
#[derive(Clone, Debug)]
pub struct RejectMessage {
    pub message: String,
    pub code: u8,
    pub reason: String,
}

/// A rejection on the wire: both texts are preceded by the low byte of their
/// length.
pub open spec fn reject_bytes(message: Seq<u8>, code: u8, reason: Seq<u8>) -> Seq<u8> {
    seq![(message.len() % 256) as u8] + message + seq![code] + seq![(reason.len() % 256) as u8]
        + reason
}

/// The parts of a rejection, if the bytes are one.
pub open spec fn reject_parts(data: Seq<u8>) -> Option<(Seq<u8>, u8, Seq<u8>)> {
    let n = data[0] as int;
    let m = data[2 + n] as int;
    if data.len() < 3 || data.len() < 3 + n || data.len() != 3 + n + m {
        None
    } else {
        Some((data.subrange(1, 1 + n), data[1 + n], data.subrange(3 + n, 3 + n + m)))
    }
}

/// What is wrong with bytes that are no rejection.
pub open spec fn reject_fault(data: Seq<u8>) -> Fault {
    let n = data[0] as int;
    let m = data[2 + n] as int;
    if data.len() < 3 {
        error::malformed("reject: too short"@)
    } else if data.len() < 2 + n {
        error::malformed("reject: message truncated"@)
    } else if data.len() < 3 + n {
        error::malformed("reject: reason length missing"@)
    } else if data.len() < 3 + n + m {
        error::malformed("reject: reason truncated"@)
    } else {
        error::malformed(
            text::number_between(
                "reject: "@,
                (data.len() - (3 + n + m)) as nat,
                " trailing bytes"@,
            ),
        )
    }
}

impl RejectMessage {
    pub fn encode(&self) -> (r: Vec<u8>)
        ensures
            r@ == reject_bytes(
                vstd::utf8::encode_utf8(self.message@),
                self.code,
                vstd::utf8::encode_utf8(self.reason@),
            ),
    {
        let message = self.message.as_str().as_bytes();
        let reason = self.reason.as_str().as_bytes();
        let mut buf: Vec<u8> = Vec::new();
        buf.push((message.len() % 256) as u8);
        bytes::push_bytes(&mut buf, message);
        buf.push(self.code);
        buf.push((reason.len() % 256) as u8);
        bytes::push_bytes(&mut buf, reason);
        assert(buf@ =~= reject_bytes(
            vstd::utf8::encode_utf8(self.message@),
            self.code,
            vstd::utf8::encode_utf8(self.reason@),
        ));
        buf
    }

    pub fn decode(data: &[u8]) -> (r: Result<RejectMessage>)
        ensures
            match reject_parts(data@) {
                Some((message, code, reason)) => r matches Ok(m) && m.code == code && m.message@
                    == spec_utf8_lossy(message) && m.reason@ == spec_utf8_lossy(reason) && (
                vstd::utf8::valid_utf8(message) ==> m.message@ == vstd::utf8::decode_utf8(message))
                    && (vstd::utf8::valid_utf8(reason) ==> m.reason@ == vstd::utf8::decode_utf8(
                    reason,
                )),
                None => r matches Err(e) && e.fault() == reject_fault(data@),
            },
    {
        if data.len() < 3 {
            return Err(CoreError::Serialization("reject: too short".to_string()));
        }
        let n: usize = data[0] as usize;
        if data.len() < 2 + n {
            return Err(CoreError::Serialization("reject: message truncated".to_string()));
        }
        if data.len() < 3 + n {
            return Err(CoreError::Serialization("reject: reason length missing".to_string()));
        }
        let m: usize = data[2 + n] as usize;
        if data.len() < 3 + n + m {
            return Err(CoreError::Serialization("reject: reason truncated".to_string()));
        }
        if data.len() != 3 + n + m {
            return Err(
                CoreError::Serialization(
                    text::phrase_around(
                        "reject: ",
                        (data.len() - (3 + n + m)) as u64,
                        " trailing bytes",
                    ),
                ),
            );
        }
        let message = utf8_lossy(&data[1..1 + n]);
        let reason = utf8_lossy(&data[3 + n..3 + n + m]);
        Ok(RejectMessage { message, code: data[1 + n], reason })
    }
}

/// A rejection whose texts take no more than 255 bytes each reads back from its
/// bytes, text for text.
pub proof fn reject_roundtrip(message: Seq<char>, code: u8, reason: Seq<char>)
    requires
        vstd::utf8::encode_utf8(message).len() <= 255,
        vstd::utf8::encode_utf8(reason).len() <= 255,
    ensures
        ({
            let a = vstd::utf8::encode_utf8(message);
            let b = vstd::utf8::encode_utf8(reason);
            &&& reject_parts(reject_bytes(a, code, b)) == Some((a, code, b))
            &&& vstd::utf8::valid_utf8(a) && vstd::utf8::decode_utf8(a) == message
            &&& vstd::utf8::valid_utf8(b) && vstd::utf8::decode_utf8(b) == reason
        }),
{
    let a = vstd::utf8::encode_utf8(message);
    let b = vstd::utf8::encode_utf8(reason);
    let data = reject_bytes(a, code, b);
    let n = a.len() as int;
    assert(data.subrange(1, 1 + n) =~= a);
    assert(data[2 + n] == b.len());
    assert(data.subrange(3 + n, 3 + n + b.len()) =~= b);
    vstd::utf8::encode_utf8_valid_utf8(message);
    vstd::utf8::encode_utf8_valid_utf8(reason);
    vstd::utf8::encode_utf8_decode_utf8(message);
    vstd::utf8::encode_utf8_decode_utf8(reason);
}

} // verus!
