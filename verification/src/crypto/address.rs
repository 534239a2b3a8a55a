//! Bech32m address encoding.
//!
//! Addresses have the form `chr1<data><checksum>`, where the data is the
//! 20-byte hash of a public key.

use vstd::prelude::*;
use vstd::string::*;
use crate::bytes;
use crate::constants::{ADDRESS_HASH_LEN, ADDRESS_HRP};
use crate::hash::Hash160;

verus! {

/// Address text, such as `chr1...`.
#[derive(Clone, PartialEq, Eq, Hash, Debug)]
pub struct AddressString(pub String);

/// The Bech32m text for a human readable part and data.
pub uninterp spec fn spec_bech32m_encode(hrp: Seq<char>, data: Seq<u8>) -> Seq<char>;

/// The human readable part and the data of Bech32 or Bech32m text.
pub uninterp spec fn spec_bech32_decode(text: Seq<char>) -> Option<(Seq<char>, Seq<u8>)>;

pub open spec fn is_lower(c: char) -> bool {
    97 <= c as u32 <= 122
}

pub open spec fn is_upper(c: char) -> bool {
    65 <= c as u32 <= 90
}

/// Whether text can be a human readable part: 1 to 83 visible ASCII
/// characters, not of both cases.
pub open spec fn valid_hrp(h: Seq<char>) -> bool {
    &&& 1 <= h.len() <= 83
    &&& forall|i: int| 0 <= i < h.len() ==> 33 <= #[trigger] h[i] as u32 <= 126
    &&& !((exists|i: int| 0 <= i < h.len() && is_lower(#[trigger] h[i])) && (exists|i: int|
        0 <= i < h.len() && is_upper(#[trigger] h[i])))
}

/// `bech32::Hrp::parse` and `bech32::encode` with the Bech32m checksum.
///
/// Parsing takes 1 to 83 ASCII characters of the range 33 to 126 that are not
/// of mixed case. Encoding fails only past a code length of 1023 characters,
/// which no part of 83 characters with at most 64 bytes of data reaches. The
/// text is a function of both arguments. Where the human readable part has no
/// upper-case letter, the text begins with it and the separator `1`, and
/// decoding gives both arguments back.
#[verifier::external_body]
fn bech32m_encode(hrp: &str, data: &[u8]) -> (r: Option<String>)
    requires
        data@.len() <= 64,
    ensures
        r is Some <==> valid_hrp(hrp@),
        r matches Some(s) ==> s@ == spec_bech32m_encode(hrp@, data@),
        r matches Some(s) ==> (forall|i: int| 0 <= i < hrp@.len() ==> !is_upper(#[trigger] hrp@[i]))
            ==> spec_bech32_decode(s@) == Some((hrp@, data@)) && s@.len() > hrp@.len() && s@.subrange(
            0,
            hrp@.len() as int,
        ) == hrp@ && s@[hrp@.len() as int] == '1',
{
    let part = bech32::Hrp::parse(hrp).ok()?;
    bech32::encode::<bech32::Bech32m>(part, data).ok()
}

/// `bech32::decode`: the human readable part, in the case it was written in,
/// and the data, where the text has a valid Bech32m or Bech32 checksum. What
/// it gives is a function of the text alone.
#[verifier::external_body]
fn bech32_decode(text: &str) -> (r: Option<(String, Vec<u8>)>)
    ensures
        match r {
            Some(p) => spec_bech32_decode(text@) == Some((p.0@, p.1@)),
            None => spec_bech32_decode(text@) is None,
        },
{
    let (part, data) = bech32::decode(text).ok()?;
    Some((part.as_str().to_string(), data))
}

/// The hash in decoded address text: 20 bytes behind the part `chr`.
pub open spec fn address_payload(decoded: Option<(Seq<char>, Seq<u8>)>) -> Option<Seq<u8>> {
    match decoded {
        Some((part, data)) => if part == ADDRESS_HRP@ && data.len() == 20 {
            Some(data)
        } else {
            None
        },
        None => None,
    }
}

/// What address text begins with.
pub const ADDRESS_MARK: &'static str = "chr1";

/// Whether text begins as address text does.
pub open spec fn has_mark(s: Seq<char>) -> bool {
    s.len() >= ADDRESS_MARK@.len() && s.subrange(0, ADDRESS_MARK@.len() as int) == ADDRESS_MARK@
}

impl AddressString {
    /// Encode a hash into address text, with the usual human readable part
    /// unless another is given.
    pub fn from_hash160(h: &Hash160, hrp_str: Option<&str>) -> (r: Option<AddressString>)
        ensures
            ({
                let part = match hrp_str {
                    Some(p) => p@,
                    None => ADDRESS_HRP@,
                };
                &&& r is Some <==> valid_hrp(part)
                &&& r matches Some(a) ==> a.0@ == spec_bech32m_encode(part, h.0@)
            }),
            hrp_str is None ==> r is Some && address_payload(spec_bech32_decode((r->0).0@)) == Some(
                h.0@,
            ) && has_mark((r->0).0@),
    {
        let part: &str = match hrp_str {
            Some(p) => p,
            None => ADDRESS_HRP,
        };
        proof {
            lemma_address_hrp();
        }
        match bech32m_encode(part, &h.0) {
            Some(s) => {
                proof {
                    if hrp_str is None {
                        reveal_strlit("chr");
                        reveal_strlit("chr1");
                        assert forall|i: int| 0 <= i < 3 implies s@[i] == "chr"@[i] by {
                            assert(s@.subrange(0, 3)[i] == s@[i]);
                        }
                        assert(s@.subrange(0, 4) =~= "chr1"@);
                    }
                }
                Some(AddressString(s))
            },
            None => None,
        }
    }

    /// Decode address text into the hash.
    pub fn to_hash160(&self) -> (r: Option<Hash160>)
        ensures
            match r {
                Some(h) => address_payload(spec_bech32_decode(self.0@)) == Some(h.0@),
                None => address_payload(spec_bech32_decode(self.0@)) is None,
            },
    {
        Self::payload(bech32_decode(self.0.as_str()))
    }

    /// The hash in decoded text, if it is an address of this chain.
    pub fn payload(decoded: Option<(String, Vec<u8>)>) -> (r: Option<Hash160>)
        ensures
            ({
                let d = match decoded {
                    Some(p) => Some((p.0@, p.1@)),
                    None => None,
                };
                match r {
                    Some(h) => address_payload(d) == Some(h.0@),
                    None => address_payload(d) is None,
                }
            }),
    {
        match decoded {
            Some((part, data)) => {
                if part != ADDRESS_HRP.to_string() {
                    return None;
                }
                if data.len() != ADDRESS_HASH_LEN {
                    return None;
                }
                assert(data@.subrange(0, 20) =~= data@);
                Some(Hash160(bytes::take_array::<20>(&data, 0)))
            },
            None => None,
        }
    }
}

proof fn lemma_address_hrp()
    ensures
        valid_hrp(ADDRESS_HRP@),
        forall|i: int| 0 <= i < ADDRESS_HRP@.len() ==> !is_upper(#[trigger] ADDRESS_HRP@[i]),
{
    reveal_strlit("chr");
}

} // verus!
