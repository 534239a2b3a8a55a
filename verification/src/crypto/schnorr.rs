//! BIP-340 Schnorr signatures over secp256k1: 32-byte x-only public keys and
//! 64-byte signatures with a deterministic nonce.

use vstd::prelude::*;
use vstd::string::*;
use crate::bytes;
use crate::crypto::error::{CryptoError, CryptoResult};
use crate::hash;

verus! {

/// Secret key: a valid secp256k1 private key.
#[derive(Clone, Copy, Eq)]
pub struct SecretKey32(pub [u8; 32]);

/// X-only public key.
#[derive(Clone, Copy, Eq, Hash, Debug)]
pub struct PublicKey32(pub [u8; 32]);

/// Schnorr signature.
#[derive(Clone, Copy, Eq, Debug)]
pub struct Signature64(pub [u8; 64]);

impl PartialEq for SecretKey32 {
    fn eq(&self, other: &Self) -> (r: bool) {
        let r = bytes::bytes_equal(&self.0, &other.0);
        proof {
            if r {
                bytes::lemma_array_equal(self.0, other.0);
            }
        }
        r
    }
}

impl vstd::std_specs::cmp::PartialEqSpecImpl for SecretKey32 {
    open spec fn obeys_eq_spec() -> bool {
        true
    }

    open spec fn eq_spec(&self, other: &Self) -> bool {
        *self == *other
    }
}

impl PartialEq for PublicKey32 {
    fn eq(&self, other: &Self) -> (r: bool) {
        let r = bytes::bytes_equal(&self.0, &other.0);
        proof {
            if r {
                bytes::lemma_array_equal(self.0, other.0);
            }
        }
        r
    }
}

impl vstd::std_specs::cmp::PartialEqSpecImpl for PublicKey32 {
    open spec fn obeys_eq_spec() -> bool {
        true
    }

    open spec fn eq_spec(&self, other: &Self) -> bool {
        *self == *other
    }
}

impl PartialEq for Signature64 {
    fn eq(&self, other: &Self) -> (r: bool) {
        let r = bytes::bytes_equal(&self.0, &other.0);
        proof {
            if r {
                bytes::lemma_array_equal(self.0, other.0);
            }
        }
        r
    }
}

impl vstd::std_specs::cmp::PartialEqSpecImpl for Signature64 {
    open spec fn obeys_eq_spec() -> bool {
        true
    }

    open spec fn eq_spec(&self, other: &Self) -> bool {
        *self == *other
    }
}

/// The order of the secp256k1 curve.
pub open spec fn curve_order() -> nat {
    0xffff_ffff_ffff_ffff_ffff_ffff_ffff_fffe_baae_dce6_af48_a03b_bfd2_5e8c_d036_4141nat
}

/// Whether bytes are a secret key: not zero and below the curve order.
pub open spec fn valid_secret(key: Seq<u8>) -> bool {
    0 < bytes::be_value(key) < curve_order()
}

/// Whether bytes are the x coordinate of a point on the curve.
pub uninterp spec fn spec_valid_xonly(key: [u8; 32]) -> bool;

/// The x-only public key of a secret key.
pub uninterp spec fn spec_xonly(secret: [u8; 32]) -> [u8; 32];

/// The BIP-340 signature of a message under a secret key, without auxiliary
/// randomness.
pub uninterp spec fn spec_sign(secret: [u8; 32], msg: [u8; 32]) -> [u8; 64];

/// Whether a signature of a message verifies under a public key.
pub uninterp spec fn spec_verify(key: [u8; 32], msg: [u8; 32], sig: [u8; 64]) -> bool;

/// `secp256k1::SecretKey::from_slice`: takes 32 bytes that stand, big-endian,
/// for a number other than zero and below the curve order.
#[verifier::external_body]
fn secret_parses(key: &[u8; 32]) -> (r: bool)
    ensures
        r == valid_secret(key@),
{
    secp256k1::SecretKey::from_slice(key).is_ok()
}

/// `secp256k1::Secp256k1::generate_keypair` on the thread's random generator:
/// a valid secret key, of which nothing else is said.
#[verifier::external_body]
fn random_secret() -> (r: [u8; 32])
    ensures
        valid_secret(r@),
{
    let secp = secp256k1::Secp256k1::new();
    let (secret, _) = secp.generate_keypair(&mut secp256k1::rand::thread_rng());
    secret.secret_bytes()
}

/// `secp256k1::XOnlyPublicKey::from_slice`: takes 32 bytes that are the x
/// coordinate of a curve point, which is a function of the bytes alone.
#[verifier::external_body]
fn xonly_parses(key: &[u8; 32]) -> (r: bool)
    ensures
        r == spec_valid_xonly(*key),
{
    secp256k1::XOnlyPublicKey::from_slice(key).is_ok()
}

/// `secp256k1::KeyPair::x_only_public_key`: the public key of a secret key,
/// which is a function of it and the x coordinate of a curve point.
#[verifier::external_body]
fn xonly_of(secret: &[u8; 32]) -> (r: [u8; 32])
    requires
        valid_secret(secret@),
    ensures
        r == spec_xonly(*secret),
        spec_valid_xonly(r),
{
    let secp = secp256k1::Secp256k1::new();
    let key = secp256k1::SecretKey::from_slice(secret).unwrap();
    let pair = secp256k1::KeyPair::from_secret_key(&secp, &key);
    pair.x_only_public_key().0.serialize()
}

/// `secp256k1::Secp256k1::sign_schnorr_with_aux_rand` with zero auxiliary
/// bytes: a signature that is a function of key and message and verifies under
/// the key's public key.
#[verifier::external_body]
fn sign(secret: &[u8; 32], msg: &[u8; 32]) -> (r: [u8; 64])
    requires
        valid_secret(secret@),
    ensures
        r == spec_sign(*secret, *msg),
        spec_verify(spec_xonly(*secret), *msg, r),
{
    let secp = secp256k1::Secp256k1::new();
    let key = secp256k1::SecretKey::from_slice(secret).unwrap();
    let pair = secp256k1::KeyPair::from_secret_key(&secp, &key);
    let msg = secp256k1::Message::from_slice(msg).unwrap();
    *secp.sign_schnorr_with_aux_rand(&msg, &pair, &[0u8; 32]).as_ref()
}

/// `secp256k1::Secp256k1::verify_schnorr` with a public key that parses: the
/// verdict is a function of key, message and signature. Message and signature
/// take any bytes of the right length.
#[verifier::external_body]
fn verify(key: &[u8; 32], msg: &[u8; 32], sig: &[u8; 64]) -> (r: bool)
    requires
        spec_valid_xonly(*key),
    ensures
        r == spec_verify(*key, *msg, *sig),
{
    let secp = secp256k1::Secp256k1::new();
    let key = secp256k1::XOnlyPublicKey::from_slice(key).unwrap();
    let msg = secp256k1::Message::from_slice(msg).unwrap();
    let sig = secp256k1::schnorr::Signature::from_slice(sig).unwrap();
    secp.verify_schnorr(&sig, &msg, &key).is_ok()
}

/// Whether an error says that bytes are no secret key.
pub open spec fn bad_secret(e: CryptoError) -> bool {
    e matches CryptoError::InvalidSecretKey(s) && s@ == "InvalidSecretKey"@
}

/// What is said of bytes that are no public key.
pub open spec fn off_curve() -> Seq<char> {
    "invalid public key: "@ + "InvalidPublicKey"@
}

impl SecretKey32 {
    /// A secret key from its bytes, which must be in range.
    pub fn from_bytes(b: [u8; 32]) -> (r: CryptoResult<SecretKey32>)
        ensures
            match r {
                Ok(k) => valid_secret(b@) && k.0 == b,
                Err(e) => !valid_secret(b@) && bad_secret(e),
            },
    {
        if !secret_parses(&b) {
            return Err(CryptoError::InvalidSecretKey("InvalidSecretKey".to_string()));
        }
        Ok(SecretKey32(b))
    }

    /// A fresh random secret key.
    pub fn generate() -> (r: SecretKey32)
        ensures
            valid_secret(r.0@),
    {
        SecretKey32(random_secret())
    }
}

impl PublicKey32 {
    /// The public key of a secret key.
    pub fn from_secret(secret: &SecretKey32) -> (r: CryptoResult<PublicKey32>)
        ensures
            match r {
                Ok(k) => valid_secret(secret.0@) && k.0 == spec_xonly(secret.0)
                    && spec_valid_xonly(k.0),
                Err(e) => !valid_secret(secret.0@) && bad_secret(e),
            },
    {
        if !secret_parses(&secret.0) {
            return Err(CryptoError::InvalidSecretKey("InvalidSecretKey".to_string()));
        }
        Ok(PublicKey32(xonly_of(&secret.0)))
    }

    /// A public key from its bytes, which must be on the curve.
    pub fn from_bytes(b: [u8; 32]) -> (r: CryptoResult<PublicKey32>)
        ensures
            match r {
                Ok(k) => spec_valid_xonly(b) && k.0 == b,
                Err(e) => !spec_valid_xonly(b) && e.spec_message() == off_curve(),
            },
    {
        if !xonly_parses(&b) {
            return Err(CryptoError::InvalidPublicKey("InvalidPublicKey".to_string()));
        }
        Ok(PublicKey32(b))
    }
}

impl Signature64 {
    /// A signature from its bytes. Any 64 bytes have the form of one.
    pub fn from_bytes(b: [u8; 64]) -> (r: CryptoResult<Signature64>)
        ensures
            r matches Ok(s) && s.0 == b,
    {
        Ok(Signature64(b))
    }
}

/// Whether a signature of a message is good under a public key.
pub open spec fn signature_valid(key: PublicKey32, msg: [u8; 32], sig: Signature64) -> bool {
    spec_valid_xonly(key.0) && spec_verify(key.0, msg, sig.0)
}

/// Sign a message hash. The same key and message give the same signature, and
/// it verifies.
pub fn schnorr_sign(secret: &SecretKey32, msg_hash: &[u8; 32]) -> (r: CryptoResult<Signature64>)
    ensures
        match r {
            Ok(s) => valid_secret(secret.0@) && s.0 == spec_sign(secret.0, *msg_hash)
                && spec_verify(spec_xonly(secret.0), *msg_hash, s.0),
            Err(e) => !valid_secret(secret.0@) && bad_secret(e),
        },
{
    if !secret_parses(&secret.0) {
        return Err(CryptoError::InvalidSecretKey("InvalidSecretKey".to_string()));
    }
    Ok(Signature64(sign(&secret.0, msg_hash)))
}

/// Verify a signature. A public key off the curve verifies nothing.
pub fn schnorr_verify(public_key: &PublicKey32, msg_hash: &[u8; 32], sig: &Signature64) -> (r: bool)
    ensures
        r == signature_valid(*public_key, *msg_hash, *sig),
{
    if !xonly_parses(&public_key.0) {
        return false;
    }
    verify(&public_key.0, msg_hash, &sig.0)
}

/// Verify several signatures of one message, each under its own key.
pub fn schnorr_batch_verify(
    pubkeys: &[PublicKey32],
    msg_hash: &[u8; 32],
    sigs: &[Signature64],
) -> (r: CryptoResult<bool>)
    ensures
        match r {
            Ok(all) => pubkeys@.len() == sigs@.len() && all == (forall|i: int|
                0 <= i < pubkeys@.len() ==> #[trigger] signature_valid(
                    pubkeys@[i],
                    *msg_hash,
                    sigs@[i],
                )),
            Err(e) => pubkeys@.len() != sigs@.len() && (e matches CryptoError::InvalidSignature(s)
                && s@ == "mismatched lengths"@),
        },
{
    if pubkeys.len() != sigs.len() {
        return Err(CryptoError::InvalidSignature("mismatched lengths".to_string()));
    }
    let mut i: usize = 0;
    while i < pubkeys.len()
        invariant
            i <= pubkeys@.len() == sigs@.len(),
            forall|j: int|
                0 <= j < i ==> #[trigger] signature_valid(pubkeys@[j], *msg_hash, sigs@[j]),
        decreases pubkeys@.len() - i,
    {
        if !schnorr_verify(&pubkeys[i], msg_hash, &sigs[i]) {
            assert(!signature_valid(pubkeys@[i as int], *msg_hash, sigs@[i as int]));
            return Ok(false);
        }
        i = i + 1;
    }
    Ok(true)
}

/// Domain separation tag for transaction signing.
const SIGHASH_DOMAIN: &'static str = "Chroma Transaction Signing v1";

/// What a transaction's signature covers, behind the domain tag.
pub open spec fn sighash_input(
    sender: Seq<u8>,
    recipient: Seq<u8>,
    amount: u64,
    nonce: u64,
) -> Seq<u8> {
    vstd::utf8::encode_utf8("Chroma Transaction Signing v1"@) + sender + recipient
        + bytes::le_bytes(amount as nat, 8) + bytes::le_bytes(nonce as nat, 8)
}

/// The message a transaction's signature signs.
pub open spec fn sighash(sender: Seq<u8>, recipient: Seq<u8>, amount: u64, nonce: u64) -> [u8; 32] {
    hash::spec_blake3(sighash_input(sender, recipient, amount, nonce))
}

/// Compute the message that a transaction's signature signs.
pub fn compute_sighash(sender: &[u8; 20], recipient: &[u8; 20], amount: u64, nonce: u64) -> (r: [u8;
    32])
    ensures
        r == sighash(sender@, recipient@, amount, nonce),
{
    let mut data: Vec<u8> = Vec::new();
    bytes::push_bytes(&mut data, SIGHASH_DOMAIN.as_bytes());
    bytes::push_bytes(&mut data, sender);
    bytes::push_bytes(&mut data, recipient);
    bytes::push_le(&mut data, amount, 8);
    bytes::push_le(&mut data, nonce, 8);
    assert(data@ =~= sighash_input(sender@, recipient@, amount, nonce));
    hash::blake3(&data).0
}

/// What a signature covers tells two transfers apart: no two of them with
/// different fields give the same bytes to sign.
pub proof fn sighash_input_injective(
    s1: Seq<u8>,
    r1: Seq<u8>,
    a1: u64,
    n1: u64,
    s2: Seq<u8>,
    r2: Seq<u8>,
    a2: u64,
    n2: u64,
)
    requires
        s1.len() == 20,
        r1.len() == 20,
        s2.len() == 20,
        r2.len() == 20,
        sighash_input(s1, r1, a1, n1) == sighash_input(s2, r2, a2, n2),
    ensures
        s1 == s2,
        r1 == r2,
        a1 == a2,
        n1 == n2,
{
    let d = vstd::utf8::encode_utf8("Chroma Transaction Signing v1"@);
    bytes::lemma_le_bytes_len(a1 as nat, 8);
    bytes::lemma_le_bytes_len(a2 as nat, 8);
    bytes::lemma_le_bytes_len(n1 as nat, 8);
    bytes::lemma_le_bytes_len(n2 as nat, 8);
    let x1 = bytes::le_bytes(a1 as nat, 8);
    let x2 = bytes::le_bytes(a2 as nat, 8);
    let y1 = bytes::le_bytes(n1 as nat, 8);
    let y2 = bytes::le_bytes(n2 as nat, 8);
    bytes::lemma_split_equal(d + s1 + r1 + x1, y1, d + s2 + r2 + x2, y2);
    bytes::lemma_split_equal(d + s1 + r1, x1, d + s2 + r2, x2);
    bytes::lemma_split_equal(d + s1, r1, d + s2, r2);
    bytes::lemma_split_equal(d, s1, d, s2);
    bytes::lemma_pow256_values();
    bytes::lemma_le_bytes_injective(a1 as nat, a2 as nat, 8);
    bytes::lemma_le_bytes_injective(n1 as nat, n2 as nat, 8);
}

/// Whether BLAKE3 gives two different inputs one digest.
pub open spec fn digests_collide() -> bool {
    exists|a: Seq<u8>, b: Seq<u8>|
        a != b && #[trigger] hash::spec_blake3(a) == #[trigger] hash::spec_blake3(b)
}

/// A signature signs the digest of the domain tag, the sender, the recipient,
/// the amount and the nonce, in this order and with nothing else.
pub proof fn signature_covers_every_field(
    sender: Seq<u8>,
    recipient: Seq<u8>,
    amount: u64,
    nonce: u64,
)
    ensures
        sighash(sender, recipient, amount, nonce) == hash::spec_blake3(
            vstd::utf8::encode_utf8("Chroma Transaction Signing v1"@) + sender + recipient
                + bytes::le_bytes(amount as nat, 8) + bytes::le_bytes(nonce as nat, 8),
        ),
{
}

/// Two transfers that differ in sender, recipient, amount or nonce have
/// different messages to sign, unless BLAKE3 gives two different inputs one
/// digest.
pub proof fn changed_transfer_needs_another_signature(
    s1: Seq<u8>,
    r1: Seq<u8>,
    a1: u64,
    n1: u64,
    s2: Seq<u8>,
    r2: Seq<u8>,
    a2: u64,
    n2: u64,
)
    requires
        s1.len() == 20,
        r1.len() == 20,
        s2.len() == 20,
        r2.len() == 20,
        s1 != s2 || r1 != r2 || a1 != a2 || n1 != n2,
    ensures
        sighash(s1, r1, a1, n1) != sighash(s2, r2, a2, n2) || digests_collide(),
{
    let x = sighash_input(s1, r1, a1, n1);
    let y = sighash_input(s2, r2, a2, n2);
    if x == y {
        sighash_input_injective(s1, r1, a1, n1, s2, r2, a2, n2);
    }
    if sighash(s1, r1, a1, n1) == sighash(s2, r2, a2, n2) {
        assert(x != y && hash::spec_blake3(x) == hash::spec_blake3(y));
    }
}

/// A signature is good exactly when its key is on the curve and the signature
/// verifies under that key for that message; what a key signs is good under its
/// own public key.
pub proof fn good_signatures_verify(key: PublicKey32, msg: [u8; 32], sig: Signature64)
    ensures
        signature_valid(key, msg, sig) <==> spec_valid_xonly(key.0) && spec_verify(
            key.0,
            msg,
            sig.0,
        ),
{
}

} // verus!
