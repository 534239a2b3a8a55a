//! Proof of work.
//!
//! Regtest hashes headers with BLAKE3. The other networks are set up for
//! RandomX, keyed by an epoch seed:
//!
//! - seed: hash of the block at `epoch_start - lag`
//! - epoch: 1000 blocks
//! - lag: 100 blocks, so that a seed is settled before it is used

use vstd::prelude::*;
use crate::bytes;
use crate::crypto::error::{CryptoError, CryptoResult};
use crate::hash;
use crate::u256;
use crate::u256::U256;

verus! {

/// The function that proves work.
#[derive(Clone, Copy, PartialEq, Eq, Structural, Debug)]
pub enum PowAlgorithm {
    RandomX,
    Blake3,
}

/// The outcome of a proof-of-work hash.
pub struct PowResult {
    pub hash: hash::Hash,
}

/// What a plain proof-of-work hash is taken over.
pub open spec fn pow_input(
    prev_hash: hash::Hash,
    merkle_root: hash::Hash,
    nonce: u64,
    extra_nonce: Seq<u8>,
) -> Seq<u8> {
    prev_hash.0@ + merkle_root.0@ + bytes::le_bytes(nonce as nat, 8) + extra_nonce
}

/// BLAKE3 proof of work.
pub fn pow_blake3(prev_hash: &hash::Hash, merkle_root: &hash::Hash, nonce: u64, extra_nonce: &[u8]) -> (r: hash::Hash)
    ensures
        r == hash::hash_of(pow_input(*prev_hash, *merkle_root, nonce, extra_nonce@)),
{
    let mut data: Vec<u8> = Vec::new();
    bytes::push_bytes(&mut data, &prev_hash.0);
    bytes::push_bytes(&mut data, &merkle_root.0);
    bytes::push_le(&mut data, nonce, 8);
    bytes::push_bytes(&mut data, extra_nonce);
    assert(data@ =~= pow_input(*prev_hash, *merkle_root, nonce, extra_nonce@));
    hash::blake3(&data)
}

/// Whether a hash is good enough for a target.
pub open spec fn meets(hash: hash::Hash, target: nat) -> bool {
    bytes::be_value(hash.0@) <= target
}

/// Whether a hash, as a big-endian number, is at most the target.
pub fn hash_meets_target(hash: &hash::Hash, target: &[u8; 32]) -> (r: bool)
    ensures
        r == meets(*hash, bytes::be_value(target@)),
{
    !bytes::bytes_less(target, &hash.0)
}

/// A hash at most another that meets a target meets it too.
pub proof fn meeting_a_target_is_transitive(a: hash::Hash, b: hash::Hash, target: nat)
    requires
        meets(a, target),
        meets(b, bytes::be_value(a.0@)),
    ensures
        meets(b, target),
{
}

/// The expected number of hashes that a target takes, modulo two to the power
/// 256, and the largest number for a target that nothing meets but zero.
pub open spec fn work_of(target: nat) -> nat {
    if target == 0 {
        (u256::u256_limit() - 1) as nat
    } else {
        (((u256::u256_limit() - 1) as nat) / target + 1) % u256::u256_limit()
    }
}

/// Work for a target, as a 256-bit big-endian number.
pub fn calculate_work(target: &[u8; 32]) -> (r: [u8; 32])
    ensures
        bytes::be_value(r@) == work_of(bytes::be_value(target@)),
{
    let t = U256::from_be_bytes(target);
    if t.is_zero() {
        return U256::max_value().to_be_bytes();
    }
    let q = U256::max_value().div(&t);
    let work = q.wrapping_add(&U256::one());
    work.to_be_bytes()
}

/// A smaller target takes at least as much work. Targets zero and one are left
/// out: the work of one does not fit 256 bits.
pub proof fn work_grows_as_the_target_shrinks(a: nat, b: nat)
    requires
        1 < a <= b < u256::u256_limit(),
    ensures
        work_of(a) >= work_of(b),
        work_of(b) >= 2,
{
    let m = (u256::u256_limit() - 1) as nat;
    vstd::arithmetic::div_mod::lemma_div_is_ordered_by_denominator(m as int, a as int, b as int);
    vstd::arithmetic::div_mod::lemma_div_is_ordered_by_denominator(m as int, 2, a as int);
    vstd::arithmetic::div_mod::lemma_div_is_ordered_by_denominator(m as int, b as int, m as int);
    vstd::arithmetic::div_mod::lemma_div_by_self(m as int);
    vstd::arithmetic::div_mod::lemma_small_mod(m / a + 1, u256::u256_limit());
    vstd::arithmetic::div_mod::lemma_small_mod(m / b + 1, u256::u256_limit());
}

/// The seed that a block hash gives: the hash itself.
pub fn derive_seed(block_hash: &hash::Hash) -> (r: hash::Hash)
    ensures
        r == *block_hash,
{
    *block_hash
}

/// The epoch a height falls in.
pub fn epoch_for_height(height: u32, epoch_length: u32) -> (r: u32)
    requires
        epoch_length > 0,
    ensures
        r == height as int / epoch_length as int,
{
    height / epoch_length
}

/// Whether a height begins an epoch.
pub fn is_seed_update_height(height: u32, epoch_length: u32) -> (r: bool)
    requires
        epoch_length > 0,
    ensures
        r == (height as int % epoch_length as int == 0),
{
    height % epoch_length == 0
}

/// The height whose block gives the seed for `height`: the start of its epoch
/// less the lag, if the chain is that old.
pub open spec fn seed_height(height: u32, epoch_length: u32, lag: u32) -> Option<u32> {
    let start = (height / epoch_length) * epoch_length;
    if start >= lag {
        Some((start - lag) as u32)
    } else {
        None
    }
}

/// The height whose block gives the seed for `height`.
pub fn seed_height_for(height: u32, epoch_length: u32, lag: u32) -> (r: Option<u32>)
    requires
        epoch_length > 0,
    ensures
        r == seed_height(height, epoch_length, lag),
{
    proof {
        vstd::arithmetic::div_mod::lemma_fundamental_div_mod(height as int, epoch_length as int);
        vstd::arithmetic::div_mod::lemma_mod_pos_bound(height as int, epoch_length as int);
        let q = height as int / epoch_length as int;
        assert(q * epoch_length == epoch_length * q) by (nonlinear_arith);
        assert(q * epoch_length >= 0) by (nonlinear_arith)
            requires
                q >= 0,
                epoch_length > 0,
        ;
    }
    let start: u32 = (height / epoch_length) * epoch_length;
    if start >= lag {
        Some(start - lag)
    } else {
        None
    }
}

/// Whether this build can hash with RandomX.
pub fn randomx_available() -> (r: bool)
    ensures
        !r,
{
    false
}

/// Set up RandomX for a seed. This build has none, so it always fails.
pub fn init_randomx_context(_seed: &hash::Hash) -> (r: CryptoResult<()>)
    ensures
        r matches Err(CryptoError::RandomX(s)) && s@ == "not implemented in devnet"@,
{
    Err(CryptoError::RandomX("not implemented in devnet".to_string()))
}

/// The work of a target is the least number that, multiplied by the target,
/// reaches two to the power 256. Targets zero and one are left out: theirs does
/// not fit.
pub proof fn work_times_target_fills_the_space(target: nat)
    requires
        1 < target < u256::u256_limit(),
    ensures
        work_of(target) * target >= u256::u256_limit(),
        (work_of(target) - 1) * target < u256::u256_limit(),
        work_of(target) < u256::u256_limit(),
{
    let m = (u256::u256_limit() - 1) as nat;
    vstd::arithmetic::div_mod::lemma_fundamental_div_mod(m as int, target as int);
    vstd::arithmetic::div_mod::lemma_mod_pos_bound(m as int, target as int);
    let q = m / target;
    assert(q < m) by (nonlinear_arith)
        requires
            target * q <= m,
            target > 1,
            m > 0,
            q >= 0,
    ;
    vstd::arithmetic::div_mod::lemma_small_mod(q + 1, u256::u256_limit());
    assert((q + 1) * target == target * q + target) by (nonlinear_arith);
    assert((q + 1 - 1) * target == target * q) by (nonlinear_arith);
}

/// A hash meets a target exactly when, read as a big-endian number, it is at
/// most the target.
pub proof fn meeting_is_being_at_most(h: hash::Hash, target: nat)
    ensures
        meets(h, target) <==> bytes::be_value(h.0@) <= target,
        work_of(0) == u256::u256_limit() - 1,
{
}

/// The seed of a height comes from the block that stands the lag before the
/// start of its epoch, if there is one.
pub proof fn seed_comes_from_before_the_epoch(height: u32, epoch_length: u32, lag: u32)
    requires
        epoch_length > 0,
    ensures
        ({
            let start = height - height as int % epoch_length as int;
            &&& start >= lag ==> seed_height(height, epoch_length, lag) == Some((start - lag) as u32)
            &&& start < lag ==> seed_height(height, epoch_length, lag) is None
        }),
{
    vstd::arithmetic::div_mod::lemma_fundamental_div_mod(height as int, epoch_length as int);
    let q = height as int / epoch_length as int;
    assert(q * epoch_length == epoch_length * q) by (nonlinear_arith);
}

/// What is hashed for work is the hash of the block before, the root of the
/// transactions, the nonce in eight bytes and whatever was added, in this order.
pub proof fn work_is_over_everything_in_order(
    prev: hash::Hash,
    root: hash::Hash,
    nonce: u64,
    extra: Seq<u8>,
    i: int,
)
    ensures
        ({
            let d = pow_input(prev, root, nonce, extra);
            &&& d.len() == 72 + extra.len()
            &&& d.subrange(0, 32) == prev.0@
            &&& d.subrange(32, 64) == root.0@
            &&& 0 <= i < 8 ==> d[64 + i] == nonce as int / vstd::arithmetic::power::pow(
                256,
                i as nat,
            ) % 256
            &&& d.subrange(72, d.len() as int) == extra
        }),
{
    let d = pow_input(prev, root, nonce, extra);
    bytes::lemma_le_bytes_len(nonce as nat, 8);
    if 0 <= i < 8 {
        bytes::bytes_are_digits(nonce as nat, 8, i);
    }
    assert(d.subrange(0, 32) =~= prev.0@);
    assert(d.subrange(32, 64) =~= root.0@);
    assert(d.subrange(72, d.len() as int) =~= extra);
}

} // verus!
