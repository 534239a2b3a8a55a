//! That comparing values compares all of them, and that converting keeps them.

use vstd::prelude::*;
use vstd::std_specs::cmp::PartialEqSpec;
use vstd::std_specs::convert::FromSpec;
use crate::block::BlockHeader;
use crate::consensus::params::ChainParams;
use crate::crypto::noise::{NodeId, NoiseKey};
use crate::crypto::schnorr::{PublicKey32, SecretKey32, Signature64};
use crate::hash;
use crate::hash::Hash160;
use crate::p2p::address::{AddressGroup, PeerAddress};
use crate::p2p::net::{IpAddr, NetAddr};
use crate::state::ProofStep;
use crate::tx::Transaction;
use crate::types::{Address, Amount, BlockHeight, Nonce};
use crate::u256::U256;

verus! {

/// Two blocks' headers, transactions or steps of a proof are equal only if nothing
/// in them differs.
pub proof fn chain_values_compare_whole(
    a: BlockHeader,
    b: BlockHeader,
    s: Transaction,
    t: Transaction,
    p: ProofStep,
    q: ProofStep,
    x: ChainParams,
    y: ChainParams,
    m: U256,
    n: U256,
)
    ensures
        a.eq_spec(&b) <==> a == b,
        s.eq_spec(&t) <==> s == t,
        p.eq_spec(&q) <==> p == q,
        x.eq_spec(&y) <==> x == y,
        m.eq_spec(&n) <==> m == n,
{
}

/// Two hashes, keys, signatures or addresses are equal only if all their bytes
/// are.
pub proof fn bytes_compare_whole(
    h: hash::Hash,
    i: hash::Hash,
    j: Hash160,
    k: Hash160,
    a: Address,
    b: Address,
    s: SecretKey32,
    t: SecretKey32,
    p: PublicKey32,
    q: PublicKey32,
    x: Signature64,
    y: Signature64,
)
    ensures
        h.eq_spec(&i) <==> h.0@ == i.0@,
        j.eq_spec(&k) <==> j.0@ == k.0@,
        a.eq_spec(&b) <==> a.0.0@ == b.0.0@,
        s.eq_spec(&t) <==> s.0@ == t.0@,
        p.eq_spec(&q) <==> p.0@ == q.0@,
        x.eq_spec(&y) <==> x.0@ == y.0@,
{
    lemma_arrays(h.0, i.0);
    lemma_arrays(j.0, k.0);
    lemma_arrays(a.0.0, b.0.0);
    lemma_arrays(s.0, t.0);
    lemma_arrays(p.0, q.0);
    lemma_arrays(x.0, y.0);
}

proof fn lemma_arrays<const N: usize>(a: [u8; N], b: [u8; N])
    ensures
        a@ == b@ <==> a == b,
{
    if a@ == b@ {
        crate::bytes::lemma_array_equal(a, b);
    }
}

/// Two peers, or parts of the network, are equal only if nothing in them differs.
pub proof fn network_values_compare_whole(
    a: PeerAddress,
    b: PeerAddress,
    g: AddressGroup,
    h: AddressGroup,
    i: IpAddr,
    j: IpAddr,
    m: NetAddr,
    n: NetAddr,
    p: NodeId,
    q: NodeId,
    x: NoiseKey,
    y: NoiseKey,
)
    ensures
        a.eq_spec(&b) <==> a.node_id == b.node_id && a.noise_key == b.noise_key && a.socket
            == b.socket,
        g.eq_spec(&h) <==> g == h,
        i.eq_spec(&j) <==> i == j,
        m.eq_spec(&n) <==> m.ip == n.ip && m.port == n.port,
        p.eq_spec(&q) <==> p == q,
        x.eq_spec(&y) <==> x == y,
{
}

/// A value made of another holds it unchanged.
pub proof fn conversions_keep_the_value(
    h: [u8; 32],
    j: [u8; 20],
    k: Hash160,
    height: u32,
    units: u64,
)
    ensures
        <hash::Hash as FromSpec<[u8; 32]>>::from_spec(h).0 == h,
        <Hash160 as FromSpec<[u8; 20]>>::from_spec(j).0 == j,
        <Address as FromSpec<Hash160>>::from_spec(k).0 == k,
        <BlockHeight as FromSpec<u32>>::from_spec(height).0 == height,
        <Amount as FromSpec<u64>>::from_spec(units).0 == units,
        <Nonce as FromSpec<u64>>::from_spec(units).0 == units,
{
}

} // verus!
