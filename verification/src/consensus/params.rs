//! Per-network consensus parameters.
//!
//! Everything that differs between networks lives here, so that a
//! regression-test network can exist beside the real ones without any rule
//! asking which network it is on.

use vstd::arithmetic::power2::pow2;
use vstd::prelude::*;
use vstd::string::*;
use crate::bytes;
use crate::constants::{GENESIS_TARGET_BITS, GENESIS_TIMESTAMP};
use crate::crypto::randomx::PowAlgorithm;
use crate::types::{CompactTarget, NetworkId};
use crate::u256;
use crate::u256::U256;

verus! {

/// Regtest proof-of-work target: about half of all hashes satisfy it.
pub const REGTEST_GENESIS_BITS: u32 = 0x207fffff;

/// Hardest target the retarget may produce on a real network.
pub open spec fn default_min_value() -> nat {
    0xffff * pow2(160)
}

/// Easiest target the retarget may produce on a real network: about four times
/// the genesis target.
pub open spec fn default_max_value() -> nat {
    0x3ffffc0 * pow2(200)
}

/// A small number moved up, as a 256-bit big-endian number.
fn target_from(v: u64, shift: u32) -> (r: [u8; 32])
    requires
        v <= u32::MAX,
        shift <= 200,
    ensures
        bytes::be_value(r@) == v * pow2(shift as nat),
{
    proof {
        let p = pow2(shift as nat);
        u256::lemma_pow2_values();
        vstd::arithmetic::power2::lemma_pow2_adds(64, 192);
        vstd::arithmetic::power2::lemma_pow2_adds(shift as nat, (256 - shift) as nat);
        vstd::arithmetic::power2::lemma_pow2_pos(shift as nat);
        let q = pow2((256 - shift) as nat);
        vstd::arithmetic::power2::lemma2_to64();
        if shift < 200 {
            vstd::arithmetic::power2::lemma_pow2_strictly_increases(56, (256 - shift) as nat);
        }
        vstd::arithmetic::power2::lemma_pow2_strictly_increases(32, 56);
        assert(v * p < p * q) by (nonlinear_arith)
            requires
                v < q,
                p > 0,
        ;
        assert(v * p >= 0) by (nonlinear_arith)
            requires
                v >= 0,
                p > 0,
        ;
        vstd::arithmetic::div_mod::lemma_small_mod((v * p) as nat, u256::u256_limit());
    }
    U256::from_u64(v).shl(shift).to_be_bytes()
}

/// Hardest target the retarget may produce on a real network.
pub fn default_min_target() -> (r: [u8; 32])
    ensures
        bytes::be_value(r@) == default_min_value(),
{
    target_from(0xffff, 160)
}

/// Easiest target the retarget may produce on a real network.
pub fn default_max_target() -> (r: [u8; 32])
    ensures
        bytes::be_value(r@) == default_max_value(),
{
    target_from(0x3ffffc0, 200)
}

/// Consensus parameters for one network.
#[derive(Clone, Copy, Debug, Eq)]
pub struct ChainParams {
    pub network: NetworkId,
    /// Target the genesis block declares.
    pub genesis_bits: CompactTarget,
    pub genesis_timestamp: u64,
    /// Hardest permitted target.
    pub min_target: [u8; 32],
    /// Easiest permitted target.
    pub max_target: [u8; 32],
    /// Hold the target fixed instead of retargeting every window.
    pub no_retargeting: bool,
    /// The function that proves work.
    pub pow: PowAlgorithm,
}

impl PartialEq for ChainParams {
    fn eq(&self, other: &Self) -> (r: bool) {
        let same_min = bytes::bytes_equal(&self.min_target, &other.min_target);
        let same_max = bytes::bytes_equal(&self.max_target, &other.max_target);
        proof {
            if same_min {
                bytes::lemma_array_equal(self.min_target, other.min_target);
            }
            if same_max {
                bytes::lemma_array_equal(self.max_target, other.max_target);
            }
        }
        self.network == other.network && self.genesis_bits == other.genesis_bits
            && self.genesis_timestamp == other.genesis_timestamp && same_min && same_max
            && self.no_retargeting == other.no_retargeting && self.pow == other.pow
    }
}

impl vstd::std_specs::cmp::PartialEqSpecImpl for ChainParams {
    open spec fn obeys_eq_spec() -> bool {
        true
    }

    open spec fn eq_spec(&self, other: &Self) -> bool {
        *self == *other
    }
}

/// Whether parameters are those of a network.
pub open spec fn params_for(p: ChainParams, network: NetworkId) -> bool {
    &&& p.network == network
    &&& p.genesis_timestamp == GENESIS_TIMESTAMP
    &&& bytes::be_value(p.min_target@) == default_min_value()
    &&& if network == NetworkId::Regtest {
        &&& p.genesis_bits.0 == REGTEST_GENESIS_BITS
        &&& bytes::be_value(p.max_target@) == u256::u256_limit() - 1
        &&& p.no_retargeting
        &&& p.pow == PowAlgorithm::Blake3
    } else {
        &&& p.genesis_bits.0 == GENESIS_TARGET_BITS
        &&& bytes::be_value(p.max_target@) == default_max_value()
        &&& !p.no_retargeting
        &&& p.pow == PowAlgorithm::RandomX
    }
}

/// The network meant by a name in any mix of cases.
pub open spec fn network_called(name: Seq<u8>) -> Option<NetworkId> {
    let lower = ascii_lower(name);
    if lower == "mainnet".spec_bytes() {
        Some(NetworkId::Mainnet)
    } else if lower == "testnet".spec_bytes() {
        Some(NetworkId::Testnet)
    } else if lower == "devnet".spec_bytes() {
        Some(NetworkId::Devnet)
    } else if lower == "regtest".spec_bytes() {
        Some(NetworkId::Regtest)
    } else {
        None
    }
}

/// Text, as its bytes, with ASCII capitals made small.
pub open spec fn ascii_lower(s: Seq<u8>) -> Seq<u8> {
    Seq::new(
        s.len(),
        |i: int|
            if 65 <= s[i] <= 90 {
                (s[i] + 32) as u8
            } else {
                s[i]
            },
    )
}

fn lower_text(s: &[u8]) -> (r: Vec<u8>)
    ensures
        r@ == ascii_lower(s@),
{
    let mut r: Vec<u8> = Vec::new();
    let mut i: usize = 0;
    while i < s.len()
        invariant
            i <= s@.len(),
            r@ == ascii_lower(s@).subrange(0, i as int),
        decreases s@.len() - i,
    {
        let b = s[i];
        r.push(if b >= 65 && b <= 90 { b + 32 } else { b });
        i = i + 1;
        assert(r@ =~= ascii_lower(s@).subrange(0, i as int));
    }
    assert(r@ =~= ascii_lower(s@));
    r
}

impl ChainParams {
    /// The parameters of a real network, which differ in name only.
    fn public_network(network: NetworkId) -> (r: ChainParams)
        requires
            network != NetworkId::Regtest,
        ensures
            params_for(r, network),
    {
        ChainParams {
            network,
            genesis_bits: CompactTarget(GENESIS_TARGET_BITS),
            genesis_timestamp: GENESIS_TIMESTAMP,
            min_target: default_min_target(),
            max_target: default_max_target(),
            no_retargeting: false,
            pow: PowAlgorithm::RandomX,
        }
    }

    pub fn mainnet() -> (r: ChainParams)
        ensures
            params_for(r, NetworkId::Mainnet),
    {
        Self::public_network(NetworkId::Mainnet)
    }

    pub fn testnet() -> (r: ChainParams)
        ensures
            params_for(r, NetworkId::Testnet),
    {
        Self::public_network(NetworkId::Testnet)
    }

    pub fn devnet() -> (r: ChainParams)
        ensures
            params_for(r, NetworkId::Devnet),
    {
        Self::public_network(NetworkId::Devnet)
    }

    /// Local regression-test network: a target that almost any nonce
    /// satisfies, held fixed.
    pub fn regtest() -> (r: ChainParams)
        ensures
            params_for(r, NetworkId::Regtest),
    {
        ChainParams {
            network: NetworkId::Regtest,
            genesis_bits: CompactTarget(REGTEST_GENESIS_BITS),
            genesis_timestamp: GENESIS_TIMESTAMP,
            min_target: default_min_target(),
            max_target: U256::max_value().to_be_bytes(),
            no_retargeting: true,
            pow: PowAlgorithm::Blake3,
        }
    }

    /// The parameters of a network; an unknown one is taken for the devnet.
    pub fn for_network(network: NetworkId) -> (r: ChainParams)
        ensures
            params_for(
                r,
                if network == NetworkId::Unknown {
                    NetworkId::Devnet
                } else {
                    network
                },
            ),
    {
        match network {
            NetworkId::Mainnet => Self::mainnet(),
            NetworkId::Testnet => Self::testnet(),
            NetworkId::Regtest => Self::regtest(),
            NetworkId::Devnet => Self::devnet(),
            NetworkId::Unknown => Self::devnet(),
        }
    }

    /// Parse a network name.
    pub fn parse(name: &str) -> (r: Option<ChainParams>)
        ensures
            match r {
                Some(p) => network_called(name.spec_bytes()) matches Some(n) && params_for(p, n),
                None => network_called(name.spec_bytes()) is None,
            },
    {
        let lower = lower_text(name.as_bytes());
        if bytes::bytes_equal(&lower, "mainnet".as_bytes()) {
            Some(Self::mainnet())
        } else if bytes::bytes_equal(&lower, "testnet".as_bytes()) {
            Some(Self::testnet())
        } else if bytes::bytes_equal(&lower, "devnet".as_bytes()) {
            Some(Self::devnet())
        } else if bytes::bytes_equal(&lower, "regtest".as_bytes()) {
            Some(Self::regtest())
        } else {
            None
        }
    }
}

impl Default for ChainParams {
    fn default() -> (r: Self)
        ensures
            params_for(r, NetworkId::Devnet),
    {
        ChainParams::devnet()
    }
}

/// What the networks have in common and what sets the test network apart: its
/// target lets half of all hashes through and never changes, and its work is
/// proved by BLAKE3.
pub proof fn networks_differ_as_stated(p: ChainParams, n: NetworkId)
    requires
        params_for(p, n),
    ensures
        p.network == n,
        p.genesis_timestamp == 1_767_225_600,
        bytes::be_value(p.min_target@) == 65_535 * pow2(160),
        n == NetworkId::Regtest ==> p.genesis_bits.0 == 0x207fffff && p.no_retargeting && p.pow
            == PowAlgorithm::Blake3 && bytes::be_value(p.max_target@) + 1 == pow2(256),
        n != NetworkId::Regtest ==> p.genesis_bits.0 == 0x1d00ffff && !p.no_retargeting && p.pow
            == PowAlgorithm::RandomX && bytes::be_value(p.max_target@) == 4 * 0xfffff0 * pow2(200),
{
    u256::lemma_pow2_values();
    assert(4 * 0xfffff0 * pow2(200) == 0x3ffffc0 * pow2(200));
}

/// A network is meant by its name whatever the case of its letters, and by
/// nothing else.
pub proof fn networks_go_by_their_names(name: Seq<u8>, i: int)
    ensures
        ({
            let l = ascii_lower(name);
            &&& l.len() == name.len()
            &&& 0 <= i < name.len() && 65 <= name[i] <= 90 ==> l[i] == name[i] + 32
            &&& 0 <= i < name.len() && !(65 <= name[i] <= 90) ==> l[i] == name[i]
            &&& l == "mainnet".spec_bytes() ==> network_called(name) == Some(NetworkId::Mainnet)
            &&& network_called(name) == Some(NetworkId::Mainnet) ==> l == "mainnet".spec_bytes()
            &&& network_called(name) == Some(NetworkId::Testnet) ==> l == "testnet".spec_bytes()
            &&& network_called(name) == Some(NetworkId::Devnet) ==> l == "devnet".spec_bytes()
            &&& network_called(name) == Some(NetworkId::Regtest) ==> l == "regtest".spec_bytes()
            &&& network_called(name) is None <==> l != "mainnet".spec_bytes() && l
                != "testnet".spec_bytes() && l != "devnet".spec_bytes() && l
                != "regtest".spec_bytes()
            &&& network_called(name) != Some(NetworkId::Unknown)
        }),
{
}

} // verus!
