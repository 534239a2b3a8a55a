//! How a node is set up.

use vstd::prelude::*;
use vstd::string::*;
use crate::block;
use crate::consensus::genesis;
use crate::consensus::params;
use crate::consensus::params::ChainParams;
use crate::crypto::hash as digest;
use crate::crypto::randomx;
use crate::crypto::randomx::PowAlgorithm;
use crate::crypto::schnorr;
use crate::hash;
use crate::p2p::net::NetAddr;
use crate::p2p::node::base;
use crate::types::{Address, NetworkId};

verus! {

/// How a node is set up.
#[derive(Debug)]
pub struct NodeConfig {
    pub listen_addr: NetAddr,
    pub connect_addrs: Vec<NetAddr>,
    pub genesis_hash: hash::Hash,
    /// Directory that the chain is stored in.
    pub data_dir: String,
    /// Run the mining loop.
    pub mining_enabled: bool,
    /// Consensus parameters for the network this node is on.
    pub params: ChainParams,
    /// Address the block reward is paid to.
    ///
    /// Two nodes mining to the same address with the same empty block and the
    /// same timestamp produce the same block, so they never actually compete.
    pub miner_address: Address,
}

impl NodeConfig {
    /// A node on the development network that mines to a fresh address.
    pub fn new(listen_addr: NetAddr, genesis_hash: hash::Hash) -> (r: NodeConfig)
        ensures
            r.listen_addr == listen_addr,
            r.connect_addrs@.len() == 0,
            r.genesis_hash == genesis_hash,
            r.data_dir@ == "chroma_data"@,
            r.mining_enabled,
            params::params_for(r.params, NetworkId::Devnet),
            exists|secret: [u8; 32]| #[trigger]
                schnorr::valid_secret(secret@) && r.miner_address.0.0 == digest::spec_hash160(
                    schnorr::spec_xonly(secret)@,
                ),
    {
        NodeConfig {
            listen_addr,
            connect_addrs: Vec::new(),
            genesis_hash,
            data_dir: "chroma_data".to_string(),
            mining_enabled: true,
            params: ChainParams::devnet(),
            miner_address: base::random_address(),
        }
    }

    pub fn with_miner_address(self, address: Address) -> (r: NodeConfig)
        ensures
            r == (NodeConfig { miner_address: address, ..self }),
    {
        let mut r = self;
        r.miner_address = address;
        r
    }

    /// Select the network. Also fixes up the expected genesis hash, since each
    /// network has its own genesis.
    pub fn with_params(self, params: ChainParams) -> (r: NodeConfig)
        ensures
            r == (NodeConfig {
                params,
                genesis_hash: block::header_hash(genesis::genesis_header(params)),
                ..self
            }),
    {
        let mut r = self;
        r.genesis_hash = genesis::build_genesis_block_with(&params).hash();
        r.params = params;
        r
    }

    pub fn with_data_dir(self, data_dir: String) -> (r: NodeConfig)
        ensures
            r == (NodeConfig { data_dir, ..self }),
    {
        let mut r = self;
        r.data_dir = data_dir;
        r
    }

    pub fn with_connect_addrs(self, addrs: Vec<NetAddr>) -> (r: NodeConfig)
        ensures
            r == (NodeConfig { connect_addrs: addrs, ..self }),
    {
        let mut r = self;
        r.connect_addrs = addrs;
        r
    }

    pub fn with_mining(self, enabled: bool) -> (r: NodeConfig)
        ensures
            r == (NodeConfig { mining_enabled: enabled, ..self }),
    {
        let mut r = self;
        r.mining_enabled = enabled;
        r
    }
}

/// Why a node is not to be started.
#[derive(Clone, Copy, PartialEq, Eq, Structural, Debug)]
pub enum StartFault {
    /// The network's proof of work cannot be computed here: the node would
    /// run, connect, and reject every block it is sent.
    NoProofOfWork,
    /// Without an address the rewards would go to one whose key nobody has.
    NoMinerAddress,
}

/// Whether a node is to be started. This build has no RandomX.
pub fn check_start(params: &ChainParams, mining: bool, has_address: bool) -> (r: Result<
    (),
    StartFault,
>)
    ensures
        r == if params.pow is RandomX {
            Err::<(), StartFault>(StartFault::NoProofOfWork)
        } else if mining && !has_address {
            Err(StartFault::NoMinerAddress)
        } else {
            Ok(())
        },
{
    let ready = match params.pow {
        PowAlgorithm::RandomX => randomx::randomx_available(),
        PowAlgorithm::Blake3 => true,
    };
    if !ready {
        Err(StartFault::NoProofOfWork)
    } else if mining && !has_address {
        Err(StartFault::NoMinerAddress)
    } else {
        Ok(())
    }
}

} // verus!
