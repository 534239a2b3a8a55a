//! Consensus rules: difficulty retarget, chain selection, cumulative work and
//! the genesis block.

pub mod chain;
pub mod complaints;
pub mod forks;
pub mod genesis;
pub mod headers;
pub mod memory;
pub mod miner;
pub mod params;
pub mod restore;
pub mod retarget;
pub mod rules;
pub mod soundness;
