//! The peer-to-peer network: messages, peers, pools, and what a node does with
//! them.

pub mod address;
pub mod clock;
pub mod conduct;
pub mod discovery;
pub mod mempool;
pub mod net;
pub mod node;
pub mod orphan;
pub mod peer;
pub mod sync;
pub mod wire;
