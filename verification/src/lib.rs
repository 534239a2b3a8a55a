//! Chroma: consensus rules, wire protocol and node logic of a small
//! account-based chain.

pub mod amount;
pub mod block;
pub mod bytes;
pub mod client;
pub mod consensus;
pub mod constants;
pub mod crypto;
pub mod error;
pub mod hash;
pub mod keymap;
pub mod p2p;
pub mod sameness;
pub mod serialize;
pub mod state;
pub mod text;
pub mod tx;
pub mod types;
pub mod u256;
