//! What a node does with what it hears.

pub mod base;
pub mod config;
pub mod dispatch;
pub mod event;
pub mod gossip;
pub mod manners;
pub mod mining;
pub mod passing;
pub mod query;
pub mod relay;
pub mod stream;
