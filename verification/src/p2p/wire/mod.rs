//! Messages on the wire.

pub mod addr;
pub mod complaints;
pub mod control;
pub mod frame;
pub mod headers;
pub mod inventory;
pub mod layout;
pub mod lookup;
pub mod query;
pub mod reject;

pub use crate::p2p::wire::addr::{AddrMessage, MAX_ADDRS_PER_MESSAGE};
pub use crate::p2p::wire::control::{PingMessage, VersionMessage};
pub use crate::p2p::wire::frame::{
    decode_frame, FrameDecode, Message, MessageType, HEADER_SIZE, MAGIC, MAX_MESSAGE_SIZE,
};
pub use crate::p2p::wire::headers::HeadersMessage;
pub use crate::p2p::wire::inventory::{
    GetDataMessage, GetHeadersMessage, InvEntry, InvMessage, InvType,
};
pub use crate::p2p::wire::lookup::{
    HistoryEntry, HistoryMessage, LookupStatus, TransactionAtMessage, MAX_HISTORY_ENTRIES,
};
pub use crate::p2p::wire::query::{
    AccountMessage, ChainInfoMessage, GetAccountMessage, GetHistoryMessage, GetTransactionMessage,
};
pub use crate::p2p::wire::reject::RejectMessage;
