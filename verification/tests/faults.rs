//! What decoders say of bytes and text that do not read.

use chroma::block::{Block, BlockHeader};
use chroma::consensus::chain::BlockSource;
use chroma::consensus::genesis::build_genesis_block_with;
use chroma::consensus::memory::MemoryBlocks;
use chroma::consensus::params::ChainParams;
use chroma::error::CoreError;
use chroma::hash;
use chroma::hash::Hash160;
use chroma::p2p::address::PeerAddress;
use chroma::p2p::wire::{
    AccountMessage, AddrMessage, ChainInfoMessage, GetAccountMessage, GetDataMessage,
    GetHeadersMessage, GetHistoryMessage, GetTransactionMessage, HeadersMessage, HistoryMessage,
    InvMessage, LookupStatus, Message, MessageType, PingMessage, RejectMessage,
    TransactionAtMessage, VersionMessage, MAX_MESSAGE_SIZE,
};
use chroma::serialize::{
    decode_bytes_leb128, decode_leb128, encode_leb128, CanonicalDecode, CanonicalEncode,
};
use chroma::tx::Transaction;
use chroma::types::{Address, Amount, NetworkId};

/// What follows "serialization error: ".
fn said<T>(r: Result<T, CoreError>) -> String {
    match r {
        Ok(_) => panic!("it reads"),
        Err(CoreError::Serialization(s)) => s,
        Err(e) => e.message(),
    }
}

#[test]
fn numbers_and_bytes_say_what_is_wrong() {
    assert_eq!(said(u8::decode(&[1, 2])), "u8: expected 1 byte");
    assert_eq!(said(u8::decode_partial(&[])), "u8: no data");
    assert_eq!(said(bool::decode(&[])), "bool: expected 1 byte");
    assert_eq!(said(bool::decode(&[7])), "bool: invalid value 7");
    assert_eq!(said(bool::decode_partial(&[])), "bool: no data");
    assert_eq!(said(u16::decode(&[1])), "u16 decoding: not enough bytes");
    assert_eq!(said(u16::decode(&[1, 2, 3])), "u16 decoding: trailing bytes");
    assert_eq!(said(u32::decode_partial(&[1])), "u32 decoding: not enough bytes");
    assert_eq!(said(Amount::decode(&[1])), "u64 decoding: not enough bytes");
    assert_eq!(said(u128::decode(&[0; 17])), "u128 decoding: trailing bytes");
    assert_eq!(said(decode_leb128(&[0x80], 0)), "LEB128 truncated");
    assert_eq!(said(decode_leb128(&[0x80; 11], 0)), "LEB128 value too large");
    assert_eq!(said(decode_bytes_leb128(&[3, 1], 0)), "bytes: declared length exceeds data");
    let huge = encode_leb128(u64::MAX);
    assert_eq!(said(decode_bytes_leb128(&huge, 0)), "bytes: length overflow");
    assert_eq!(said(Vec::<u8>::decode(&[1, 5, 6])), "bytes: trailing data");
    let fault = String::from_utf8(vec![b'a', 0xff]).unwrap_err().to_string();
    assert_eq!(said(String::decode(&[2, b'a', 0xff])), format!("invalid UTF-8: {}", fault));
    assert_eq!(said(NetworkId::decode(&[9])), "invalid network ID: unknown network ID: 9");
    assert_eq!(said(Address::decode(&[9])), "invalid format: address must be 20 bytes");
}

#[test]
fn blocks_say_what_is_wrong() {
    let block = build_genesis_block_with(&ChainParams::regtest());
    let header = block.header.encode();
    assert_eq!(said(BlockHeader::decode(&[0; 3])), "block header: expected 124 bytes, got 3");
    assert_eq!(said(Block::decode_block(&[0; 5])), "block header: expected 124 bytes, got 5");
    assert_eq!(said(Block::decode_block(&header)), "LEB128 truncated");

    let mut counted = header.clone();
    counted.push(5);
    assert_eq!(
        said(Block::decode_block(&counted)),
        "block: tx_count 5 exceeds maximum possible 1"
    );
    counted[124] = 1;
    assert_eq!(said(Block::decode_block(&counted)), "transaction: expected 132 bytes, got 0");
    counted.extend(vec![0xffu8; 132]);
    assert_eq!(said(Block::decode_block(&counted)), "invalid public key: InvalidPublicKey");
    let mut long = block.encode_block();
    long.extend([1, 2, 3]);
    assert_eq!(said(Block::decode_block(&long)), "block: 3 trailing bytes after transactions");
    assert_eq!(said(Transaction::decode(&[0; 133])), "transaction: expected 132 bytes, got 133");
}

#[test]
fn frames_say_what_is_wrong() {
    assert_eq!(said(MessageType::from_u8(0xAB)), "unknown message type: 0xAB");
    assert_eq!(said(MessageType::from_u8(0)), "unknown message type: 0x00");
    let frame = Message::new(MessageType::Ping, vec![1, 2, 3]).encode();
    assert_eq!(said(Message::decode(&frame[..5])), "message: header too short");
    assert_eq!(said(Message::decode(&frame[..14])), "message: payload truncated");
    let mut bad = frame.clone();
    bad[0] ^= 1;
    assert_eq!(said(Message::decode(&bad)), "message: bad magic");
    let mut bad = frame.clone();
    bad[4] = 0x7f;
    assert_eq!(said(Message::decode(&bad)), "unknown message type: 0x7F");
    let mut bad = frame.clone();
    bad[15] ^= 1;
    assert_eq!(said(Message::decode(&bad)), "message: checksum mismatch");
    let mut bad = frame.clone();
    bad[5..9].copy_from_slice(&(MAX_MESSAGE_SIZE as u32 + 1).to_le_bytes());
    assert_eq!(
        said(Message::decode(&bad)),
        format!("message: payload too large: {}", MAX_MESSAGE_SIZE + 1)
    );
}

#[test]
fn messages_of_a_fixed_size_say_what_is_wrong() {
    assert_eq!(said(VersionMessage::decode(&[0; 33])), "version: too short");
    assert_eq!(said(PingMessage::decode(&[0; 7])), "ping: too short");
    assert_eq!(said(PingMessage::decode(&[0; 10])), "ping: 2 trailing bytes");
    assert_eq!(said(GetHeadersMessage::decode(&[0; 63])), "getheaders: too short");
    assert_eq!(said(ChainInfoMessage::decode(&[0; 1])), "chaininfo: expected 48 bytes, got 1");
    assert_eq!(said(GetAccountMessage::decode(&[0; 1])), "getaccount: expected 20 bytes, got 1");
    assert_eq!(said(AccountMessage::decode(&[0; 1])), "account: expected 37 bytes, got 1");
    assert_eq!(
        said(AccountMessage::decode(&[2; 37])),
        "account: exists flag is not a boolean"
    );
    assert_eq!(
        said(GetTransactionMessage::decode(&[0; 1])),
        "gettransaction: expected 32 bytes, got 1"
    );
    assert_eq!(said(GetHistoryMessage::decode(&[0; 1])), "gethistory: expected 24 bytes, got 1");
}

#[test]
fn lists_say_what_is_wrong() {
    assert_eq!(said(InvMessage::decode(&[1])), "inv: too short");
    assert_eq!(said(InvMessage::decode(&[1, 0, 0, 0])), "inv: truncated");
    assert_eq!(said(GetDataMessage::decode(&[1, 0, 0, 0, 9])), "getdata: truncated");
    let mut one = vec![1, 0, 0, 0];
    one.extend([9u8; 33]);
    assert_eq!(said(InvMessage::decode(&one)), "unknown inv type: 9");
    assert_eq!(said(InvMessage::decode(&[0, 0, 0, 0, 5])), "inv: 1 trailing bytes");

    assert_eq!(
        said(HeadersMessage::decode(&[3, 0])),
        "headers: declared 3 headers but only 0 fit in the payload"
    );
    assert_eq!(said(HeadersMessage::decode(&[0, 1, 2])), "headers: 2 trailing bytes");

    assert_eq!(
        said(AddrMessage::decode(&encode_leb128(1001))),
        "addr: 1001 entries exceeds the 1000 limit"
    );
    let mut entry = vec![1u8];
    assert_eq!(said(AddrMessage::decode(&entry)), "addr: truncated node id");
    entry.extend([0u8; 32]);
    assert_eq!(said(AddrMessage::decode(&entry)), "addr: truncated noise key");
    entry.extend([0u8; 32]);
    assert_eq!(said(AddrMessage::decode(&entry)), "addr: truncated");
    entry.push(4);
    assert_eq!(said(AddrMessage::decode(&entry)), "addr: truncated v4");
    entry[65] = 6;
    assert_eq!(said(AddrMessage::decode(&entry)), "addr: truncated v6");
    entry[65] = 5;
    assert_eq!(said(AddrMessage::decode(&entry)), "addr: unknown address family 5");
    entry[65] = 4;
    entry.extend([127, 0, 0, 1, 1]);
    assert_eq!(said(AddrMessage::decode(&entry)), "addr: truncated port");
    entry.push(1);
    assert!(AddrMessage::decode(&entry).is_ok());
    entry.extend([1, 2]);
    assert_eq!(said(AddrMessage::decode(&entry)), "addr: 2 trailing bytes");
}

#[test]
fn answers_say_what_is_wrong() {
    assert_eq!(said(LookupStatus::from_u8(3)), "lookup status: unknown value 3");
    assert_eq!(said(TransactionAtMessage::decode(&[])), "transactionat: empty payload");
    assert_eq!(said(TransactionAtMessage::decode(&[7])), "lookup status: unknown value 7");
    assert_eq!(said(TransactionAtMessage::decode(&[1, 1])), "transactionat: 1 trailing bytes");
    assert_eq!(
        said(TransactionAtMessage::decode(&[0, 1])),
        "transactionat: expected 206 bytes, got 2"
    );
    assert_eq!(said(HistoryMessage::decode(&[])), "history: empty payload");
    assert_eq!(said(HistoryMessage::decode(&[2, 0])), "history: 1 trailing bytes");
    assert_eq!(said(HistoryMessage::decode(&[0; 4])), "history: truncated header");
    let mut many = vec![0u8; 9];
    many[5..9].copy_from_slice(&1001u32.to_le_bytes());
    assert_eq!(
        said(HistoryMessage::decode(&many)),
        "history: 1001 entries, more than the 1000 allowed"
    );
    many[5..9].copy_from_slice(&2u32.to_le_bytes());
    assert_eq!(
        said(HistoryMessage::decode(&many)),
        "history: expected 153 bytes for 2 entries, got 9"
    );
    assert_eq!(said(RejectMessage::decode(&[0, 0])), "reject: too short");
    assert_eq!(said(RejectMessage::decode(&[5, 0, 0])), "reject: message truncated");
    assert_eq!(said(RejectMessage::decode(&[1, b'a', 0])), "reject: reason length missing");
    assert_eq!(said(RejectMessage::decode(&[0, 0, 2])), "reject: reason truncated");
    assert_eq!(said(RejectMessage::decode(&[0, 0, 0, 1])), "reject: 1 trailing bytes");
}

#[test]
fn hexadecimal_text_says_what_is_wrong() {
    for text in ["abc", "zz", "0g", "1'", "a\n", "\u{e9}", "1234"] {
        let theirs = match hex::decode(text) {
            Ok(_) => hex::FromHexError::InvalidStringLength.to_string(),
            Err(e) => e.to_string(),
        };
        assert_eq!(hash::Hash::from_hex(text).unwrap_err().message(), theirs);
        assert_eq!(Hash160::from_hex(text).unwrap_err().message(), theirs);
    }
    let shape = "here: \"1.2.3.4\"";
    assert_eq!(
        PeerAddress::parse(shape).unwrap_err().message(shape),
        format!("expected <node-id>.<noise-key>@<host:port>, got {:?}", shape)
    );
    let id = "zz.00@127.0.0.1:1";
    assert_eq!(
        PeerAddress::parse(id).unwrap_err().message(id),
        "bad node id: Invalid character 'z' at position 0"
    );
    let key = format!("{}.0@127.0.0.1:1", "00".repeat(32));
    assert_eq!(
        PeerAddress::parse(&key).unwrap_err().message(&key),
        "bad noise key: Odd number of digits"
    );
}

#[test]
fn memory_gives_back_the_blocks_put_into_it() {
    let a = build_genesis_block_with(&ChainParams::regtest());
    let b = build_genesis_block_with(&ChainParams::devnet());
    let mut memory = MemoryBlocks::new();
    assert!(memory.get_block(&a.hash()).is_none());
    memory.put(&a);
    assert_eq!(memory.get_block(&a.hash()).unwrap().hash(), a.hash());
    assert!(memory.get_block(&b.hash()).is_none());
    memory.put(&b);
    memory.put(&b);
    assert_eq!(memory.get_block(&a.hash()).unwrap().encode_block(), a.encode_block());
    assert_eq!(memory.get_block(&b.hash()).unwrap().encode_block(), b.encode_block());
}
