//! Messages on the wire.

use chroma::block::BlockHeader;
use chroma::crypto::noise::{NodeId, NoiseKey};
use chroma::crypto::schnorr::{PublicKey32, SecretKey32, Signature64};
use chroma::hash;
use chroma::hash::Hash160;
use chroma::p2p::address::PeerAddress;
use chroma::p2p::net::{IpAddr, NetAddr};
use chroma::p2p::node::base::PROTOCOL_VERSION;
use chroma::p2p::sync::MAX_HEADERS_PER_RESPONSE;
use chroma::p2p::wire::{
    decode_frame, AccountMessage, AddrMessage, ChainInfoMessage, FrameDecode, GetAccountMessage,
    GetDataMessage, GetHeadersMessage, GetHistoryMessage, GetTransactionMessage, HeadersMessage,
    HistoryEntry, HistoryMessage, InvEntry, InvMessage, InvType, LookupStatus, Message, MessageType,
    PingMessage, RejectMessage, TransactionAtMessage, VersionMessage, HEADER_SIZE,
    MAX_ADDRS_PER_MESSAGE, MAX_HISTORY_ENTRIES, MAX_MESSAGE_SIZE,
};
use chroma::serialize::CanonicalEncode;
use chroma::tx::Transaction;
use chroma::types::{Address, Amount, BlockHeight, CompactTarget, Nonce};

#[test]
fn test_message_roundtrip() {
    let msg = Message::new(MessageType::Ping, vec![1, 2, 3, 4]);
    let encoded = msg.encode();
    let (decoded, consumed) = Message::decode(&encoded).unwrap();
    assert_eq!(consumed, encoded.len());
    assert_eq!(decoded.msg_type, MessageType::Ping);
    assert_eq!(decoded.payload, vec![1, 2, 3, 4]);
}

#[test]
fn test_message_rejects_bad_magic() {
    let mut data = Message::new(MessageType::Ping, vec![0]).encode();
    data[0] = 0xFF;
    assert!(Message::decode(&data).is_err());
}

#[test]
fn test_message_rejects_bad_checksum() {
    let mut data = Message::new(MessageType::Ping, vec![0]).encode();
    data[9] ^= 0xFF;
    assert!(Message::decode(&data).is_err());
}

#[test]
fn test_message_rejects_truncated() {
    let data = Message::new(MessageType::Ping, vec![0]).encode();
    assert!(Message::decode(&data[..5]).is_err());
}

#[test]
fn test_message_rejects_oversized() {
    let msg = Message::new(MessageType::Block, vec![0u8; MAX_MESSAGE_SIZE + 1]);
    let encoded = msg.encode();
    assert!(Message::decode(&encoded).is_err());
}

#[test]
fn test_version_roundtrip() {
    let v = VersionMessage {
        version: 1,
        services: 0,
        timestamp: 1700000000,
        height: 100,
        nonce: 42,
        listen_port: 8333,
    };
    let enc = v.encode();
    assert_eq!(enc.len(), VersionMessage::SERIALIZED_SIZE);
    let dec = VersionMessage::decode(&enc).unwrap();
    assert_eq!(dec.version, 1);
    assert_eq!(dec.height, 100);
    assert_eq!(dec.nonce, 42);
    assert_eq!(dec.listen_port, 8333);
}

/// A newer peer may append fields to its version message. Refusing those
/// would mean an older node could never complete a handshake with a newer
/// one, and the version negotiation right after this decode would never
/// get to run.
#[test]
fn test_version_accepts_a_longer_payload_from_a_newer_peer() {
    let version = VersionMessage {
        version: PROTOCOL_VERSION + 1,
        services: 1,
        timestamp: 1_700_000_000,
        height: 42,
        nonce: 7,
        listen_port: 8333,
    };
    let mut payload = version.encode();
    payload.extend_from_slice(b"a field from a later version");

    let decoded = VersionMessage::decode(&payload).expect("must stay readable");
    assert_eq!(
        decoded.encode(),
        version.encode(),
        "the fields we know must decode unchanged"
    );
}

#[test]
fn test_version_rejects_short() {
    assert!(VersionMessage::decode(&[0u8; 31]).is_err());
    // One byte short of the listen_port field.
    assert!(VersionMessage::decode(&[0u8; 33]).is_err());
}

// ------------------------------------------------------------------
// Stream framing
// ------------------------------------------------------------------

#[test]
fn test_decode_frame_complete() {
    let msg = Message::new(MessageType::Ping, vec![1, 2, 3, 4]);
    let encoded = msg.encode();
    match decode_frame(&encoded).unwrap() {
        FrameDecode::Complete { message, consumed } => {
            assert_eq!(consumed, encoded.len());
            assert_eq!(message.msg_type, MessageType::Ping);
            assert_eq!(message.payload, vec![1, 2, 3, 4]);
        }
        other => panic!("expected Complete, got {:?}", other),
    }
}

#[test]
fn test_decode_frame_incomplete_is_not_an_error() {
    let encoded = Message::new(MessageType::Block, vec![7u8; 4096]).encode();

    // Fewer bytes than the header: length not yet known.
    match decode_frame(&encoded[..HEADER_SIZE - 1]).unwrap() {
        FrameDecode::Incomplete { needed } => assert_eq!(needed, None),
        other => panic!("expected Incomplete, got {:?}", other),
    }

    // Header present, payload partial: total length is known.
    match decode_frame(&encoded[..encoded.len() - 1]).unwrap() {
        FrameDecode::Incomplete { needed } => assert_eq!(needed, Some(encoded.len())),
        other => panic!("expected Incomplete, got {:?}", other),
    }
}

#[test]
fn test_decode_frame_rejects_garbage() {
    let mut data = Message::new(MessageType::Ping, vec![0]).encode();
    data[0] = 0xFF;
    assert!(decode_frame(&data).is_err(), "bad magic must be an error");

    let mut data = Message::new(MessageType::Ping, vec![0]).encode();
    data[9] ^= 0xFF;
    assert!(decode_frame(&data).is_err(), "bad checksum must be an error");

    // An oversized declared length is an error even before the payload
    // arrives — otherwise a peer could pin unbounded memory.
    let mut data = Message::new(MessageType::Block, vec![]).encode();
    data[5..9].copy_from_slice(&((MAX_MESSAGE_SIZE + 1) as u32).to_le_bytes());
    assert!(decode_frame(&data).is_err(), "oversized length must be an error");
}

#[test]
fn test_decode_frame_stream_of_messages() {
    // Two frames back to back, delivered one byte at a time, must decode
    // in order with no loss.
    let m1 = Message::new(MessageType::Ping, PingMessage { nonce: 1 }.encode());
    let m2 = Message::new(MessageType::Block, vec![9u8; 20_000]);
    let mut wire = m1.encode();
    wire.extend_from_slice(&m2.encode());

    let mut acc: Vec<u8> = Vec::new();
    let mut decoded: Vec<Message> = Vec::new();
    for byte in &wire {
        acc.push(*byte);
        loop {
            match decode_frame(&acc).unwrap() {
                FrameDecode::Complete { message, consumed } => {
                    acc.drain(..consumed);
                    decoded.push(message);
                }
                FrameDecode::Incomplete { .. } => break,
            }
        }
    }

    assert!(acc.is_empty(), "no bytes should be left over");
    assert_eq!(decoded.len(), 2);
    assert_eq!(decoded[0].msg_type, MessageType::Ping);
    assert_eq!(decoded[1].msg_type, MessageType::Block);
    assert_eq!(decoded[1].payload.len(), 20_000);
}

#[test]
fn test_decode_frame_max_size_payload() {
    // A 1 MiB block (the protocol maximum) must survive framing.
    let payload = vec![0xABu8; chroma::constants::MAX_BLOCK_SIZE];
    let encoded = Message::new(MessageType::Block, payload.clone()).encode();
    match decode_frame(&encoded).unwrap() {
        FrameDecode::Complete { message, consumed } => {
            assert_eq!(consumed, encoded.len());
            assert_eq!(message.payload.len(), payload.len());
        }
        other => panic!("expected Complete, got {:?}", other),
    }
}

fn sample_header(height: u32) -> BlockHeader {
    BlockHeader {
        version: 1,
        previous_hash: hash::Hash::blake3(&height.to_le_bytes()),
        state_root: hash::Hash::blake3(b"state"),
        tx_merkle_root: hash::Hash::blake3(b"txs"),
        timestamp: 1_700_000_000 + height as u64 * 10,
        bits: CompactTarget::difficulty_1(),
        height: BlockHeight(height),
        nonce: height as u64,
    }
}

#[test]
fn test_headers_roundtrip() {
    let headers: Vec<_> = (0..5).map(sample_header).collect();
    let msg = HeadersMessage {
        headers: headers.clone(),
    };
    let dec = HeadersMessage::decode(&msg.encode()).unwrap();
    assert_eq!(dec.headers, headers);
}

#[test]
fn test_headers_empty() {
    let dec = HeadersMessage::decode(&HeadersMessage { headers: vec![] }.encode()).unwrap();
    assert!(dec.headers.is_empty());
}

#[test]
fn test_headers_rejects_inflated_count() {
    // A peer claiming more headers than the payload can hold must be
    // rejected before anything is allocated for the claim.
    let mut data = chroma::serialize::encode_leb128(100_000);
    data.extend_from_slice(&sample_header(1).encode());
    assert!(HeadersMessage::decode(&data).is_err());
}

#[test]
fn test_headers_rejects_trailing_bytes() {
    let mut data = HeadersMessage {
        headers: vec![sample_header(1)],
    }
    .encode();
    data.push(0xFF);
    assert!(HeadersMessage::decode(&data).is_err());
}

#[test]
fn test_headers_survives_full_frame() {
    // A maximum-size headers response must fit inside one message.
    let headers: Vec<_> = (0..MAX_HEADERS_PER_RESPONSE as u32)
        .map(sample_header)
        .collect();
    let payload = HeadersMessage {
        headers: headers.clone(),
    }
    .encode();
    assert!(payload.len() < MAX_MESSAGE_SIZE);

    let framed = Message::new(MessageType::Headers, payload).encode();
    match decode_frame(&framed).unwrap() {
        FrameDecode::Complete { message, .. } => {
            assert_eq!(HeadersMessage::decode(&message.payload).unwrap().headers, headers);
        }
        other => panic!("expected Complete, got {:?}", other),
    }
}

#[test]
fn test_ping_roundtrip() {
    let p = PingMessage { nonce: 999 };
    let enc = p.encode();
    let dec = PingMessage::decode(&enc).unwrap();
    assert_eq!(dec.nonce, 999);
}

#[test]
fn test_ping_rejects_short() {
    assert!(PingMessage::decode(&[0u8; 7]).is_err());
}

#[test]
fn test_getheaders_roundtrip() {
    let gh = GetHeadersMessage {
        start_hash: hash::Hash::blake3(b"start"),
        stop_hash: hash::Hash::blake3(b"stop"),
    };
    let enc = gh.encode();
    let dec = GetHeadersMessage::decode(&enc).unwrap();
    assert_eq!(dec.start_hash, gh.start_hash);
    assert_eq!(dec.stop_hash, gh.stop_hash);
}

#[test]
fn test_inv_roundtrip() {
    let inv = InvMessage {
        inventory: vec![
            InvEntry {
                inv_type: InvType::Block,
                hash: hash::Hash::blake3(b"block1"),
            },
            InvEntry {
                inv_type: InvType::Tx,
                hash: hash::Hash::blake3(b"tx1"),
            },
        ],
    };
    let enc = inv.encode();
    let dec = InvMessage::decode(&enc).unwrap();
    assert_eq!(dec.inventory.len(), 2);
    assert_eq!(dec.inventory[0].inv_type, InvType::Block);
    assert_eq!(dec.inventory[1].inv_type, InvType::Tx);
}

#[test]
fn test_inv_empty() {
    let inv = InvMessage {
        inventory: vec![],
    };
    let enc = inv.encode();
    let dec = InvMessage::decode(&enc).unwrap();
    assert!(dec.inventory.is_empty());
}

#[test]
fn test_getdata_roundtrip() {
    let gd = GetDataMessage {
        inventory: vec![InvEntry {
            inv_type: InvType::Block,
            hash: hash::Hash::blake3(b"test"),
        }],
    };
    let enc = gd.encode();
    let dec = GetDataMessage::decode(&enc).unwrap();
    assert_eq!(dec.inventory.len(), 1);
}

/// A peer address with distinct, arbitrary keys.
fn test_peer(socket: NetAddr) -> PeerAddress {
    PeerAddress::new(
        NodeId::generate().unwrap(),
        NoiseKey::from_bytes(NodeId::generate().unwrap().0),
        socket,
    )
}

#[test]
fn test_addr_roundtrip() {
    let addrs: Vec<PeerAddress> = vec![
        NetAddr::new(IpAddr::V4([127, 0, 0, 1]), 8333),
        NetAddr::new(IpAddr::V4([192, 0, 2, 42]), 19000),
        NetAddr::new(IpAddr::V6([0x20, 0x01, 0x0d, 0xb8, 0, 0, 0, 0, 0, 0, 0, 0, 0, 0, 0, 1]), 8333),
    ]
    .into_iter()
    .map(test_peer)
    .collect();
    let msg = AddrMessage {
        addrs: addrs.clone(),
    };
    let decoded = AddrMessage::decode(&msg.encode()).unwrap();
    assert_eq!(decoded.addrs, addrs, "v4 and v6 must both survive");
}

#[test]
fn test_addr_empty() {
    let msg = AddrMessage { addrs: vec![] };
    assert_eq!(AddrMessage::decode(&msg.encode()).unwrap().addrs.len(), 0);
}

#[test]
fn test_addr_rejects_oversized_count() {
    // A declared count beyond the cap must be refused before anything is
    // allocated for it.
    let mut payload = chroma::serialize::encode_leb128((MAX_ADDRS_PER_MESSAGE + 1) as u64);
    payload.extend_from_slice(&[0u8; 64]);
    payload.push(4);
    payload.extend_from_slice(&[127, 0, 0, 1]);
    payload.extend_from_slice(&8333u16.to_le_bytes());
    assert!(AddrMessage::decode(&payload).is_err());
}

#[test]
fn test_addr_rejects_truncated_and_trailing() {
    let msg = AddrMessage {
        addrs: vec![test_peer(NetAddr::new(IpAddr::V4([127, 0, 0, 1]), 8333))],
    };
    let encoded = msg.encode();
    assert!(AddrMessage::decode(&encoded[..encoded.len() - 1]).is_err());

    let mut extra = encoded.clone();
    extra.push(0);
    assert!(AddrMessage::decode(&extra).is_err());
}

#[test]
fn test_addr_rejects_unknown_family() {
    let mut payload = chroma::serialize::encode_leb128(1);
    payload.extend_from_slice(&[0u8; 64]);
    payload.push(9); // neither 4 nor 6
    payload.extend_from_slice(&[0; 4]);
    payload.extend_from_slice(&8333u16.to_le_bytes());
    assert!(AddrMessage::decode(&payload).is_err());
}

#[test]
fn test_addr_encode_caps_the_list() {
    let addrs: Vec<PeerAddress> = (0..(MAX_ADDRS_PER_MESSAGE + 50))
        .map(|i| {
            test_peer(NetAddr::new(
                IpAddr::V4([10, 0, (i / 256) as u8, (i % 256) as u8]),
                8333,
            ))
        })
        .collect();
    let decoded = AddrMessage::decode(&AddrMessage { addrs }.encode()).unwrap();
    assert_eq!(decoded.addrs.len(), MAX_ADDRS_PER_MESSAGE);
}

#[test]
fn test_reject_roundtrip() {
    let r = RejectMessage {
        message: "tx".to_string(),
        code: 0x01,
        reason: "bad sig".to_string(),
    };
    let enc = r.encode();
    let dec = RejectMessage::decode(&enc).unwrap();
    assert_eq!(dec.message, "tx");
    assert_eq!(dec.code, 0x01);
    assert_eq!(dec.reason, "bad sig");
}

#[test]
fn test_reject_rejects_short() {
    assert!(RejectMessage::decode(&[0u8; 2]).is_err());
}

#[test]
fn test_message_type_roundtrips() {
    for i in 0x01..=0x16 {
        let mt = MessageType::from_u8(i).unwrap();
        assert_eq!(MessageType::from_u8(mt.code()).unwrap(), mt);
    }
    assert!(MessageType::from_u8(0x00).is_err());
    // The first code past the ones defined. Kept as an explicit bound so
    // adding a type without extending the loop above fails here.
    assert!(MessageType::from_u8(0x17).is_err());
}

#[test]
fn test_chain_info_roundtrip() {
    let info = ChainInfoMessage {
        height: 152,
        tip: hash::Hash::blake3(b"tip"),
        bits: 0x1f100000,
        supply: 152_000_000,
    };
    assert_eq!(ChainInfoMessage::decode(&info.encode()).unwrap(), info);
    assert!(ChainInfoMessage::decode(&[0u8; 4]).is_err());
    let mut long = info.encode();
    long.push(0);
    assert!(ChainInfoMessage::decode(&long).is_err());
}

#[test]
fn test_account_roundtrip() {

    let account = AccountMessage {
        address: Address::from_hash160(Hash160([7u8; 20])),
        exists: true,
        balance: 21_000_000,
        nonce: 3,
    };
    assert_eq!(AccountMessage::decode(&account.encode()).unwrap(), account);

    let absent = AccountMessage {
        exists: false,
        balance: 0,
        nonce: 0,
        ..account
    };
    assert_eq!(AccountMessage::decode(&absent.encode()).unwrap(), absent);

    // The flag is a boolean on the wire, so anything else is a peer
    // sending something we did not agree to.
    let mut bad = account.encode();
    bad[20] = 2;
    assert!(AccountMessage::decode(&bad).is_err());

    assert!(AccountMessage::decode(&[0u8; 10]).is_err());
}

#[test]
fn test_get_account_roundtrip() {

    let request = GetAccountMessage {
        address: Address::from_hash160(Hash160([9u8; 20])),
    };
    assert_eq!(GetAccountMessage::decode(&request.encode()).unwrap(), request);
    assert!(GetAccountMessage::decode(&[0u8; 19]).is_err());
    assert!(GetAccountMessage::decode(&[0u8; 21]).is_err());
}

#[test]
fn test_inv_type_roundtrips() {
    assert_eq!(InvType::from_u8(0x01).unwrap(), InvType::Block);
    assert_eq!(InvType::from_u8(0x02).unwrap(), InvType::Tx);
    assert!(InvType::from_u8(0x00).is_err());
    assert!(InvType::from_u8(0x03).is_err());
}

#[test]
fn test_multiple_messages_concatenated() {
    let m1 = Message::new(MessageType::Ping, PingMessage { nonce: 1 }.encode());
    let m2 = Message::new(MessageType::Pong, PingMessage { nonce: 2 }.encode());
    let mut buf = m1.encode();
    buf.extend_from_slice(&m2.encode());

    let (msg1, pos1) = Message::decode(&buf).unwrap();
    assert_eq!(msg1.msg_type, MessageType::Ping);
    let (msg2, pos2) = Message::decode(&buf[pos1..]).unwrap();
    assert_eq!(msg2.msg_type, MessageType::Pong);
    assert_eq!(pos1 + pos2, buf.len());
}

#[test]
fn test_get_transaction_roundtrip() {
    let msg = GetTransactionMessage {
        tx_hash: hash::Hash::blake3(b"a transaction"),
    };
    assert_eq!(
        GetTransactionMessage::decode(&msg.encode()).unwrap(),
        msg
    );
    assert!(GetTransactionMessage::decode(&[0u8; 31]).is_err());
}

#[test]
fn test_transaction_at_roundtrip() {
    // A real public key: decode validates it, and an arbitrary 32 bytes
    // is almost never a point on the curve.
    let secret = SecretKey32::from_bytes([0x33; 32]).unwrap();
    let pubkey = PublicKey32::from_secret(&secret).unwrap();
    let tx = Transaction {
        sender_pubkey: pubkey,
        recipient: Address::from_hash160(Hash160(
            [4u8; 20],
        )),
        amount: Amount(1234),
        nonce: Nonce(7),
        signature: Signature64([5u8; 64]),
    };
    let msg = TransactionAtMessage {
        status: LookupStatus::Found,
        tx_hash: hash::Hash::blake3(b"tx"),
        block_hash: hash::Hash::blake3(b"block"),
        height: 918,
        position: 3,
        on_active_chain: true,
        transaction: Some(tx),
    };
    assert_eq!(TransactionAtMessage::decode(&msg.encode()).unwrap(), msg);
}

#[test]
fn a_missing_transaction_says_which_kind_of_missing() {
    // "not found" and "this node keeps no index" have to stay apart on
    // the wire: told only the first, a client concludes a transaction
    // never happened when in fact nobody looked.
    for status in [LookupStatus::NotFound, LookupStatus::NotIndexed] {
        let msg = TransactionAtMessage::missing(status);
        let decoded = TransactionAtMessage::decode(&msg.encode()).unwrap();
        assert_eq!(decoded.status, status);
        assert!(decoded.transaction.is_none());
    }
}

#[test]
fn test_get_history_roundtrip() {
    let msg = GetHistoryMessage {
        address: Address::from_hash160(Hash160(
            [9u8; 20],
        )),
        limit: 50,
    };
    assert_eq!(GetHistoryMessage::decode(&msg.encode()).unwrap(), msg);
    assert!(GetHistoryMessage::decode(&[0u8; 23]).is_err());
}

#[test]
fn test_history_roundtrip() {
    let entries: Vec<HistoryEntry> = (0..4u32)
        .map(|i| HistoryEntry {
            tx_hash: hash::Hash::blake3(&i.to_le_bytes()),
            block_hash: hash::Hash::blake3(b"block"),
            height: 100 + i,
            position: i,
        })
        .collect();
    let msg = HistoryMessage {
        status: LookupStatus::Found,
        total: 900,
        entries,
    };
    let decoded = HistoryMessage::decode(&msg.encode()).unwrap();
    assert_eq!(decoded, msg);
    assert_eq!(decoded.total, 900, "how many the node holds, not how many it sent");

    let none = HistoryMessage::not_indexed();
    assert_eq!(HistoryMessage::decode(&none.encode()).unwrap(), none);
}

#[test]
fn history_refuses_a_count_it_would_never_send() {
    // A peer claiming more entries than the cap allows would have us
    // allocate for them before reading a single one.
    let mut payload = vec![LookupStatus::Found.code()];
    payload.extend_from_slice(&0u32.to_le_bytes());
    payload.extend_from_slice(&(MAX_HISTORY_ENTRIES + 1).to_le_bytes());
    assert!(HistoryMessage::decode(&payload).is_err());
}
