//! Text that people type, and what a client makes of a node.

use chroma::amount::{format_chr, parse_chr, AmountFault};
use chroma::client::{
    address_to_bech32, bech32_to_address, check_passphrase, client_version, handshake_step,
    next_sealed, parse_hash, parse_key, refusal, HandshakeStep, PassphraseFault,
};
use chroma::error::CoreError;
use chroma::hash;
use chroma::hash::Hash160;
use chroma::p2p::address::{PeerAddress, PeerTextError};
use chroma::p2p::net::{IpAddr, NetAddr};
use chroma::p2p::node::base::PROTOCOL_VERSION;
use chroma::p2p::wire::{Message, MessageType, RejectMessage};
use chroma::crypto::noise::{NodeId, NoiseKey};
use chroma::types::Address;

#[test]
fn every_amount_fault_has_its_input() {
    for (text, fault) in [
        ("  ", AmountFault::Empty),
        ("-1", AmountFault::Signed),
        ("+1", AmountFault::Signed),
        ("1E6", AmountFault::Exponent),
        ("1.2.3", AmountFault::ManyPoints),
        ("1.", AmountFault::NoFraction),
        (".5", AmountFault::NoWhole),
        ("1,5", AmountFault::NotDecimal),
        ("1.0000000", AmountFault::TooFine),
        ("18446744073709.551616", AmountFault::OutOfRange),
        ("99999999999999999999999", AmountFault::OutOfRange),
    ] {
        assert_eq!(parse_chr(text).unwrap_err().fault, fault, "{:?}", text);
    }
    assert_eq!(
        parse_chr(" .5 ").unwrap_err().message(),
        "no digits before the decimal point: .5 (write 0.5)"
    );
}

#[test]
fn amounts_may_have_space_around_them() {
    assert_eq!(parse_chr("\t1.50\u{3000}\n").unwrap(), 1_500_000);
    assert_eq!(parse_chr("007").unwrap(), 7_000_000);
    assert_eq!(parse_chr("18446744073709.551615").unwrap(), u64::MAX);
    assert_eq!(format_chr(u64::MAX), "18446744073709.551615");
}

#[test]
fn addresses_are_read_in_either_form() {
    let a = Address::from_hash160(Hash160([0x42; 20]));
    let text = address_to_bech32(&a);
    assert!(text.starts_with("chr1"));
    assert_eq!(bech32_to_address(&text), Some(a));
    assert_eq!(bech32_to_address(&"42".repeat(20)), Some(a));
    assert_eq!(bech32_to_address(&format!("0x{}", "42".repeat(20))), Some(a));
    assert_eq!(bech32_to_address(&"42".repeat(19)), None);
    assert_eq!(bech32_to_address("nonsense"), None);
    let mut typo = text.clone();
    let last = typo.pop().unwrap();
    typo.push(if last == 'q' { 'p' } else { 'q' });
    assert_eq!(bech32_to_address(&typo), None, "the checksum catches a typo");
}

#[test]
fn hashes_and_keys_are_read() {
    let h = hash::Hash::blake3(b"tx");
    assert_eq!(parse_hash(&format!("  0x{}\n", h.to_hex())), Some(h));
    assert_eq!(parse_hash(&h.to_hex()), Some(h));
    assert_eq!(parse_hash("0x12"), None);
    assert_eq!(parse_key(&format!("{}\n", "07".repeat(32))), Some([7; 32]));
    assert_eq!(parse_key(&"07".repeat(31)), None);
    assert_eq!(parse_key("not a key"), None);
}

#[test]
fn passphrases_are_checked() {
    let good = "secret".to_string();
    assert_eq!(check_passphrase(&good, None), Ok(()));
    assert_eq!(check_passphrase(&good, Some(&good)), Ok(()));
    assert_eq!(
        check_passphrase(&good, Some(&"Secret".to_string())),
        Err(PassphraseFault::Mismatch)
    );
    assert_eq!(check_passphrase(&String::new(), None), Err(PassphraseFault::Empty));
}

#[test]
fn client_follows_the_handshake() {
    let v = client_version(9, 1_700_000_000);
    assert_eq!((v.version, v.nonce, v.timestamp), (PROTOCOL_VERSION, 9, 1_700_000_000));
    assert_eq!((v.height, v.listen_port), (0, 0));
    assert_eq!(handshake_step(MessageType::Version), HandshakeStep::Acknowledge);
    assert_eq!(handshake_step(MessageType::VerAck), HandshakeStep::Done);
    assert_eq!(handshake_step(MessageType::Inv), HandshakeStep::Wait);
}

#[test]
fn refusals_are_told() {
    let reject = RejectMessage {
        message: "tx".to_string(),
        code: 1,
        reason: "bad signature".to_string(),
    };
    assert_eq!(
        refusal(&Message::new(MessageType::Reject, reject.encode())).unwrap(),
        "node rejected the transaction: bad signature"
    );
    assert_eq!(
        refusal(&Message::new(MessageType::Reject, vec![1])).unwrap(),
        "node rejected the transaction"
    );
    assert!(refusal(&Message::new(MessageType::Inv, vec![])).is_none());
}

#[test]
fn invalid_text_in_a_rejection_is_replaced() {
    let m = RejectMessage::decode(&[1, 0xFF, 7, 2, b'o', b'k']).unwrap();
    assert_eq!(m.message, "\u{fffd}");
    assert_eq!(m.code, 7);
    assert_eq!(m.reason, "ok");
}

#[test]
fn peers_are_written_with_their_keys() {
    let peer = PeerAddress::new(
        NodeId::from_bytes([1; 32]),
        NoiseKey::from_bytes([2; 32]),
        NetAddr::new(IpAddr::V4([192, 0, 2, 1]), 8333),
    );
    let text = peer.to_text("192.0.2.1:8333");
    assert_eq!(text, format!("{}.{}@192.0.2.1:8333", "01".repeat(32), "02".repeat(32)));
    let back = PeerAddress::parse(&text).unwrap();
    assert_eq!(back.node_id, peer.node_id);
    assert_eq!(back.noise_key, peer.noise_key);
    assert_eq!(back.socket, "192.0.2.1:8333");
    assert!(matches!(PeerAddress::parse("192.0.2.1:8333"), Err(PeerTextError::Shape)));
    assert!(PeerAddress::parse("ab@1.2.3.4:5").is_err());
    assert!(PeerAddress::parse(&format!("zz.{}@1.2.3.4:5", "02".repeat(32))).is_err());
}

#[test]
fn core_errors_say_what_is_wrong() {
    for (e, text) in [
        (CoreError::Serialization("x".to_string()), "serialization error: x"),
        (CoreError::InvalidBlock("x".to_string()), "invalid block: x"),
        (CoreError::InvalidNonce("x".to_string()), "invalid nonce: x"),
        (CoreError::BlockSizeExceeded(7, 5), "block size exceeded: 7 bytes > max 5"),
        (CoreError::MempoolFull(7, 5), "mempool full: size 7 > max 5"),
        (CoreError::Storage("x".to_string()), "storage error: x"),
    ] {
        assert_eq!(e.message(), text);
    }
}

#[test]
fn sealed_chunks_come_off_one_by_one() {
    let mut stream = vec![0, 0, 0, 2, 7, 8, 0, 0, 1];
    assert_eq!(next_sealed(&mut stream), Some(vec![0, 0, 0, 2, 7, 8]));
    assert_eq!(stream, vec![0, 0, 1]);
    assert_eq!(next_sealed(&mut stream), None);
    assert_eq!(stream, vec![0, 0, 1]);

    // The length is big-endian: 256 bytes are wanted here, and 255 are there.
    stream.push(0);
    stream.extend(vec![9u8; 255]);
    assert_eq!(next_sealed(&mut stream), None);
    stream.push(9);
    let chunk = next_sealed(&mut stream).expect("whole by now");
    assert_eq!(chunk.len(), 260);
    assert!(stream.is_empty());
}

#[test]
fn an_empty_sealed_chunk_is_a_chunk() {
    let mut stream = vec![0, 0, 0, 0, 5];
    assert_eq!(next_sealed(&mut stream), Some(vec![0, 0, 0, 0]));
    assert_eq!(stream, vec![5]);
}
