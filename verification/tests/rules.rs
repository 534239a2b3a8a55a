//! Rules that hold across blocks, branches, peers and pools.

use std::collections::HashMap;

use chroma::block::{validate_block, Block, BlockHeader, BlockValidationContext};
use chroma::consensus::chain::{now_secs, BlockOutcome, BlockSource, ChainState};
use chroma::consensus::genesis::build_genesis_block_with;
use chroma::consensus::miner::{
    assemble_block, mine_block, mine_block_with_limit, BlockAssemblyContext,
};
use chroma::consensus::headers::median_time_past;
use chroma::consensus::params::{default_max_target, default_min_target, ChainParams};
use chroma::consensus::retarget::{calculate_target_for_height_with, mul_div};
use chroma::constants::{BLOCK_REWARD_UNITS, MAX_SUPPLY_UNITS, REORG_JOURNAL_DEPTH};
use chroma::crypto::hash::hash160;
use chroma::crypto::randomx::{
    calculate_work, hash_meets_target, randomx_available, seed_height_for, PowAlgorithm,
};
use chroma::crypto::schnorr::{PublicKey32, SecretKey32};
use chroma::error::CoreError;
use chroma::hash;
use chroma::hash::Hash160;
use chroma::keymap::KeyMap;
use chroma::p2p::address::AddressGroup;
use chroma::p2p::clock::{Clock, CLOCK_LEAD_MILLIS};
use chroma::p2p::net::{IpAddr, NetAddr};
use chroma::p2p::peer::{InboundAdmission, PeerInfo, PeerManager, BYTE_RATE_LIMIT};
use chroma::p2p::sync::HeaderChain;
use chroma::serialize::{CanonicalDecode, CanonicalEncode};
use chroma::state::{Account, State};
use chroma::tx::{create_transaction, Transaction};
use chroma::types::{Address, Amount, BlockHeight, CompactTarget, Nonce};
use chroma::u256::U256;

#[derive(Default)]
struct MemoryBlocks(HashMap<hash::Hash, Block>);

impl BlockSource for MemoryBlocks {
    fn get_block(&self, hash: &hash::Hash) -> Option<Block> {
        self.0.get(hash).cloned()
    }
}

fn who(tag: u8) -> Address {
    Address::from_hash160(Hash160([tag; 20]))
}

fn keyed(tag: u8) -> (SecretKey32, Address) {
    let secret = SecretKey32::from_bytes([tag; 32]).unwrap();
    let key = PublicKey32::from_secret(&secret).unwrap();
    (secret, Address::from_hash160(Hash160(hash160(&key.0))))
}

fn mined_on(parent: &BlockHeader, state: &State, to: Address, txs: &[Transaction]) -> Block {
    let ctx = BlockAssemblyContext {
        height: BlockHeight(parent.height.0 + 1),
        previous_hash: parent.hash(),
        timestamp: parent.timestamp + 10,
        bits: parent.bits,
        coinbase_recipient: to,
    };
    let mut block = assemble_block(&ctx, txs, state).unwrap();
    mine_block_with_limit(&mut block, 100_000).unwrap();
    block
}

fn context(parent: &BlockHeader, supply: u64) -> BlockValidationContext {
    BlockValidationContext {
        previous_hash: parent.hash(),
        expected_height: BlockHeight(parent.height.0 + 1),
        previous_timestamp: parent.timestamp,
        median_time_past: parent.timestamp,
        expected_bits: parent.bits,
        current_supply: supply,
        previous_state_root: parent.state_root,
        network_time: now_secs(),
        pow_algorithm: PowAlgorithm::Blake3,
        pow_seed: hash::Hash::zero(),
    }
}

// ---------------------------------------------------------------------------
// Blocks
// ---------------------------------------------------------------------------

#[test]
fn every_fault_of_a_block_has_its_error() {
    let genesis = build_genesis_block_with(&ChainParams::regtest());
    let good = mined_on(&genesis.header, &State::new(), who(1), &[]);
    let ctx = context(&genesis.header, 0);
    let fault = |b: &Block, ctx: &BlockValidationContext| {
        validate_block(b, ctx, &mut State::new()).unwrap_err()
    };
    let solved = |b: &mut Block| mine_block(b).unwrap();

    let mut b = good.clone();
    b.header.version = 2;
    assert!(matches!(fault(&b, &ctx), CoreError::InvalidBlock(_)));

    let mut b = good.clone();
    b.header.timestamp = now_secs() + 1_000;
    assert!(matches!(fault(&b, &ctx), CoreError::InvalidTimestamp(_)));

    let mut b = good.clone();
    b.header.bits = CompactTarget(0x1d00ffff);
    assert!(matches!(fault(&b, &ctx), CoreError::InvalidDifficulty(_)));

    let mut b = good.clone();
    while hash_meets_target(&b.header.hash(), &b.header.bits.to_full_target()) {
        b.header.nonce += 1;
    }
    assert!(matches!(fault(&b, &ctx), CoreError::InvalidProofOfWork(_)));

    let mut b = good.clone();
    b.transactions[0].nonce = Nonce(1);
    assert!(matches!(fault(&b, &ctx), CoreError::InvalidBlock(_)));

    let mut b = good.clone();
    b.header.state_root = hash::Hash::blake3(b"x");
    solved(&mut b);
    assert!(matches!(fault(&b, &ctx), CoreError::InvalidStateRoot(_)));

    let mut b = good.clone();
    b.header.tx_merkle_root = hash::Hash::blake3(b"x");
    solved(&mut b);
    assert!(matches!(fault(&b, &ctx), CoreError::InvalidMerkleRoot(_)));

    let mut b = good.clone();
    b.transactions = vec![good.transactions[0]; 8_000];
    assert!(matches!(fault(&b, &ctx), CoreError::BlockSizeExceeded(_, _)));

    let (secret, poor) = keyed(9);
    let tx = create_transaction(&secret, poor, who(2), Amount(5), Nonce(0)).unwrap();
    let mut b = good.clone();
    b.transactions.push(tx);
    solved(&mut b);
    assert!(matches!(fault(&b, &ctx), CoreError::InsufficientBalance(_)));

    let randomx = BlockValidationContext { pow_algorithm: PowAlgorithm::RandomX, ..ctx };
    assert!(!randomx_available());
    assert!(matches!(fault(&good, &randomx), CoreError::InvalidProofOfWork(_)));

    assert_eq!(
        validate_block(&good, &ctx, &mut State::new()).unwrap(),
        good.header.state_root
    );
}

#[test]
fn blocks_mint_the_subsidy_and_nothing_else() {
    let genesis = build_genesis_block_with(&ChainParams::regtest());
    let (secret, rich) = keyed(3);
    let mut state = State::new();
    let first = mined_on(&genesis.header, &state, rich, &[]);
    validate_block(&first, &context(&genesis.header, 0), &mut state).unwrap();
    let tx = create_transaction(&secret, rich, who(4), Amount(400_000), Nonce(0)).unwrap();
    let second = mined_on(&first.header, &state, who(5), &[tx]);
    validate_block(&second, &context(&first.header, state.total_supply()), &mut state).unwrap();

    let held: u64 = [rich, who(4), who(5)].iter().map(|a| state.get_account(a).balance).sum();
    assert_eq!(held, 2 * BLOCK_REWARD_UNITS);
    assert_eq!(state.total_supply(), held);
    assert_eq!(state.compute_state_root(), second.header.state_root);

    // The same transfer does not apply again.
    assert!(matches!(
        state.apply_transaction(&rich, &who(4), 400_000, 0),
        Err(CoreError::InvalidNonce(_))
    ));
}

#[test]
fn subsidy_ends_at_the_cap() {
    let mut state = State::new();
    state.total_supply = MAX_SUPPLY_UNITS as u64 - 3;
    assert_eq!(state.apply_subsidy(&who(1), 9).unwrap(), 3);
    assert_eq!(state.total_supply() as u128, MAX_SUPPLY_UNITS as u128);
    assert_eq!(state.apply_subsidy(&who(1), 10).unwrap(), 0);
}

#[test]
fn merkle_proofs_lead_to_the_root() {
    let mut state = State::new();
    for n in 1..=7u8 {
        state.set_account(&who(n), Account::new(100 * n as u64, n as u64));
    }
    let root = state.compute_state_root();
    for n in 1..=7u8 {
        let proof = state.merkle_proof(&who(n)).unwrap();
        assert_eq!(proof.account, Account::new(100 * n as u64, n as u64));
        assert!(proof.verify(&who(n), &root));
        assert!(!proof.verify(&who(n + 1), &root));
    }
    assert!(state.merkle_proof(&who(99)).is_none());

    // The order in which accounts were touched does not matter.
    let mut other = State::new();
    for n in (1..=7u8).rev() {
        other.set_account(&who(n), Account::new(0, 0));
        other.set_account(&who(n), Account::new(100 * n as u64, n as u64));
    }
    assert_eq!(other.compute_state_root(), root);
}

#[test]
fn accounts_read_back_from_their_bytes() {
    let a = Account::new(12_345, 67);
    assert_eq!(Account::decode_value(&a.encode_value()).unwrap(), a);
    assert!(Account::decode_value(&[0; 15]).is_err());
}

#[test]
fn transactions_read_back_from_their_bytes() {
    let (secret, from) = keyed(8);
    let tx = create_transaction(&secret, from, who(1), Amount(7), Nonce(3)).unwrap();
    let bytes = tx.encode();
    assert_eq!(bytes.len(), 132);
    assert_eq!(Transaction::decode(&bytes).unwrap(), tx);
    assert_eq!(tx.sender_address(), from);
    assert!(tx.verify_signature());
    let mut bad = bytes.clone();
    bad[..32].copy_from_slice(&[0xFF; 32]);
    assert!(Transaction::decode(&bad).is_err(), "no point on the curve");
    let coinbase = Transaction::coinbase(who(1), Amount(1_000_000));
    assert_eq!(Transaction::decode(&coinbase.encode()).unwrap(), coinbase);
    assert!(coinbase.is_coinbase());
    assert!(!coinbase.verify_signature());
}

// ---------------------------------------------------------------------------
// Chains
// ---------------------------------------------------------------------------

#[test]
fn tip_does_not_depend_on_the_order_of_arrival() {
    let params = ChainParams::regtest();
    let genesis = build_genesis_block_with(&params);
    let a = mined_on(&genesis.header, &State::new(), who(1), &[]);
    let b = mined_on(&genesis.header, &State::new(), who(2), &[]);
    let mut source = MemoryBlocks::default();
    for block in [&genesis, &a, &b] {
        source.0.insert(block.hash(), block.clone());
    }
    let mut one = ChainState::with_params(params);
    let mut two = ChainState::with_params(params);
    for block in [&a, &b] {
        one.apply_block_at(block, &source, now_secs()).unwrap();
    }
    for block in [&b, &a] {
        two.apply_block_at(block, &source, now_secs()).unwrap();
    }
    assert_eq!(one.tip.hash, two.tip.hash);
    assert_eq!(one.tip.hash, std::cmp::min(a.hash(), b.hash()), "the smaller hash wins a tie");
    assert_eq!(one.state.total_supply(), BLOCK_REWARD_UNITS);
    assert_eq!(one.state.compute_state_root(), one.tip.header.state_root);
}

#[test]
fn missing_blocks_are_named_when_a_branch_is_rebuilt() {
    let params = ChainParams::regtest();
    let genesis = build_genesis_block_with(&params);
    let a = mined_on(&genesis.header, &State::new(), who(1), &[]);
    let mut state = State::new();
    let b = mined_on(&genesis.header, &state, who(2), &[]);
    state.apply_subsidy(&who(2), 1).unwrap();
    let c = mined_on(&b.header, &state, who(2), &[]);

    let mut chain = ChainState::with_params(params);
    let none = MemoryBlocks::default();
    chain.apply_block_at(&a, &none, now_secs()).unwrap();
    chain.apply_block_at(&b, &none, now_secs()).unwrap();
    let tip = chain.tip.hash;
    if tip == a.hash() {
        // The branch block itself has to be read back.
        assert!(chain.apply_block_at(&c, &none, now_secs()).is_err());
        assert_eq!(chain.tip.hash, tip);
        let mut source = MemoryBlocks::default();
        source.0.insert(b.hash(), b.clone());
        assert_eq!(
            chain.apply_block_at(&c, &source, now_secs()).unwrap(),
            BlockOutcome::Reorganized { depth: 1 }
        );
    } else {
        assert_eq!(
            chain.apply_block_at(&c, &none, now_secs()).unwrap(),
            BlockOutcome::Extended
        );
    }
    assert_eq!(chain.tip.hash, c.hash());
    assert!(chain.journal_depth() <= REORG_JOURNAL_DEPTH as usize);
}

#[test]
fn headers_are_absorbed_up_to_the_first_bad_one() {
    let params = ChainParams::regtest();
    let genesis = build_genesis_block_with(&params);
    let mut headers = Vec::new();
    let mut parent = genesis.header;
    let mut state = State::new();
    for _ in 0..4 {
        let b = mined_on(&parent, &state, who(1), &[]);
        state.apply_subsidy(&who(1), b.header.height.0).unwrap();
        parent = b.header;
        headers.push(b.header);
    }
    let mut chain = HeaderChain::with_params(params);
    let mut bad = headers.clone();
    bad[2].previous_hash = hash::Hash::zero();
    let batch = chain.absorb_headers(&bad);
    assert_eq!(batch.accepted, 2);
    assert!(batch.rejected.is_some());
    assert_eq!(chain.height(), 2);

    let batch = chain.absorb_headers(&headers);
    assert!(batch.rejected.is_none());
    assert_eq!(chain.height(), 4);
    assert_eq!(chain.best_hash(), headers[3].hash());
    let served = chain.headers_after(&headers[0].hash(), &headers[2].hash());
    assert_eq!(served, headers[1..3].to_vec());
    assert!(chain.headers_after(&headers[3].hash(), &hash::Hash::zero()).is_empty());
}

#[test]
fn retarget_follows_the_pace() {
    assert_eq!(mul_div(&U256::max_value(), 2, 1), None, "it would not fit");
    assert_eq!(mul_div(&U256::max_value(), 5, 5), Some(U256::max_value()));
    let params = ChainParams::regtest();
    let genesis = build_genesis_block_with(&params);
    let mut headers = std::collections::BTreeMap::new();
    headers.insert(0u32, genesis.header);
    for h in 1..=9u32 {
        let mut header = genesis.header;
        header.height = BlockHeight(h);
        header.timestamp += h as u64;
        headers.insert(h, header);
    }
    assert_eq!(
        calculate_target_for_height_with(10, &headers, &params).unwrap(),
        genesis.header.bits,
        "regtest holds its target"
    );
}

#[test]
fn seed_heights_lag_behind_their_epoch() {
    assert_eq!(seed_height_for(0, 1000, 100), None);
    assert_eq!(seed_height_for(999, 1000, 100), None);
    assert_eq!(seed_height_for(1000, 1000, 100), Some(900));
    assert_eq!(seed_height_for(2500, 1000, 100), Some(1900));
}

#[test]
fn harder_targets_stand_for_more_work() {
    let mut easy = [0u8; 32];
    easy[0] = 0x40;
    let mut hard = [0u8; 32];
    hard[0] = 0x20;
    let w = |t: &[u8; 32]| U256::from_be_bytes(&calculate_work(t));
    assert!(w(&hard) > w(&easy));
    assert_eq!(w(&easy), U256::from_u64(4));
}

// ---------------------------------------------------------------------------
// Maps, peers and groups
// ---------------------------------------------------------------------------

#[test]
fn maps_keep_one_value_per_key() {
    let mut m: KeyMap<2, u32> = KeyMap::new();
    assert!(m.is_empty());
    for (k, v) in [([2, 0], 1), ([1, 0], 2), ([2, 0], 3), ([0, 9], 4)] {
        m.insert(k, v);
    }
    assert_eq!(m.len(), 3);
    assert_eq!(m.get(&[2, 0]), Some(&3));
    assert_eq!(m.get(&[7, 7]), None);
    assert_eq!((m.key_at(0), m.key_at(1), m.key_at(2)), (&[0, 9], &[1, 0], &[2, 0]));
    assert_eq!(m.remove(&[1, 0]), Some(2));
    assert_eq!(m.remove(&[1, 0]), None);
    assert!(!m.contains_key(&[1, 0]));
    assert_eq!(m.copy().len(), 2);
}

#[test]
fn byte_limit_is_a_limit_of_its_own() {
    let mut p = PeerInfo::new_on(
        Clock::start(),
        NetAddr::new(IpAddr::V4([203, 0, 113, 9]), 1),
        0,
    );
    assert!(p.allow_bytes_at(BYTE_RATE_LIMIT as usize, 5));
    assert!(!p.allow_bytes_at(1, 6));
    assert!(p.allow_message_at(6));
    assert!(p.allow_getdata_at(50, 6));
    assert!(!p.allow_getdata_at(1, 6));
    assert!(p.allow_bytes_at(1, 2_000), "the window has rolled");
}

#[test]
fn ban_ends_with_time() {
    let mut p = PeerInfo::new_on(
        Clock::start(),
        NetAddr::new(IpAddr::V4([203, 0, 113, 9]), 1),
        0,
    );
    p.score_bad_at(100, 1_000);
    assert!(!p.is_banned_at(1_001));
    p.score_bad_at(100, 1_000);
    assert!(p.is_banned_at(1_001));
    assert!(!p.is_banned_at(1_000 + 3_600_000));
}

#[test]
fn releasing_a_socket_makes_room_again() {
    let src = |n: u8| NetAddr::new(IpAddr::V4([203, 0, 113, n]), 1);
    let mut pm = PeerManager::new();
    let mut admitted = 0u8;
    while pm.admit_inbound(src(admitted)) == InboundAdmission::Accepted {
        admitted += 1;
    }
    assert_eq!(pm.admit_inbound(src(99)), InboundAdmission::GroupFull);
    pm.release_inbound(src(0));
    assert_eq!(pm.admit_inbound(src(99)), InboundAdmission::Accepted);
}

#[test]
fn groups_tell_sites_apart() {
    let v6 = |a: [u8; 16]| AddressGroup::of(IpAddr::V6(a));
    let mut a = [0u8; 16];
    a[..8].copy_from_slice(&[0x20, 0x01, 0x0d, 0xb8, 0, 1, 0, 2]);
    let mut b = a;
    b[7] = 3;
    let mut c = a;
    c[5] = 9;
    assert_ne!(v6(a), v6(b));
    assert_eq!(v6(a).site(), v6(b).site());
    assert_ne!(v6(a).site(), v6(c).site());
    assert!(AddressGroup::of(IpAddr::V4([8, 8, 8, 8])).site().is_none());
    assert!(AddressGroup::of(IpAddr::V4([127, 0, 0, 1])).is_local());
}

#[test]
fn clocks_start_ahead_and_go_forward() {
    let clock = Clock::start();
    let a = clock.millis();
    let b = clock.millis();
    assert!(CLOCK_LEAD_MILLIS <= a && a <= b);
}

#[test]
fn addresses_are_written_in_their_short_form() {
    let v4 = NetAddr::new(IpAddr::V4([203, 0, 113, 9]), 8_333);
    assert_eq!(v4.to_text(), "203.0.113.9:8333");
    let v6 = |groups: [u16; 8]| {
        let mut o = [0u8; 16];
        for (i, g) in groups.iter().enumerate() {
            o[2 * i] = (g >> 8) as u8;
            o[2 * i + 1] = (g & 0xff) as u8;
        }
        NetAddr::new(IpAddr::V6(o), 1).to_text()
    };
    assert_eq!(v6([0; 8]), "[::]:1");
    assert_eq!(v6([0, 0, 0, 0, 0, 0, 0, 1]), "[::1]:1");
    assert_eq!(v6([0x2001, 0xdb8, 0, 0, 1, 0, 0, 1]), "[2001:db8::1:0:0:1]:1");
    assert_eq!(v6([0x2001, 0xdb8, 0, 1, 1, 1, 1, 1]), "[2001:db8:0:1:1:1:1:1]:1");
    assert_eq!(v6([1, 0, 0, 2, 0, 0, 0, 3]), "[1:0:0:2::3]:1");
    assert_eq!(v6([0xfe80, 0, 0, 0, 0xa, 0xbc, 0xdef, 0]), "[fe80::a:bc:def:0]:1");
    assert_eq!(v6([0, 0, 0, 0, 0, 0xffff, 0xcb00, 0x7109]), "[::ffff:203.0.113.9]:1");
    assert_eq!(v6([1, 2, 3, 4, 5, 6, 7, 8]), "[1:2:3:4:5:6:7:8]:1");
    assert_eq!(v6([1, 2, 3, 4, 5, 6, 0, 0]), "[1:2:3:4:5:6::]:1");
}

#[test]
fn compact_form_is_the_best_fit_from_below() {
    let mut target = [0u8; 32];
    target[10..14].copy_from_slice(&[0x12, 0x34, 0x56, 0x78]);
    let bits = CompactTarget::from_full_target(&target);
    assert_eq!(bits.0, 0x16123456);
    let below = U256::from_be_bytes(&bits.to_full_target());
    let above = U256::from_be_bytes(&CompactTarget(bits.0 + 1).to_full_target());
    let exact = U256::from_be_bytes(&target);
    assert!(below < exact && exact < above);
}

#[test]
fn retargets_stay_within_the_bounds_once_rounded() {
    let params = ChainParams::devnet();
    let genesis = build_genesis_block_with(&params).header;
    let pace = |bits: u32, seconds: u64| {
        let mut headers = std::collections::BTreeMap::new();
        for h in 0..=9u32 {
            let mut header = genesis;
            header.height = BlockHeight(h);
            header.bits = CompactTarget(bits);
            header.timestamp += if h == 9 { seconds } else { 0 };
            headers.insert(h, header);
        }
        calculate_target_for_height_with(10, &headers, &params).unwrap()
    };
    let value = |bits: CompactTarget| U256::from_be_bytes(&bits.to_full_target());
    let min = U256::from_be_bytes(&default_min_target());
    let max = U256::from_be_bytes(&default_max_target());
    assert_eq!(value(pace(0x1700ffff, 1)), min, "the hardest target has a compact form");
    let easiest = value(pace(0x1d03ffff, 10_000));
    assert!(min < easiest && easiest < max, "the easiest is rounded down");
    assert_eq!(pace(0x1d03ffff, 10_000).0, 0x1d03ffff);
}

#[test]
fn median_is_the_upper_middle() {
    let genesis = build_genesis_block_with(&ChainParams::regtest()).header;
    let mut headers = std::collections::BTreeMap::new();
    for (h, t) in [(0u32, 50u64), (1, 10), (2, 40), (3, 20)] {
        let mut header = genesis;
        header.timestamp = t;
        headers.insert(h, header);
    }
    assert_eq!(median_time_past(&headers, 3), 40);
    assert_eq!(median_time_past(&headers, 4), 40);
    assert_eq!(median_time_past(&headers, 0), 0);
}

#[test]
fn refusals_say_why() {
    let params = ChainParams::regtest();
    let genesis = build_genesis_block_with(&params);
    let a = mined_on(&genesis.header, &State::new(), who(1), &[]);
    let mut state = State::new();
    state.apply_subsidy(&who(1), 1).unwrap();
    let b = mined_on(&a.header, &state, who(1), &[]);
    let mut chain = ChainState::with_params(params);
    let e = chain.apply_block(&b).unwrap_err();
    assert_eq!(
        e.message(),
        format!("invalid block: missing parent {} for block at height 2", a.hash().to_hex())
    );
    let mut state = State::new();
    let e = state.apply_transaction(&who(1), &who(2), 5, 0).unwrap_err();
    assert_eq!(e.message(), "insufficient balance: account has 0 units, tried to send 5");
}

#[test]
fn tip_is_the_best_of_all_known_blocks() {
    let params = ChainParams::regtest();
    let genesis = build_genesis_block_with(&params);
    let mut chain = ChainState::with_params(params);
    let mut smallest: Option<hash::Hash> = None;
    for tag in 1..=5u8 {
        let b = mined_on(&genesis.header, &State::new(), who(tag), &[]);
        chain.apply_block_at(&b, &MemoryBlocks::default(), now_secs()).unwrap();
        let h = b.hash();
        smallest = match smallest {
            Some(s) if s.0 <= h.0 => Some(s),
            _ => Some(h),
        };
        assert_eq!(Some(chain.tip.hash), smallest, "of equal work the smaller hash");
    }
}

#[test]
fn regtest_has_a_genesis_of_its_own() {
    let hash_of = |p: ChainParams| build_genesis_block_with(&p).hash();
    let real = hash_of(ChainParams::mainnet());
    assert_eq!(hash_of(ChainParams::testnet()), real);
    assert_eq!(hash_of(ChainParams::devnet()), real);
    assert_ne!(hash_of(ChainParams::regtest()), real);
}
