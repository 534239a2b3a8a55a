//! RandomX proof of work, end to end.
//!
//! Uses the regtest *target* with the RandomX *function*, so the real hash is
//! exercised without needing difficulty-1 work: a solution is a couple of
//! hashes away, and each costs tens of milliseconds.

use chroma::consensus::chain::ChainState;
use chroma::consensus::genesis::genesis_randomx_seed;
use chroma::consensus::params::ChainParams;
use chroma::crypto::randomx::PowAlgorithm;

/// Regtest's easy target, but with RandomX doing the hashing.
fn randomx_params() -> ChainParams {
    ChainParams {
        pow: PowAlgorithm::RandomX,
        ..ChainParams::regtest()
    }
}

#[test]
fn chain_state_derives_the_epoch_seed_from_its_headers() {
    // Early heights have no seed block yet, so they use the genesis seed.
    let chain = ChainState::with_params(randomx_params());
    assert_eq!(
        chain.pow_seed_for(1, &chain.headers),
        genesis_randomx_seed()
    );
    assert_eq!(
        chain.pow_seed_for(999, &chain.headers),
        genesis_randomx_seed()
    );

    // Past the first epoch the seed would come from height 900, which this
    // chain does not have, so it still falls back rather than guessing.
    assert_eq!(
        chain.pow_seed_for(1000, &chain.headers),
        genesis_randomx_seed()
    );
}

#[test]
fn real_networks_are_configured_for_randomx() {
    for params in [
        ChainParams::mainnet(),
        ChainParams::testnet(),
        ChainParams::devnet(),
    ] {
        assert_eq!(params.pow, PowAlgorithm::RandomX);
    }
    assert_eq!(
        ChainParams::regtest().pow,
        PowAlgorithm::Blake3,
        "regtest stays cheap on purpose"
    );
}
